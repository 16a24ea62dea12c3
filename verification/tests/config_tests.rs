use bitcraft_hub::config::{config_path, CliConfigParameters, Config, ConfigLayer, LogLevel, LogType};
use bitcraft_hub::download::{download_plan, table_group, DownloadSubcommand, TableGroup};
use bitcraft_hub::download::classify_tables;
use bitcraft_hub::params::{player_username_positions, ListClaimsParams, ListDeployableDescParams, ListPlayersParams};

#[test]
fn defaults_when_nothing_is_given() {
    let config = Config::new(None, ConfigLayer::default(), ConfigLayer::default());
    assert_eq!(config, Config::default());
    assert_eq!(config.host, "localhost");
    assert_eq!(config.port, 8080);
    assert_eq!(config.database.url, "");
    assert_eq!(config.database.max_connections, 200);
    assert_eq!(config.database.min_connections, 30);
    assert_eq!(config.database.connect_timeout, 10);
    assert_eq!(config.database.idle_timeout, 300);
    assert_eq!(config.database.max_lifetime, None);
    assert_eq!(config.log_type, LogType::Default);
    assert_eq!(config.log_level, LogLevel::Info);
    assert_eq!(config.spacetimedb.domain, "localhost");
    assert_eq!(config.spacetimedb.protocol, "https://");
    assert_eq!(config.spacetimedb.username, "token");
    assert_eq!(config.spacetimedb.websocket_protocol, "wss://");
    assert!(!config.spacetimedb.cleanup);
    assert_eq!(config.origins.origin, vec!["http://localhost:3000".to_string()]);
    assert!(!config.live_updates_ws);
}

#[test]
fn environment_beats_command_line_beats_file() {
    let cli = CliConfigParameters {
        host: Some("cli-host".to_string()),
        port: Some(9000),
        database_url: Some("postgres://cli".to_string()),
        storage_path: None,
        config_path: None,
        live_updates_ws: Some(true),
    };
    let mut file = ConfigLayer::default();
    file.host = Some("file-host".to_string());
    file.port = Some(7000);
    file.database_max_connections = Some(50);
    file.log_level = Some(LogLevel::Debug);
    file.spacetimedb_domain = Some("file.example".to_string());
    let mut env = ConfigLayer::default();
    env.port = Some(6000);
    env.log_level = Some(LogLevel::Warn);
    env.origins = Some(vec!["https://hub.example".to_string()]);
    let config = Config::new(Some(cli), file, env);
    assert_eq!(config.host, "cli-host");
    assert_eq!(config.port, 6000);
    assert_eq!(config.database.url, "postgres://cli");
    assert_eq!(config.database.max_connections, 50);
    assert_eq!(config.database.min_connections, 30);
    assert_eq!(config.log_level, LogLevel::Warn);
    assert_eq!(config.spacetimedb.domain, "file.example");
    assert_eq!(config.origins.origin, vec!["https://hub.example".to_string()]);
    assert!(config.live_updates_ws);
}

#[test]
fn urls_join_protocol_and_domain() {
    let mut config = Config::default();
    config.spacetimedb.domain = "game.example".to_string();
    assert_eq!(config.spacetimedb_url(), "https://game.example");
    assert_eq!(config.weboosocket_url(), "wss://game.example/v1");
}

#[test]
fn config_path_defaults_to_config_directory() {
    assert_eq!(config_path(&None), "config/config");
    assert_eq!(config_path(&Some(CliConfigParameters::default())), "config/config");
    let mut cli = CliConfigParameters::default();
    cli.config_path = Some("other.toml".to_string());
    assert_eq!(config_path(&Some(cli)), "other.toml");
}

#[test]
fn log_levels_print_in_capitals() {
    assert_eq!(LogLevel::Error.to_string(), "ERROR");
    assert_eq!(LogLevel::Warn.to_string(), "WARN");
    assert_eq!(LogLevel::default().to_string(), "INFO");
    assert_eq!(LogLevel::Debug.to_string(), "DEBUG");
    assert_eq!(LogLevel::Trace.to_string(), "TRACE");
    assert_eq!(LogType::default(), LogType::Default);
}

#[test]
fn tables_are_grouped_by_suffix() {
    assert_eq!(table_group("item_desc"), TableGroup::Desc);
    assert_eq!(table_group("player_state"), TableGroup::State);
    assert_eq!(table_group("_desc"), TableGroup::Desc);
    assert_eq!(table_group("desc"), TableGroup::Rest);
    assert_eq!(table_group("state_desc_x"), TableGroup::Rest);
}

#[test]
fn schema_tables_split_once_each() {
    let names: Vec<String> = ["item_desc", "player_state", "config", "item_desc", "cargo_desc"]
        .iter()
        .map(|s| s.to_string())
        .collect();
    let (desc, state, rest) = classify_tables(&names);
    assert_eq!(desc, vec!["item_desc".to_string(), "cargo_desc".to_string()]);
    assert_eq!(state, vec!["player_state".to_string()]);
    assert_eq!(rest, vec!["config".to_string()]);
}

#[test]
fn subcommands_pick_their_groups() {
    assert_eq!(download_plan(DownloadSubcommand::All), (true, true, true, false));
    assert_eq!(download_plan(DownloadSubcommand::Desc), (true, false, false, false));
    assert_eq!(download_plan(DownloadSubcommand::State), (false, true, false, false));
    assert_eq!(download_plan(DownloadSubcommand::Rest), (false, false, true, false));
    assert_eq!(download_plan(DownloadSubcommand::Schema), (false, false, false, true));
}

#[test]
fn list_parameters_have_defaults() {
    let players = ListPlayersParams { page: None, per_page: None, search: None, online: None };
    assert_eq!(players.page(), 1);
    assert_eq!(players.per_page(), 5);
    let deployables = ListDeployableDescParams { page: Some(3), per_page: None, search: None };
    assert_eq!(deployables.page(), 3);
    assert_eq!(deployables.per_page(), 5);
    let claims = ListClaimsParams { page: None, per_page: Some(10), search: None, research: None, running_upgrade: None };
    assert_eq!(claims.page(), 1);
    assert_eq!(claims.per_page(), 10);
}

#[test]
fn player_names_are_found_by_first_entry() {
    assert_eq!(player_username_positions(&vec![7, 3], &vec![3, 7, 7]), Some(vec![1, 0]));
    assert_eq!(player_username_positions(&vec![], &vec![1]), Some(vec![]));
    assert_eq!(player_username_positions(&vec![7, 4], &vec![3, 7]), None);
}
