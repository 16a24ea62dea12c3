//! Server settings: their defaults, and how the settings file, the command line and
//! the environment are layered over them.
use vstd::prelude::*;
use vstd::string::StringExecFns;

verus! {

/// How much the server logs.
#[derive(Debug, Clone, Copy, PartialEq, Eq)]
pub enum LogLevel {
    Error,
    Warn,
    Info,
    Debug,
    Trace,
}

impl Default for LogLevel {
    fn default() -> (level: Self)
        ensures
            level == LogLevel::Info,
    {
        LogLevel::Info
    }
}

/// The name the tracing library prints for each level.
pub open spec fn level_name(level: LogLevel) -> Seq<char> {
    match level {
        LogLevel::Error => "ERROR"@,
        LogLevel::Warn => "WARN"@,
        LogLevel::Info => "INFO"@,
        LogLevel::Debug => "DEBUG"@,
        LogLevel::Trace => "TRACE"@,
    }
}

impl LogLevel {
    /// The level as the logging filter writes it.
    pub fn to_string(&self) -> (name: String)
        ensures
            name@ == level_name(*self),
    {
        match self {
            LogLevel::Error => String::from_str("ERROR"),
            LogLevel::Warn => String::from_str("WARN"),
            LogLevel::Info => String::from_str("INFO"),
            LogLevel::Debug => String::from_str("DEBUG"),
            LogLevel::Trace => String::from_str("TRACE"),
        }
    }
}

/// The shape of the log output.
#[derive(Debug, Clone, Copy, PartialEq, Eq)]
pub enum LogType {
    Default,
    Json,
    Pretty,
}

impl Default for LogType {
    fn default() -> (log_type: Self)
        ensures
            log_type == LogType::Default,
    {
        LogType::Default
    }
}

/// Connection settings of the database.
#[derive(Debug, PartialEq, Eq)]
pub struct DatabaseConfig {
    pub url: String,
    pub max_connections: u32,
    pub min_connections: u32,
    pub connect_timeout: u64,
    pub idle_timeout: u64,
    pub max_lifetime: Option<u64>,
}

impl Default for DatabaseConfig {
    fn default() -> (config: Self)
        ensures
            config.url@ == ""@,
            config.max_connections == 200,
            config.min_connections == 30,
            config.connect_timeout == 10,
            config.idle_timeout == 300,
            config.max_lifetime is None,
    {
        DatabaseConfig {
            url: String::from_str(""),
            max_connections: 200,
            min_connections: 30,
            connect_timeout: 10,
            idle_timeout: 60 * 5,
            max_lifetime: None,
        }
    }
}

/// Where the game database is reached.
#[derive(Debug, PartialEq, Eq)]
pub struct SpacetimeDbConfig {
    pub domain: String,
    pub protocol: String,
    pub database: String,
    pub databases: Vec<String>,
    pub password: String,
    pub username: String,
    pub websocket_protocol: String,
    pub cleanup: bool,
}

impl Default for SpacetimeDbConfig {
    fn default() -> (config: Self)
        ensures
            config.domain@ == "localhost"@,
            config.protocol@ == "https://"@,
            config.database@ == ""@,
            config.databases@.len() == 0,
            config.password@ == ""@,
            config.username@ == "token"@,
            config.websocket_protocol@ == "wss://"@,
            !config.cleanup,
    {
        SpacetimeDbConfig {
            domain: String::from_str("localhost"),
            protocol: String::from_str("https://"),
            database: String::from_str(""),
            databases: Vec::new(),
            password: String::from_str(""),
            username: String::from_str("token"),
            websocket_protocol: String::from_str("wss://"),
            cleanup: false,
        }
    }
}

/// The origins allowed to call the server from a browser.
#[derive(Debug, PartialEq, Eq)]
pub struct AllowedOriginConfig {
    pub origin: Vec<String>,
}

impl Default for AllowedOriginConfig {
    fn default() -> (config: Self)
        ensures
            config.origin@.len() == 1,
            config.origin@[0]@ == "http://localhost:3000"@,
    {
        let mut origin: Vec<String> = Vec::new();
        origin.push(String::from_str("http://localhost:3000"));
        AllowedOriginConfig { origin }
    }
}

/// The server's settings.
#[derive(Debug, PartialEq, Eq)]
pub struct Config {
    pub host: String,
    pub port: u16,
    pub database: DatabaseConfig,
    pub log_type: LogType,
    pub log_level: LogLevel,
    pub spacetimedb: SpacetimeDbConfig,
    pub origins: AllowedOriginConfig,
    pub live_updates_ws: bool,
}

/// `config` holds the default settings.
pub open spec fn is_default_config(config: Config) -> bool {
    &&& config.host@ == "localhost"@
    &&& config.port == 8080
    &&& config.database.url@ == ""@
    &&& config.database.max_connections == 200
    &&& config.database.min_connections == 30
    &&& config.database.connect_timeout == 10
    &&& config.database.idle_timeout == 300
    &&& config.database.max_lifetime is None
    &&& config.log_type == LogType::Default
    &&& config.log_level == LogLevel::Info
    &&& config.spacetimedb.domain@ == "localhost"@
    &&& config.spacetimedb.protocol@ == "https://"@
    &&& config.spacetimedb.database@ == ""@
    &&& config.spacetimedb.databases@.len() == 0
    &&& config.spacetimedb.password@ == ""@
    &&& config.spacetimedb.username@ == "token"@
    &&& config.spacetimedb.websocket_protocol@ == "wss://"@
    &&& !config.spacetimedb.cleanup
    &&& config.origins.origin@.len() == 1
    &&& config.origins.origin@[0]@ == "http://localhost:3000"@
    &&& !config.live_updates_ws
}

impl Default for Config {
    fn default() -> (config: Self)
        ensures
            is_default_config(config),
    {
        Config {
            host: String::from_str("localhost"),
            port: 8080,
            database: DatabaseConfig::default(),
            log_type: LogType::default(),
            log_level: LogLevel::default(),
            spacetimedb: SpacetimeDbConfig::default(),
            origins: AllowedOriginConfig::default(),
            live_updates_ws: false,
        }
    }
}

/// Settings given on the command line.
#[derive(Debug, PartialEq, Eq)]
pub struct CliConfigParameters {
    pub host: Option<String>,
    pub port: Option<u16>,
    pub database_url: Option<String>,
    pub storage_path: Option<String>,
    pub config_path: Option<String>,
    pub live_updates_ws: Option<bool>,
}

impl Default for CliConfigParameters {
    fn default() -> (params: Self)
        ensures
            params.host is None,
            params.port is None,
            params.database_url is None,
            params.storage_path is None,
            params.config_path is None,
            params.live_updates_ws is None,
    {
        CliConfigParameters {
            host: None,
            port: None,
            database_url: None,
            storage_path: None,
            config_path: None,
            live_updates_ws: None,
        }
    }
}

/// The settings one source (the settings file, or the environment) gives; a field
/// the source leaves out is `None`.
#[derive(Debug, PartialEq, Eq)]
pub struct ConfigLayer {
    pub host: Option<String>,
    pub port: Option<u16>,
    pub database_url: Option<String>,
    pub database_max_connections: Option<u32>,
    pub database_min_connections: Option<u32>,
    pub database_connect_timeout: Option<u64>,
    pub database_idle_timeout: Option<u64>,
    pub database_max_lifetime: Option<u64>,
    pub log_type: Option<LogType>,
    pub log_level: Option<LogLevel>,
    pub spacetimedb_domain: Option<String>,
    pub spacetimedb_protocol: Option<String>,
    pub spacetimedb_database: Option<String>,
    pub spacetimedb_databases: Option<Vec<String>>,
    pub spacetimedb_password: Option<String>,
    pub spacetimedb_username: Option<String>,
    pub spacetimedb_websocket_protocol: Option<String>,
    pub spacetimedb_cleanup: Option<bool>,
    pub origins: Option<Vec<String>>,
    pub live_updates_ws: Option<bool>,
}

impl Default for ConfigLayer {
    /// A source that gives no setting.
    fn default() -> (layer: Self)
        ensures
            layer.host is None,
            layer.port is None,
            layer.database_url is None,
            layer.database_max_connections is None,
            layer.database_min_connections is None,
            layer.database_connect_timeout is None,
            layer.database_idle_timeout is None,
            layer.database_max_lifetime is None,
            layer.log_type is None,
            layer.log_level is None,
            layer.spacetimedb_domain is None,
            layer.spacetimedb_protocol is None,
            layer.spacetimedb_database is None,
            layer.spacetimedb_databases is None,
            layer.spacetimedb_password is None,
            layer.spacetimedb_username is None,
            layer.spacetimedb_websocket_protocol is None,
            layer.spacetimedb_cleanup is None,
            layer.origins is None,
            layer.live_updates_ws is None,
    {
        ConfigLayer {
            host: None,
            port: None,
            database_url: None,
            database_max_connections: None,
            database_min_connections: None,
            database_connect_timeout: None,
            database_idle_timeout: None,
            database_max_lifetime: None,
            log_type: None,
            log_level: None,
            spacetimedb_domain: None,
            spacetimedb_protocol: None,
            spacetimedb_database: None,
            spacetimedb_databases: None,
            spacetimedb_password: None,
            spacetimedb_username: None,
            spacetimedb_websocket_protocol: None,
            spacetimedb_cleanup: None,
            origins: None,
            live_updates_ws: None,
        }
    }
}

/// The settings file read when the command line names none.
pub open spec fn default_config_path() -> Seq<char> {
    "config/config"@
}

/// The settings file to read: the one named on the command line, else
/// `config/config`.
pub fn config_path(cli_config_parameters: &Option<CliConfigParameters>) -> (path: String)
    ensures
        path@ == (match cli_config_parameters {
            Some(p) => match p.config_path {
                Some(c) => c@,
                None => default_config_path(),
            },
            None => default_config_path(),
        }),
{
    match cli_config_parameters {
        Some(p) => match &p.config_path {
            Some(c) => c.clone(),
            None => String::from_str("config/config"),
        },
        None => String::from_str("config/config"),
    }
}

/// The value the layers give: the environment's, else the command line's, else the
/// settings file's.
pub open spec fn layered<T>(env: Option<T>, cli: Option<T>, file: Option<T>) -> Option<T> {
    if env is Some {
        env
    } else if cli is Some {
        cli
    } else {
        file
    }
}

/// `value` is what the layers give, or `fallback` where none gives one.
pub open spec fn settles<T>(value: T, layers: Option<T>, fallback: T) -> bool {
    match layers {
        Some(v) => value == v,
        None => value == fallback,
    }
}

/// A text setting: what the layers give, or the default text.
pub open spec fn settles_text(value: String, layers: Option<String>, fallback: Seq<char>) -> bool {
    match layers {
        Some(v) => value == v,
        None => value@ == fallback,
    }
}

/// A command line setting, absent where no command line parameters were given.
pub open spec fn from_cli<T>(cli: Option<CliConfigParameters>, pick: spec_fn(CliConfigParameters) -> Option<T>) -> Option<T> {
    match cli {
        Some(p) => pick(p),
        None => None,
    }
}

fn first_of<T>(env: Option<T>, cli: Option<T>, file: Option<T>) -> (value: Option<T>)
    ensures
        value == layered(env, cli, file),
{
    if env.is_some() {
        env
    } else if cli.is_some() {
        cli
    } else {
        file
    }
}

fn or_default<T>(value: Option<T>, fallback: T) -> (settled: T)
    ensures
        settles(settled, value, fallback),
{
    match value {
        Some(v) => v,
        None => fallback,
    }
}

impl Config {
    /// The settings: each one from the environment if it gives it, else from the
    /// command line (host, port, database url, live updates), else from the settings
    /// file, else its default.
    pub fn new(
        cli_config_parameters: Option<CliConfigParameters>,
        file: ConfigLayer,
        env: ConfigLayer,
    ) -> (config: Self)
        ensures
            settles_text(
                config.host,
                layered(env.host, from_cli(cli_config_parameters, |p: CliConfigParameters| p.host), file.host),
                "localhost"@,
            ),
            settles(
                config.port,
                layered(env.port, from_cli(cli_config_parameters, |p: CliConfigParameters| p.port), file.port),
                8080,
            ),
            settles_text(
                config.database.url,
                layered(
                    env.database_url,
                    from_cli(cli_config_parameters, |p: CliConfigParameters| p.database_url),
                    file.database_url,
                ),
                ""@,
            ),
            settles(
                config.database.max_connections,
                layered(env.database_max_connections, None, file.database_max_connections),
                200,
            ),
            settles(
                config.database.min_connections,
                layered(env.database_min_connections, None, file.database_min_connections),
                30,
            ),
            settles(
                config.database.connect_timeout,
                layered(env.database_connect_timeout, None, file.database_connect_timeout),
                10,
            ),
            settles(
                config.database.idle_timeout,
                layered(env.database_idle_timeout, None, file.database_idle_timeout),
                300,
            ),
            config.database.max_lifetime == layered(
                env.database_max_lifetime,
                None,
                file.database_max_lifetime,
            ),
            settles(config.log_type, layered(env.log_type, None, file.log_type), LogType::Default),
            settles(config.log_level, layered(env.log_level, None, file.log_level), LogLevel::Info),
            settles_text(
                config.spacetimedb.domain,
                layered(env.spacetimedb_domain, None, file.spacetimedb_domain),
                "localhost"@,
            ),
            settles_text(
                config.spacetimedb.protocol,
                layered(env.spacetimedb_protocol, None, file.spacetimedb_protocol),
                "https://"@,
            ),
            settles_text(
                config.spacetimedb.database,
                layered(env.spacetimedb_database, None, file.spacetimedb_database),
                ""@,
            ),
            match layered(env.spacetimedb_databases, None, file.spacetimedb_databases) {
                Some(v) => config.spacetimedb.databases == v,
                None => config.spacetimedb.databases@.len() == 0,
            },
            settles_text(
                config.spacetimedb.password,
                layered(env.spacetimedb_password, None, file.spacetimedb_password),
                ""@,
            ),
            settles_text(
                config.spacetimedb.username,
                layered(env.spacetimedb_username, None, file.spacetimedb_username),
                "token"@,
            ),
            settles_text(
                config.spacetimedb.websocket_protocol,
                layered(env.spacetimedb_websocket_protocol, None, file.spacetimedb_websocket_protocol),
                "wss://"@,
            ),
            settles(
                config.spacetimedb.cleanup,
                layered(env.spacetimedb_cleanup, None, file.spacetimedb_cleanup),
                false,
            ),
            match layered(env.origins, None, file.origins) {
                Some(v) => config.origins.origin == v,
                None => config.origins.origin@.len() == 1 && config.origins.origin@[0]@
                    == "http://localhost:3000"@,
            },
            settles(
                config.live_updates_ws,
                layered(
                    env.live_updates_ws,
                    from_cli(cli_config_parameters, |p: CliConfigParameters| p.live_updates_ws),
                    file.live_updates_ws,
                ),
                false,
            ),
    {
        let (cli_host, cli_port, cli_database_url, cli_live_updates_ws) = match cli_config_parameters {
            Some(p) => (p.host, p.port, p.database_url, p.live_updates_ws),
            None => (None, None, None, None),
        };
        let defaults = Config::default();
        let database = DatabaseConfig {
            url: or_default(
                first_of(env.database_url, cli_database_url, file.database_url),
                defaults.database.url,
            ),
            max_connections: or_default(
                first_of(env.database_max_connections, None, file.database_max_connections),
                defaults.database.max_connections,
            ),
            min_connections: or_default(
                first_of(env.database_min_connections, None, file.database_min_connections),
                defaults.database.min_connections,
            ),
            connect_timeout: or_default(
                first_of(env.database_connect_timeout, None, file.database_connect_timeout),
                defaults.database.connect_timeout,
            ),
            idle_timeout: or_default(
                first_of(env.database_idle_timeout, None, file.database_idle_timeout),
                defaults.database.idle_timeout,
            ),
            max_lifetime: first_of(env.database_max_lifetime, None, file.database_max_lifetime),
        };
        let spacetimedb = SpacetimeDbConfig {
            domain: or_default(
                first_of(env.spacetimedb_domain, None, file.spacetimedb_domain),
                defaults.spacetimedb.domain,
            ),
            protocol: or_default(
                first_of(env.spacetimedb_protocol, None, file.spacetimedb_protocol),
                defaults.spacetimedb.protocol,
            ),
            database: or_default(
                first_of(env.spacetimedb_database, None, file.spacetimedb_database),
                defaults.spacetimedb.database,
            ),
            databases: or_default(
                first_of(env.spacetimedb_databases, None, file.spacetimedb_databases),
                defaults.spacetimedb.databases,
            ),
            password: or_default(
                first_of(env.spacetimedb_password, None, file.spacetimedb_password),
                defaults.spacetimedb.password,
            ),
            username: or_default(
                first_of(env.spacetimedb_username, None, file.spacetimedb_username),
                defaults.spacetimedb.username,
            ),
            websocket_protocol: or_default(
                first_of(env.spacetimedb_websocket_protocol, None, file.spacetimedb_websocket_protocol),
                defaults.spacetimedb.websocket_protocol,
            ),
            cleanup: or_default(
                first_of(env.spacetimedb_cleanup, None, file.spacetimedb_cleanup),
                defaults.spacetimedb.cleanup,
            ),
        };
        Config {
            host: or_default(first_of(env.host, cli_host, file.host), defaults.host),
            port: or_default(first_of(env.port, cli_port, file.port), defaults.port),
            database,
            log_type: or_default(first_of(env.log_type, None, file.log_type), defaults.log_type),
            log_level: or_default(first_of(env.log_level, None, file.log_level), defaults.log_level),
            spacetimedb,
            origins: AllowedOriginConfig {
                origin: or_default(first_of(env.origins, None, file.origins), defaults.origins.origin),
            },
            live_updates_ws: or_default(
                first_of(env.live_updates_ws, cli_live_updates_ws, file.live_updates_ws),
                defaults.live_updates_ws,
            ),
        }
    }

    /// The websocket address of the game database: its websocket protocol, its
    /// domain, then `/v1`.
    pub fn weboosocket_url(&self) -> (url: String)
        ensures
            url@ == self.spacetimedb.websocket_protocol@ + self.spacetimedb.domain@ + "/v1"@,
    {
        let mut url = self.spacetimedb.websocket_protocol.clone();
        url.append(self.spacetimedb.domain.as_str());
        url.append("/v1");
        url
    }

    /// The address of the game database: its protocol, then its domain.
    pub fn spacetimedb_url(&self) -> (url: String)
        ensures
            url@ == self.spacetimedb.protocol@ + self.spacetimedb.domain@,
    {
        let mut url = self.spacetimedb.protocol.clone();
        url.append(self.spacetimedb.domain.as_str());
        url
    }
}

} // verus!
