# bitcraft_hub

The core of the BitCraft hub API server, written in Verus: every function in `src/`
carries a contract that Verus proves.

- `src/` — the verified library: leaderboards with bucketed rank counting, skill
  levels, the ranked lists the hub shows, catalogue listings and filters, market
  order statistics, claim summaries and the claim membership cache, inventories,
  the live-update subscription registry, the batching state of the game-state
  import workers, and the server settings.
  Calls into `dashmap` and into std functions that vstd gives no specification
  are made through small trusted wrappers, each documented where it is declared.
- `tests/` — tests on concrete values, run against the compiled library.
- `app/` — what cannot be verified: command-line parsing (`clap`), loading the
  settings file and environment (`config`, `dotenvy`), printing the settings
  (`serde_json`, `toml`, `serde_yml`), serialising live messages, client ids
  (`nanoid`) and the leaderboard worker thread (`crossbeam-channel`).
