# rgrab

A lightweight backend for logs and distributed traces, with a terminal client.
The library in `src/` holds the logic, specified with `requires`/`ensures` and
proved with Verus; `app/` holds the programs around it (HTTP server, RocksDB,
Docker daemon, terminal), which only move data between the outside world and
the library.

## Library modules

| Module | What it decides |
|--------|-----------------|
| `labels` | label sets: a finite map from names to values |
| `log`, `span`, `json` | log entries, spans, the parts of JSON values that are read |
| `text` | characters, trimming, decimal numbers, string order |
| `label_selector` | parsing `{name="value", ...}` selectors |
| `loki` | label matchers and the Loki request and response types |
| `loki_api` | turning pushes into entries, planning queries, grouping answers into streams |
| `otlp` | converting OpenTelemetry spans into spans |
| `log_parser` | guessing the level of a free-text line |
| `docker` | which containers to follow, their labels, and how an output line becomes an entry |
| `storage` | store keys and their order, filtered scans, sorted label sets |
| `store` | an in-memory store |
| `server_config`, `tui_config` | settings: command line, then file, then defaults |
| `web_api` | which query answers a trace request |
| `tui_app`, `tui_input`, `tui_view` | the terminal client's state, keys and screen contents |

## Programs

`app/main.rs` runs the server, or the terminal client when started as
`rgrab-tui`.
