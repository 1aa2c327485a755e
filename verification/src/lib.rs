//! rgrab: the verified core of a lightweight log and trace backend.
pub mod docker;
pub mod json;
pub mod label_selector;
pub mod labels;
pub mod log;
pub mod log_parser;
pub mod loki;
pub mod loki_api;
pub mod otlp;
pub mod span;
pub mod storage;
pub mod store;
pub mod text;
pub mod server_config;
pub mod tui_config;
pub mod tui_app;
pub mod tui_input;
pub mod tui_view;
pub mod web_api;
