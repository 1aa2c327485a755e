use rgrab::server_config::{Config, ConfigLayer};
use rgrab::tui_config::{DEFAULT_CONFIG_CONTENT, config_dir, config_path, load};

fn layer(d: Option<&str>, l: Option<&str>, g: Option<&str>) -> ConfigLayer {
    ConfigLayer {
        data_dir: d.map(|s| s.to_string()),
        listen: l.map(|s| s.to_string()),
        log_level: g.map(|s| s.to_string()),
    }
}

#[test]
fn server_settings_default_when_absent() {
    let c = Config::load(layer(None, None, None), layer(None, None, None));
    assert_eq!(c.data_dir, "./data/rgrab");
    assert_eq!(c.listen, "0.0.0.0:3000");
    assert_eq!(c.log_level, "info");
}

#[test]
fn command_line_overrides_file_overrides_default() {
    let c = Config::load(layer(Some("/cli"), None, None), layer(Some("/file"), Some("127.0.0.1:9"), None));
    assert_eq!(c.data_dir, "/cli");
    assert_eq!(c.listen, "127.0.0.1:9");
    assert_eq!(c.log_level, "info");
}

#[test]
fn client_server_comes_from_cli_then_file_then_default() {
    assert_eq!(load(Some("http://a".to_string()), Some("http://b".to_string())).server, "http://a");
    assert_eq!(load(None, Some("http://b".to_string())).server, "http://b");
    assert_eq!(load(None, None).server, "http://localhost:3000");
}

#[test]
fn config_file_lives_under_the_home_directory() {
    assert_eq!(config_dir(Some("/home/u".to_string())).as_deref(), Some("/home/u/.rgrab"));
    assert_eq!(config_path(Some("/home/u".to_string())).as_deref(), Some("/home/u/.rgrab/config.toml"));
    assert_eq!(config_path(Some("/".to_string())).as_deref(), Some("/.rgrab/config.toml"));
    assert_eq!(config_path(Some("".to_string())).as_deref(), Some(".rgrab/config.toml"));
    assert_eq!(config_path(None), None);
}

#[test]
fn default_config_names_the_default_server() {
    assert!(DEFAULT_CONFIG_CONTENT.contains("server = \"http://localhost:3000\""));
}
