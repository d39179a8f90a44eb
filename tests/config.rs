use qcloud::cli::Cli;
use qcloud::config::{check_config, get_config_path, Config, ConfigError};

fn config(bucket: &str) -> Config {
    Config {
        secrect_key: "foo".to_string(),
        secrect_id: "bar".to_string(),
        bucket_name: bucket.to_string(),
        region: "region".to_string(),
        domain: None,
    }
}

#[test]
fn test_get_config_path() {
    let home = dirs::home_dir().map(|p| p.to_string_lossy().into_owned());
    let path = get_config_path(None, None, home.clone());
    println!("{:?}", path);
    assert_eq!(path.is_some(), home.is_some());
    if let Some(p) = path {
        assert!(p.ends_with(".config/qcloud.toml"));
    }
}

#[test]
fn config_path_prefers_explicit_then_environment() {
    let e = Some("/etc/q.toml".to_string());
    let h = Some("/home/u".to_string());
    assert_eq!(get_config_path(Some("c.toml".to_string()), e.clone(), h.clone()), Some("c.toml".to_string()));
    assert_eq!(get_config_path(None, e, h.clone()), Some("/etc/q.toml".to_string()));
    assert_eq!(get_config_path(None, None, h), Some("/home/u/.config/qcloud.toml".to_string()));
    assert_eq!(get_config_path(None, None, Some("/home/u/".to_string())), Some("/home/u/.config/qcloud.toml".to_string()));
    assert_eq!(get_config_path(None, None, None), None);
}

#[test]
fn cli_config_path_uses_flag() {
    let cli = Cli { command: None, config: Some("my.toml".to_string()), completion: None };
    assert_eq!(cli.config_path(None, Some("/h".to_string())), Some("my.toml".to_string()));
    let cli = Cli { command: None, config: None, completion: None };
    assert_eq!(cli.config_path(None, Some("/h".to_string())), Some("/h/.config/qcloud.toml".to_string()));
}

#[test]
fn empty_bucket_name_is_refused() {
    assert_eq!(check_config(&config("")), Err(ConfigError::EmptyBucket));
    assert_eq!(check_config(&config("bucket_name")), Ok(()));
}

#[test]
fn bare_command_line_asks_for_help() {
    let cli = Cli { command: None, config: None, completion: None };
    assert!(cli.wants_help());
    let cli = Cli { command: None, config: None, completion: Some("bash".to_string()) };
    assert!(!cli.wants_help());
}
