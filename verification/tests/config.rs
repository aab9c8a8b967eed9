use fish_session::config::{
    asks_for_config, config_path, run_config_command, AppConfig, ConfigFile, KeyConfig,
    ZoxideConfig,
};

fn words(words: &[&str]) -> Vec<String> {
    words.iter().map(|word| word.to_string()).collect()
}

fn keys(open: &str, detach: &str) -> AppConfig {
    AppConfig {
        zoxide: ZoxideConfig::default(),
        keys: KeyConfig { open: open.to_string(), detach: detach.to_string() },
    }
}

#[test]
fn defaults_are_as_documented() {
    let config = AppConfig::default();
    assert!(config.zoxide.enabled);
    assert!(!config.zoxide.auto_open);
    assert_eq!(config.zoxide.limit, 30);
    assert_eq!(config.open_key_binding(), "ctrl-g");
    assert_eq!(config.detach_key_binding(), "ctrl-]");
}

#[test]
fn bindings_are_normalized() {
    let config = keys("  Ctrl-K ", "CTRL-]");
    assert_eq!(config.open_key_binding(), "Ctrl-K");
    assert_eq!(config.detach_key_binding(), "ctrl-]");
    let config = keys("ctrl-", "meta-x");
    assert_eq!(config.open_key_binding(), "ctrl-g");
    assert_eq!(config.detach_key_binding(), "ctrl-]");
}

#[test]
fn the_file_is_looked_for_in_two_places() {
    assert_eq!(
        config_path(Some("/cfg".to_string()), Some("/home/u".to_string())).as_deref(),
        Some("/cfg/fish-session/config.json")
    );
    assert_eq!(
        config_path(None, Some("/home/u".to_string())).as_deref(),
        Some("/home/u/.config/fish-session/config.json")
    );
    assert_eq!(config_path(None, None), None);
}

#[test]
fn what_came_of_the_file_decides() {
    assert_eq!(AppConfig::load("/c", ConfigFile::Missing).unwrap().zoxide.limit, 30);
    assert_eq!(
        AppConfig::load("/c", ConfigFile::Unreadable).unwrap_err(),
        "failed to read config /c"
    );
    assert_eq!(
        AppConfig::load("/c", ConfigFile::Malformed).unwrap_err(),
        "failed to parse config /c"
    );
    let mut config = AppConfig::default();
    config.zoxide.limit = 5;
    assert_eq!(AppConfig::load("/c", ConfigFile::Parsed(config)).unwrap().zoxide.limit, 5);
}

#[test]
fn the_config_command_prints_bindings() {
    assert!(asks_for_config(&words(&["fish-session", "config"])));
    assert!(!asks_for_config(&words(&["fish-session"])));
    assert!(!asks_for_config(&words(&["fish-session", "other"])));
    let config = keys("ctrl-p", "ctrl-q");
    assert_eq!(run_config_command(&words(&["key", "open"]), &config).unwrap(), "ctrl-p");
    assert_eq!(run_config_command(&words(&["key", "detach"]), &config).unwrap(), "ctrl-q");
    for args in [&["key"][..], &["key", "other"], &["keys", "open"], &["key", "open", "x"], &[]] {
        assert_eq!(
            run_config_command(&words(args), &config).unwrap_err(),
            "usage: fish-session config key <open|detach>"
        );
    }
}
