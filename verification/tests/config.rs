use rustclaw::config::{
    config_path, home_dir, Backend, Config, ConfigError, ModelConfig, TelegramConfig,
};

#[test]
fn absent_api_key_env_means_no_auth() {
    let cfg = ModelConfig::default();
    assert!(cfg.api_key_env.is_empty());
    assert!(cfg.api_key(None).is_none());
    assert!(cfg.api_key(Some("k".into())).is_none());
}

#[test]
fn an_empty_key_counts_as_none() {
    let cfg = ModelConfig { api_key_env: "KEY".into(), ..Default::default() };
    assert_eq!(cfg.api_key(Some("k".into())), Some("k".to_string()));
    assert_eq!(cfg.api_key(Some("".into())), None);
    assert_eq!(cfg.api_key(None), None);
    let t = TelegramConfig::default();
    assert_eq!(t.token(Some("".into())), None);
    assert_eq!(t.token(Some("t".into())), Some("t".to_string()));
}

#[test]
fn the_defaults_need_no_network() {
    let cfg = Config::default();
    assert_eq!(cfg.model.backend, Backend::OpenaiCompat);
    assert_eq!(cfg.model.base_url, "http://127.0.0.1:11434/v1");
    assert_eq!(cfg.model.model, "qwen2.5:3b");
    assert_eq!(cfg.model.max_tokens, 4096);
    assert_eq!(cfg.model.context_window, 32_768);
    assert_eq!(cfg.model.temperature, None);
    assert_eq!(cfg.agent.max_iterations, 50);
    assert_eq!(cfg.agent.exec_timeout_secs, 120);
    assert_eq!(cfg.agent.max_tool_output_bytes, 32_768);
    assert_eq!(cfg.server.bind, "0.0.0.0");
    assert_eq!(cfg.server.port, 8080);
    assert_eq!(cfg.telegram.token_env, "TELEGRAM_BOT_TOKEN");
    assert!(cfg.telegram.allowed_chat_ids.is_empty());
    assert_eq!(cfg.telegram.poll_timeout_secs, 50);
}

#[test]
fn the_environment_wins_over_what_was_there() {
    let mut cfg = Config::default();
    cfg.apply_env(Some("http://h/v1".into()), Some("m".into()), Some("9000".into()));
    assert_eq!(cfg.model.base_url, "http://h/v1");
    assert_eq!(cfg.model.model, "m");
    assert_eq!(cfg.server.port, 9000);

    let before = cfg.clone();
    cfg.apply_env(None, None, None);
    assert_eq!(cfg, before);
}

#[test]
fn a_port_that_is_no_port_is_passed_over() {
    for bad in ["", "x", "65536", "-1", " 80", "8 0"] {
        let mut cfg = Config::default();
        cfg.apply_env(None, None, Some(bad.to_string()));
        assert_eq!(cfg.server.port, 8080, "{bad:?}");
    }
    for (good, port) in [("0", 0), ("65535", 65535), ("+80", 80), ("0080", 80)] {
        let mut cfg = Config::default();
        cfg.apply_env(None, None, Some(good.to_string()));
        assert_eq!(cfg.server.port, port, "{good:?}");
    }
}

#[test]
fn the_home_directory_follows_the_environment() {
    assert_eq!(home_dir(Some("/x".into()), Some("/h".into())), Ok("/x".to_string()));
    assert_eq!(home_dir(None, Some("/h".into())), Ok("/h/.rustclaw".to_string()));
    assert_eq!(home_dir(None, None), Err(ConfigError::HomeNotSet));
    assert_eq!(ConfigError::HomeNotSet.message(), "HOME is not set");
    assert_eq!(config_path(None, Some("/h".into())), Ok("/h/.rustclaw/config.toml".to_string()));
    assert_eq!(config_path(None, None), Err(ConfigError::HomeNotSet));
}
