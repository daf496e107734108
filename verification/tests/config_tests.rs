use openmem::config::{
    config_file_path, config_vault_value, config_with_home, default_vault_path, default_vault_path_in, parse_config,
    vault_override, vault_setting, Config, VaultChoice, VaultSetting,
};
use std::path::PathBuf;

// ==========================================
// parse_config tests
// ==========================================

#[test]
fn parse_config_with_vault_path() {
    let content = r#"vault = "/custom/vault/path""#;
    let config = parse_config(content).unwrap();
    assert_eq!(PathBuf::from(config.vault), PathBuf::from("/custom/vault/path"));
}

#[test]
fn parse_config_with_tilde_expansion() {
    let content = r#"vault = "~/my-vault""#;
    let config = parse_config(content).unwrap();
    if let Some(home) = dirs::home_dir() {
        assert_eq!(PathBuf::from(config.vault), home.join("my-vault"));
    }
}

#[test]
fn parse_config_with_comments_and_whitespace() {
    let content = "\
# This is a config file
  
vault = \"/custom/path\"

# Another comment
";
    let config = parse_config(content).unwrap();
    assert_eq!(PathBuf::from(config.vault), PathBuf::from("/custom/path"));
}

#[test]
fn parse_config_empty_returns_default() {
    let content = "";
    let config = parse_config(content).unwrap();
    assert_eq!(PathBuf::from(config.vault), PathBuf::from(default_vault_path()));
}

#[test]
fn parse_config_no_vault_key_returns_default() {
    let content = "other_key = \"value\"";
    let config = parse_config(content).unwrap();
    assert_eq!(PathBuf::from(config.vault), PathBuf::from(default_vault_path()));
}

#[test]
fn default_config_uses_home_dir() {
    let config = Config::default();
    if let Some(home) = dirs::home_dir() {
        assert_eq!(PathBuf::from(config.vault), home.join(".openmem").join("vault"));
    }
}

// ==========================================
// vault_root resolution tests
// ==========================================

#[test]
fn vault_root_cli_flag_overrides_everything() {
    let flag = PathBuf::from("/cli/vault");
    let result = vault_override(Some(flag), Some("/env/vault".to_string()));
    assert!(matches!(result, VaultChoice::Flag(p) if p == PathBuf::from("/cli/vault")));
}

#[test]
fn vault_root_env_before_config() {
    assert!(matches!(vault_override(None, Some("/env/vault".to_string())), VaultChoice::Env(v) if v == "/env/vault"));
    assert!(matches!(vault_override(None, None), VaultChoice::Config));
}

#[test]
fn config_value_reading() {
    assert_eq!(config_vault_value("vault='/a'"), Some("/a".to_string()));
    assert_eq!(config_vault_value("  vault   =   \"\"/b\"\"  "), Some("/b".to_string()));
    assert_eq!(config_vault_value("#vault = \"/x\"\nvault = \"/y\""), Some("/y".to_string()));
    assert_eq!(config_vault_value("vault = \"\"\nvault = \"/z\""), Some("/z".to_string()));
    assert_eq!(config_vault_value("vaults = \"/no\""), None);
    assert_eq!(config_vault_value("vault \"/no\""), None);
    assert_eq!(config_vault_value("vault = \"/first\"\nvault = \"/second\""), Some("/first".to_string()));
}

#[test]
fn vault_setting_kinds() {
    assert!(matches!(vault_setting(""), VaultSetting::Default));
    assert!(matches!(vault_setting("vault = \"~/v\""), VaultSetting::UnderHome(r) if r == "v"));
    assert!(matches!(vault_setting("vault = \"/v\""), VaultSetting::Given(p) if p == "/v"));
    assert!(matches!(vault_setting("vault = \"~\""), VaultSetting::Home));
    assert!(matches!(vault_setting("vault = \"~x\""), VaultSetting::Given(p) if p == "~x"));
}

#[test]
fn parse_config_bare_tilde_is_home() {
    let config = parse_config(r#"vault = "~""#).unwrap();
    if let Some(home) = dirs::home_dir() {
        assert_eq!(PathBuf::from(config.vault), home);
    }
}

#[test]
fn config_with_given_home() {
    let home = Some("/home/u".to_string());
    assert_eq!(PathBuf::from(config_with_home(r#"vault = "~""#, &home).vault), PathBuf::from("/home/u"));
    assert_eq!(PathBuf::from(config_with_home(r#"vault = "~/v""#, &home).vault), PathBuf::from("/home/u/v"));
    assert_eq!(PathBuf::from(config_with_home(r#"vault = "/abs""#, &home).vault), PathBuf::from("/abs"));
    assert_eq!(PathBuf::from(config_with_home("", &home).vault), PathBuf::from("/home/u/.openmem/vault"));
}

#[test]
fn config_without_home() {
    assert_eq!(config_with_home(r#"vault = "~""#, &None).vault, "~");
    assert_eq!(config_with_home(r#"vault = "~/v""#, &None).vault, "~/v");
    assert_eq!(PathBuf::from(config_with_home("", &None).vault), PathBuf::from("./.openmem/vault"));
    assert_eq!(PathBuf::from(default_vault_path_in(&None)), PathBuf::from("./.openmem/vault"));
}

#[test]
fn config_file_under_openmem_dir() {
    if let Some(home) = dirs::home_dir() {
        assert_eq!(PathBuf::from(config_file_path()), home.join(".openmem").join("config.toml"));
        assert_eq!(PathBuf::from(Config::default().vault), home.join(".openmem").join("vault"));
    }
}
