use atv_iptv_proxy::auth::hash_secret;
use atv_iptv_proxy::config::{
    ChannelNumberOverride, ChannelNumberOverrides, PairingConfig, ProxyConfig,
};

#[test]
fn startup_rejects_unset_admin_password() {
    for hash in [
        "",
        "sha256:replace-with-hash-from-admin-tool",
        "sha256:not-hex",
        &hash_secret("admin"),
    ] {
        let config = ProxyConfig {
            admin_password_hash: hash.to_string(),
            ..ProxyConfig::default()
        };
        assert!(config.validate_startup().is_err());
    }
}

#[test]
fn startup_accepts_configured_admin_password() {
    let config = ProxyConfig {
        admin_password_hash: hash_secret("configured-password"),
        ..ProxyConfig::default()
    };
    assert!(config.validate_startup().is_ok());
}

#[test]
fn startup_errors_name_the_problem() {
    let check = |hash: &str| {
        ProxyConfig {
            admin_password_hash: hash.to_string(),
            ..ProxyConfig::default()
        }
        .validate_startup()
        .unwrap_err()
    };
    assert_eq!("admin_password_hash must start with sha256:", check("md5:abc"));
    assert_eq!(
        "admin_password_hash is still the example placeholder",
        check("sha256:replace-me")
    );
    assert_eq!(
        "admin_password_hash must not use the default password 'admin'",
        check(&hash_secret("admin"))
    );
    assert_eq!(
        "admin_password_hash must be sha256: followed by 64 hex characters",
        check("sha256:abcd")
    );
}

#[test]
fn defaults_match_the_documented_values() {
    let config = ProxyConfig::default();
    assert_eq!("127.0.0.1:8088", config.listen);
    assert_eq!(3600, config.channel_cache_ttl_seconds);
    assert_eq!(300, config.epg_cache_ttl_seconds);
    assert_eq!(hash_secret("admin"), config.admin_password_hash);
    let pairing = PairingConfig::default();
    assert_eq!(300, pairing.session_ttl_seconds);
    assert_eq!(2, pairing.poll_interval_seconds);
    assert!(!pairing.create_rate_limit.enabled);
    assert_eq!(60, pairing.create_rate_limit.window_seconds);
    assert_eq!(10, pairing.create_rate_limit.max_requests);
}

#[test]
fn override_lookup_finds_the_number_for_a_channel_code() {
    let mut overrides = ChannelNumberOverrides::new();
    overrides.insert(
        "ch1".to_string(),
        ChannelNumberOverride { name: Some("News".into()), number: 5 },
    );
    overrides.insert("ch2".to_string(), ChannelNumberOverride { name: None, number: 9 });
    assert_eq!(Some(5), overrides.number_for("ch1"));
    assert_eq!(Some(9), overrides.number_for("ch2"));
    assert_eq!(None, overrides.number_for("ch3"));
    assert_eq!(Some("News".to_string()), overrides.get("ch1").and_then(|o| o.name));
}

#[test]
fn a_later_override_for_a_code_replaces_the_earlier_one() {
    let mut overrides = ChannelNumberOverrides::new();
    overrides.insert("ch1".to_string(), ChannelNumberOverride { name: None, number: 5 });
    overrides.insert("ch2".to_string(), ChannelNumberOverride { name: None, number: 6 });
    overrides.insert(
        "ch1".to_string(),
        ChannelNumberOverride { name: Some("Sport".into()), number: 7 },
    );
    assert_eq!(Some(7), overrides.number_for("ch1"));
    assert_eq!(Some(6), overrides.number_for("ch2"));
    assert_eq!(
        Some(ChannelNumberOverride { name: Some("Sport".into()), number: 7 }),
        overrides.get("ch1")
    );
}

#[test]
fn pairing_config_defaults_keep_rate_limit_disabled() {
    let config = ProxyConfig::default();
    assert_eq!(300, config.pairing.session_ttl_seconds);
    assert_eq!(2, config.pairing.poll_interval_seconds);
    assert!(!config.pairing.create_rate_limit.enabled);
    assert_eq!(60, config.pairing.create_rate_limit.window_seconds);
    assert_eq!(10, config.pairing.create_rate_limit.max_requests);
    let pairing = PairingConfig::default();
    assert_eq!(config.pairing, pairing);
}
