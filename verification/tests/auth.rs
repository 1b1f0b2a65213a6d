use atv_iptv_proxy::auth::{
    find_valid_token, find_valid_token_at, generate_token, generate_token_id, hash_secret,
    load_token_ids, normalize_token_ids, verify_secret, ClientToken,
};

#[test]
fn verifies_hash() {
    let hash = hash_secret("secret");
    assert!(verify_secret("secret", &hash));
    assert!(!verify_secret("wrong", &hash));
}

#[test]
fn valid_token_updates_last_seen() {
    let raw = "token";
    let mut tokens = vec![ClientToken {
        id: "token-id".into(),
        name: "tv".into(),
        hash: hash_secret(raw),
        created_at: 1,
        last_seen_at: None,
        enabled: true,
    }];
    assert_eq!("tv", find_valid_token(&mut tokens, raw).unwrap().name);
    assert!(tokens[0].last_seen_at.is_some());
}

#[test]
fn normalizes_missing_and_duplicate_token_ids() {
    let hash = hash_secret("token");
    let mut tokens = vec![
        ClientToken {
            id: String::new(),
            name: "tv-a".into(),
            hash: hash.clone(),
            created_at: 1,
            last_seen_at: None,
            enabled: true,
        },
        ClientToken {
            id: String::new(),
            name: "tv-b".into(),
            hash,
            created_at: 2,
            last_seen_at: None,
            enabled: true,
        },
    ];

    normalize_token_ids(&mut tokens);

    assert!(tokens[0].id.starts_with("legacy_"));
    assert!(tokens[1].id.starts_with("legacy_"));
    assert_ne!(tokens[0].id, tokens[1].id);
}

#[test]
fn hash_secret_is_the_sha256_hex_of_the_secret() {
    assert_eq!(
        "sha256:2bb80d537b1da3e38bd30361aa855686bde0eacd7162fef6a25fe97bf527a25b",
        hash_secret("secret")
    );
}

#[test]
fn duplicate_ids_get_numbered_suffixes() {
    let token = |id: &str| ClientToken {
        id: id.into(),
        name: "n".into(),
        hash: "h".into(),
        created_at: 0,
        last_seen_at: None,
        enabled: true,
    };
    let mut tokens = vec![token("a"), token("a"), token("a_2"), token("a")];
    normalize_token_ids(&mut tokens);
    let ids: Vec<&str> = tokens.iter().map(|t| t.id.as_str()).collect();
    assert_eq!(vec!["a", "a_2", "a_2_2", "a_3"], ids);
}

#[test]
fn disabled_tokens_do_not_match_and_first_enabled_match_wins() {
    let hash = hash_secret("raw");
    let token = |name: &str, enabled: bool| ClientToken {
        id: String::new(),
        name: name.into(),
        hash: hash.clone(),
        created_at: 0,
        last_seen_at: None,
        enabled,
    };
    let mut tokens = vec![token("off", false), token("first", true), token("second", true)];
    assert_eq!(Some(1), find_valid_token_at(&mut tokens, "raw", 42));
    assert_eq!(Some(42), tokens[1].last_seen_at);
    assert_eq!(None, tokens[2].last_seen_at);
    assert_eq!(None, find_valid_token_at(&mut tokens, "other", 43));
}

#[test]
fn generated_tokens_carry_sanitised_name_and_hex() {
    let bytes = [0xabu8; 32];
    let raw = generate_token("Den TV!", &bytes);
    assert_eq!(format!("atv_dentv_{}", "ab".repeat(32)), raw);
    let id = generate_token_id(&[1u8; 16]);
    assert_eq!(format!("tok_{}", "01".repeat(16)), id);
}

#[test]
fn normalizing_again_keeps_every_id() {
    let hash = hash_secret("token");
    let make = |id: &str, name: &str| ClientToken {
        id: id.into(),
        name: name.into(),
        hash: hash.clone(),
        created_at: 1,
        last_seen_at: None,
        enabled: true,
    };
    let mut tokens = vec![make("", "a"), make("tok_1", "b"), make("tok_1", "c"), make("  ", "d")];
    normalize_token_ids(&mut tokens);
    let once: Vec<String> = tokens.iter().map(|t| t.id.clone()).collect();
    assert_eq!("tok_1", once[1]);
    assert_eq!("tok_1_2", once[2]);
    assert!(once[0].starts_with("legacy_"));
    assert_eq!(format!("{}_2", once[0]), once[3]);
    normalize_token_ids(&mut tokens);
    let twice: Vec<String> = tokens.iter().map(|t| t.id.clone()).collect();
    assert_eq!(once, twice);
}

#[test]
fn load_backfills_missing_token_ids() {
    let mut tokens = vec![ClientToken {
        id: String::new(),
        name: "living-room".into(),
        hash: hash_secret("raw-token"),
        created_at: 1,
        last_seen_at: None,
        enabled: true,
    }];
    load_token_ids(&mut tokens);
    assert_eq!(1, tokens.len());
    assert!(tokens[0].id.starts_with("tok_"));
}

#[test]
fn loaded_ids_are_stable_and_kept_when_present() {
    let make = |id: &str, raw: &str| ClientToken {
        id: id.into(),
        name: "tv".into(),
        hash: hash_secret(raw),
        created_at: 1,
        last_seen_at: None,
        enabled: true,
    };
    let mut first = vec![make("", "a"), make("tok_kept", "b"), make(" ", "a")];
    let mut again = vec![make("", "a"), make("tok_kept", "b"), make(" ", "a")];
    load_token_ids(&mut first);
    load_token_ids(&mut again);
    assert_eq!(36, first[0].id.len());
    assert_eq!("tok_kept", first[1].id);
    assert_eq!(format!("{}_2", first[0].id), first[2].id);
    let ids: Vec<String> = first.iter().map(|t| t.id.clone()).collect();
    let ids_again: Vec<String> = again.iter().map(|t| t.id.clone()).collect();
    assert_eq!(ids, ids_again);
}
