use atv_iptv_proxy::pairing::{CreatePairingRequest, Entropy, PairingStore};

fn request() -> CreatePairingRequest {
    CreatePairingRequest {
        device_name: Some("Living Room ATV".into()),
        device_type: Some("android_tv".into()),
        app_id: Some("com.example.atv".into()),
        app_version: Some("1.0".into()),
        client_nonce: "nonce".into(),
    }
}

fn entropy() -> Entropy {
    Entropy::new((0u8..64).map(|b| b.wrapping_mul(37).wrapping_add(11)).collect())
}

#[test]
fn creates_and_lists_pending_session_with_code() {
    let mut store = PairingStore::default();
    let created = store.create(request(), 100, &mut entropy()).unwrap();

    let pending = store.pending_sessions(100);
    assert_eq!(1, pending.data.len());
    assert_eq!(created.pairing_code, pending.data[0].pairing_code);
    assert_eq!("Living Room ATV", pending.data[0].device_name);
    assert_eq!(400, created.expires_at);
}

#[test]
fn approve_by_code_returns_token_on_poll() {
    let mut store = PairingStore::default();
    let created = store.create(request(), 100, &mut entropy()).unwrap();
    let candidate = store
        .approval_candidate(&created.pairing_code, Some("Den TV"), 101)
        .unwrap();
    assert_eq!("Den TV", candidate.token_name);

    store
        .approve(&candidate.session_id, "token".into())
        .unwrap();
    let polled = store.poll(&created.session_id, "nonce", 102).unwrap();
    assert_eq!("approved", polled.status);
    assert_eq!(Some("token".to_string()), polled.access_token);
}

#[test]
fn rejects_invalid_nonce() {
    let mut store = PairingStore::default();
    let created = store.create(request(), 100, &mut entropy()).unwrap();
    let err = store.poll(&created.session_id, "wrong", 101).unwrap_err();
    assert_eq!(401, err.status);
}

#[test]
fn expired_sessions_are_not_listed() {
    let mut store = PairingStore::default();
    store.create(request(), 100, &mut entropy()).unwrap();
    assert!(store.pending_sessions(401).data.is_empty());
}

#[test]
fn rejected_session_is_reported_to_its_client() {
    let mut store = PairingStore::default();
    let created = store.create(request(), 100, &mut entropy()).unwrap();
    store.reject(&created.pairing_code, 101).unwrap();
    let polled = store.poll(&created.session_id, "nonce", 102).unwrap();
    assert_eq!("rejected", polled.status);
    assert_eq!(None, polled.access_token);
    assert_eq!(404, store.reject("000000", 103).map(|_| 0).unwrap_or_else(|e| e.status));
}

#[test]
fn pairing_code_is_six_digits_and_blank_nonce_is_refused() {
    let mut store = PairingStore::default();
    let created = store.create(request(), 100, &mut entropy()).unwrap();
    assert_eq!(6, created.pairing_code.len());
    assert!(created.pairing_code.chars().all(|c| c.is_ascii_digit()));
    assert!(created.session_id.starts_with("ps_"));
    assert_eq!(35, created.session_id.len());
    let mut blank = request();
    blank.client_nonce = "  ".into();
    let err = store.create(blank, 100, &mut entropy()).unwrap_err();
    assert_eq!(400, err.status);
    assert_eq!("missing_client_nonce", err.code);
}

#[test]
fn without_random_bytes_no_session_is_created() {
    let mut store = PairingStore::default();
    let err = store.create(request(), 100, &mut Entropy::new(Vec::new())).unwrap_err();
    assert_eq!(500, err.status);
    assert_eq!("random_unavailable", err.code);
}

#[test]
fn approval_by_code_names_the_pending_session_not_an_older_rejected_one() {
    let mut store = PairingStore::default();
    let code_bytes = [0u8, 1, 2, 3];
    let first_bytes: Vec<u8> = (0u8..16).chain(code_bytes).collect();
    let second_bytes: Vec<u8> = (100u8..116).chain(code_bytes).collect();
    let first = store
        .create(request(), 100, &mut Entropy::new(first_bytes))
        .unwrap();
    store.reject(&first.pairing_code, 101).unwrap();
    let second = store
        .create(request(), 102, &mut Entropy::new(second_bytes))
        .unwrap();
    assert_eq!(first.pairing_code, second.pairing_code);
    assert_ne!(first.session_id, second.session_id);

    let candidate = store
        .approval_candidate(&second.pairing_code, None, 103)
        .unwrap();
    assert_eq!(second.session_id, candidate.session_id);

    store.reject(&second.pairing_code, 104).unwrap();
    assert_eq!("rejected", store.poll(&second.session_id, "nonce", 105).unwrap().status);
    let err = store
        .approval_candidate(&second.pairing_code, None, 106)
        .unwrap_err();
    assert_eq!(409, err.status);
    assert_eq!("pairing_not_pending", err.code);
}
