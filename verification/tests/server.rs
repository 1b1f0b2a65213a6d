use atv_iptv_proxy::auth::{hash_secret, ClientToken};
use atv_iptv_proxy::cache::{Channel, EpgCacheKey, Program};
use atv_iptv_proxy::config::{ProviderConfig, ProxyConfig};
use atv_iptv_proxy::pairing::{
    ApprovePairingRequest, CreatePairingRequest, Entropy, RejectPairingRequest,
};
use atv_iptv_proxy::portal::LoginSession;
use atv_iptv_proxy::server::admin::{saved_response, token_created_response, tokens_deleted_response};
use atv_iptv_proxy::server::api::{
    ensure_unique_channel_numbers, sort_channels_by_number, ChannelsStart, EpgStart,
};
use atv_iptv_proxy::server::http::{
    is_decodable, is_form_decodable, is_request_decodable, json_error, parse_form, percent_decode,
    response_status, Request,
};
use atv_iptv_proxy::server::policies::{check_pairing_create, PolicyDecision, RequestContext};
use atv_iptv_proxy::server::state::{health, route, AfterFetch, AppState, FetchAttempt, Route};
use atv_iptv_proxy::server::{parse_args, usage};

fn state(config: ProxyConfig) -> AppState {
    AppState::new(String::new(), None, config)
}

fn token(name: &str, raw: &str) -> ClientToken {
    ClientToken {
        id: String::new(),
        name: name.into(),
        hash: hash_secret(raw),
        created_at: 1,
        last_seen_at: None,
        enabled: true,
    }
}

fn args(items: &[&str]) -> Vec<String> {
    items.iter().map(|s| s.to_string()).collect()
}

fn provider(user: &str) -> ProviderConfig {
    ProviderConfig {
        user_id: user.into(),
        password: "pw".into(),
        stb_id: "stb".into(),
        local_ip: "192.0.2.1".into(),
        local_mac: "00:11:22:33:44:55".into(),
        auth_server_url: "http://auth".into(),
    }
}

fn session(j: &str) -> LoginSession {
    LoginSession {
        epg_lb_base: "http://epg/iptvepg/function/".into(),
        jsession_id: j.into(),
        user_token: "UT1".into(),
        user_id: "u1".into(),
    }
}

fn channel(number: u32, name: &str, code: &str) -> Channel {
    Channel {
        number,
        name: name.into(),
        stream_url: format!("http://{code}"),
        channel_code: Some(code.into()),
    }
}

#[test]
fn health_is_public() {
    assert_eq!(Route::Health, route("GET", "/health"));
    assert!(health().contains("200 OK"));
}

#[test]
fn parses_startup_paths() {
    let args = parse_args(args(&[
        "--config",
        "/etc/atv-iptv-proxy/config.json",
        "--channel-number-overrides=/etc/atv-iptv-proxy/channel-number-overrides.json",
    ]))
    .unwrap();

    assert_eq!("/etc/atv-iptv-proxy/config.json", args.config_path);
    assert_eq!(
        Some("/etc/atv-iptv-proxy/channel-number-overrides.json".to_string()),
        args.channel_number_overrides_path
    );
}

#[test]
fn startup_config_path_is_required() {
    let err = parse_args(Vec::new()).unwrap_err();
    assert!(err.contains("--config is required"));
}

#[test]
fn command_line_errors_are_specific() {
    assert_eq!(Err("--config requires a path".to_string()), parse_args(args(&["--config"])));
    assert_eq!(Err(usage()), parse_args(args(&["-h"])));
    assert_eq!(
        Err(format!("unknown argument: --port\n{}", usage())),
        parse_args(args(&["--port", "1"]))
    );
    let later = parse_args(args(&["--config=a", "--config", "b"])).unwrap();
    assert_eq!("b", later.config_path);
    assert_eq!(None, later.channel_number_overrides_path);
}

#[test]
fn channels_requires_token() {
    let mut state = state(ProxyConfig::default());
    let request = Request::parse("GET /api/v1/channels HTTP/1.1\r\n\r\n").unwrap();
    assert_eq!(Route::Channels, route(&request.method, &request.path));
    let client = state.authorized_client_name(&request, 10);
    match state.channels_start(&client, 10) {
        ChannelsStart::Respond(resp) => assert!(resp.contains("401 Unauthorized")),
        other => panic!("unexpected {other:?}"),
    }
}

#[test]
fn epg_requires_token() {
    let mut state = state(ProxyConfig::default());
    let request =
        Request::parse("GET /api/v1/epg/day?channelCode=ch1 HTTP/1.1\r\n\r\n").unwrap();
    let client = state.authorized_client_name(&request, 10);
    match state.epg_start(&request, &client, 10) {
        EpgStart::Respond(resp) => assert!(resp.contains("401 Unauthorized")),
        other => panic!("unexpected {other:?}"),
    }
}

#[test]
fn admin_can_create_token() {
    let mut state = state(ProxyConfig {
        admin_password_hash: hash_secret("pw"),
        ..ProxyConfig::default()
    });
    let request = Request::parse(
        "POST /admin/tokens HTTP/1.1\r\nx-admin-password: pw\r\n\r\nname=living-room",
    )
    .unwrap();
    let raw = state
        .create_token(&request, Ok([7u8; 32]), &[9u8; 16], 5)
        .unwrap();
    let resp = token_created_response(Ok(()), &raw);
    assert!(resp.contains("200 OK"));
    assert!(resp.contains("atv_living-room_"));
    assert_eq!(1, state.config.tokens.len());
    assert_eq!(hash_secret(&raw), state.config.tokens[0].hash);
    assert!(state.config.tokens[0].id.starts_with("tok_"));
}

#[test]
fn admin_config_response_redacts_provider_password() {
    let state = state(ProxyConfig {
        admin_password_hash: hash_secret("pw"),
        provider: Some(ProviderConfig {
            user_id: "user".into(),
            password: "secret-password".into(),
            stb_id: "stb".into(),
            local_ip: "192.0.2.10".into(),
            local_mac: "00:11:22:33:44:55".into(),
            auth_server_url: "http://auth.example".into(),
        }),
        ..ProxyConfig::default()
    });
    let request =
        Request::parse("GET /admin/api/v1/config HTTP/1.1\r\nx-admin-password: pw\r\n\r\n")
            .unwrap();
    let config = state.admin_config(&request).unwrap();
    let provider = config.provider.unwrap();
    assert!(provider.password_configured);
    assert_eq!("user", provider.user_id);
    assert!(!format!("{provider:?}").contains("secret-password"));
}

#[test]
fn admin_token_list_does_not_expose_hashes() {
    let mut cfg = ProxyConfig {
        admin_password_hash: hash_secret("pw"),
        ..ProxyConfig::default()
    };
    cfg.tokens.push(ClientToken {
        id: String::new(),
        name: "living-room".into(),
        hash: hash_secret("raw-token"),
        created_at: 1,
        last_seen_at: Some(2),
        enabled: true,
    });
    let state = state(cfg);
    let request =
        Request::parse("GET /admin/api/v1/tokens HTTP/1.1\r\nx-admin-password: pw\r\n\r\n")
            .unwrap();
    let tokens = state.admin_tokens(&request).unwrap();
    assert_eq!("living-room", tokens.data[0].name);
    assert_eq!(Some(2), tokens.data[0].last_seen_at);
    let shown = format!("{tokens:?}");
    assert!(!shown.contains("sha256:"));
    assert!(!shown.contains("raw-token"));
}

#[test]
fn admin_config_save_preserves_blank_provider_password() {
    let mut state = state(ProxyConfig {
        admin_password_hash: hash_secret("pw"),
        provider: Some(ProviderConfig {
            user_id: "old-user".into(),
            password: "keep-me".into(),
            stb_id: "old-stb".into(),
            local_ip: "192.0.2.10".into(),
            local_mac: "00:11:22:33:44:55".into(),
            auth_server_url: "http://old-auth.example".into(),
        }),
        ..ProxyConfig::default()
    });
    let request = Request::parse(
        "POST /admin/config HTTP/1.1\r\nx-admin-password: pw\r\n\r\nprovider_user_id=new-user&provider_password=&provider_stb_id=new-stb&provider_local_ip=192.0.2.11&provider_local_mac=00:11:22:33:44:66&provider_auth_server_url=http%3A%2F%2Fnew-auth.example&channel_cache_ttl_seconds=120&epg_cache_ttl_seconds=30",
    )
    .unwrap();
    state.update_config(&request).unwrap();
    let resp = saved_response(Ok(()));
    assert!(resp.contains("200 OK"));
    let provider = state.config.provider.as_ref().unwrap();
    assert_eq!("new-user", provider.user_id);
    assert_eq!("keep-me", provider.password);
    assert_eq!("new-stb", provider.stb_id);
    assert_eq!("http://new-auth.example", provider.auth_server_url);
    assert_eq!(120, state.config.channel_cache_ttl_seconds);
    assert_eq!(30, state.config.epg_cache_ttl_seconds);
}

#[test]
fn config_update_refuses_a_bad_ttl() {
    let mut state = state(ProxyConfig {
        admin_password_hash: hash_secret("pw"),
        ..ProxyConfig::default()
    });
    let request = Request::parse(
        "POST /admin/config HTTP/1.1\r\nx-admin-password: pw\r\n\r\nbackend_channels_url=+http://b+&channel_cache_ttl_seconds=0",
    )
    .unwrap();
    let err = state.update_config(&request).unwrap_err();
    assert!(err.contains("400 Bad Request"));
    assert!(err.contains("invalid_channel_cache_ttl"));
    assert!(err.contains("TTL must be greater than zero"));
    assert_eq!(Some("http://b".to_string()), state.config.backend_channels_url);
    assert_eq!(3600, state.config.channel_cache_ttl_seconds);
}

#[test]
fn admin_can_delete_token_by_name() {
    let mut cfg = ProxyConfig {
        admin_password_hash: hash_secret("pw"),
        ..ProxyConfig::default()
    };
    cfg.tokens.push(token("living-room", "token-1"));
    cfg.tokens.push(token("bedroom", "token-2"));
    let mut state = state(cfg);
    let request = Request::parse(
        "DELETE /admin/tokens?name=living-room HTTP/1.1\r\nx-admin-password: pw\r\n\r\n",
    )
    .unwrap();
    let count = state.delete_token(&request).unwrap();
    let resp = tokens_deleted_response(Ok(()), count);
    assert!(resp.contains("200 OK"));
    assert!(resp.contains("\"deletedCount\":1"));
    assert_eq!(1, state.config.tokens.len());
    assert_eq!("bedroom", state.config.tokens[0].name);
}

#[test]
fn admin_delete_token_requires_name() {
    let mut state = state(ProxyConfig {
        admin_password_hash: hash_secret("pw"),
        ..ProxyConfig::default()
    });
    let request =
        Request::parse("DELETE /admin/tokens HTTP/1.1\r\nx-admin-password: pw\r\n\r\n").unwrap();
    let resp = state.delete_token(&request).unwrap_err();
    assert!(resp.contains("400 Bad Request"));
    assert!(resp.contains("missing_token_name"));
}

#[test]
fn admin_delete_token_returns_not_found() {
    let mut state = state(ProxyConfig {
        admin_password_hash: hash_secret("pw"),
        ..ProxyConfig::default()
    });
    let request = Request::parse(
        "DELETE /admin/tokens?name=missing HTTP/1.1\r\nx-admin-password: pw\r\n\r\n",
    )
    .unwrap();
    let resp = state.delete_token(&request).unwrap_err();
    assert!(resp.contains("404 Not Found"));
    assert!(resp.contains("token_not_found"));
}

#[test]
fn admin_requests_without_password_are_refused() {
    let mut state = state(ProxyConfig {
        admin_password_hash: hash_secret("pw"),
        ..ProxyConfig::default()
    });
    let request =
        Request::parse("GET /admin/api/v1/status HTTP/1.1\r\nx-admin-password: nope\r\n\r\n")
            .unwrap();
    let resp = state.admin_status(&request, 1).unwrap_err();
    assert!(resp.contains("401 Unauthorized"));
    assert!(resp.contains("admin_unauthorized"));
}

#[test]
fn fresh_cache_is_served() {
    let mut cfg = ProxyConfig::default();
    cfg.tokens.push(token("tv", "token"));
    let mut state = state(cfg);
    state.cache.update(
        vec![Channel {
            number: 1,
            name: "A".into(),
            stream_url: "http://x".into(),
            channel_code: None,
        }],
        100,
    );
    let request =
        Request::parse("GET /api/v1/channels HTTP/1.1\r\nauthorization: Bearer token\r\n\r\n")
            .unwrap();
    let client = state.authorized_client_name(&request, 110);
    assert_eq!(Some("tv".to_string()), client);
    assert_eq!(Some(110), state.config.tokens[0].last_seen_at);
    match state.channels_start(&client, 110) {
        ChannelsStart::Cached(resp) => assert_eq!("A", resp.data[0].name),
        other => panic!("unexpected {other:?}"),
    }
}

#[test]
fn failed_refresh_serves_stale_channels_or_the_error() {
    let mut state = state(ProxyConfig::default());
    let err = state
        .channels_finish(Err("portal down".into()), 60, 10)
        .unwrap_err();
    assert!(err.contains("503 Service Unavailable"));
    assert!(err.contains("backend_unavailable"));
    let fresh = state
        .channels_finish(Ok(vec![channel(2, "B", "b"), channel(2, "A", "a")]), 60, 10)
        .unwrap();
    assert_eq!(vec![1, 2], fresh.data.iter().map(|c| c.number).collect::<Vec<_>>());
    let stale = state
        .channels_finish(Err("portal down".into()), 60, 20)
        .unwrap();
    assert!(stale.cache.stale);
    assert_eq!(10, stale.cache.cached_at);
}

#[test]
fn epg_validates_query() {
    let mut cfg = ProxyConfig::default();
    cfg.tokens.push(token("tv", "token"));
    let mut state = state(cfg);

    let missing = Request::parse(
        "GET /api/v1/epg/day HTTP/1.1\r\nauthorization: Bearer token\r\n\r\n",
    )
    .unwrap();
    let client = state.authorized_client_name(&missing, 1);
    match state.epg_start(&missing, &client, 1) {
        EpgStart::Respond(resp) => {
            assert!(resp.contains("400 Bad Request"));
            assert!(resp.contains("missing_channel_code"));
        }
        other => panic!("unexpected {other:?}"),
    }

    let invalid = Request::parse(
        "GET /api/v1/epg/day?channelCode=ch1&dateOffset=2 HTTP/1.1\r\nauthorization: Bearer token\r\n\r\n",
    )
    .unwrap();
    let client = state.authorized_client_name(&invalid, 1);
    match state.epg_start(&invalid, &client, 1) {
        EpgStart::Respond(resp) => {
            assert!(resp.contains("400 Bad Request"));
            assert!(resp.contains("invalid_date_offset"));
        }
        other => panic!("unexpected {other:?}"),
    }
}

#[test]
fn fresh_epg_cache_is_served() {
    let mut cfg = ProxyConfig::default();
    cfg.tokens.push(token("tv", "token"));
    let mut state = state(cfg);
    let key = EpgCacheKey {
        channel_code: "ch1".into(),
        date_offset: 0,
    };
    state.epg_cache.update(
        key,
        vec![Program {
            code: "p1".into(),
            name: "News".into(),
            start: "2026-06-07T08:00:00+08:00".into(),
            end: "2026-06-07T09:00:00+08:00".into(),
            is_live: true,
            is_replayable: false,
        }],
        100,
    );
    let request = Request::parse(
        "GET /api/v1/epg/day?channelCode=ch1&dateOffset=0 HTTP/1.1\r\nauthorization: Bearer token\r\n\r\n",
    )
    .unwrap();
    let client = state.authorized_client_name(&request, 101);
    match state.epg_start(&request, &client, 101) {
        EpgStart::Cached(resp) => {
            assert_eq!("p1", resp.data[0].code);
            assert!(resp.data[0].is_live);
        }
        other => panic!("unexpected {other:?}"),
    }
}

#[test]
fn final_channel_numbers_are_unique() {
    let channels = ensure_unique_channel_numbers(vec![
        channel(1, "A", "a"),
        channel(1, "B", "b"),
        channel(2, "C", "c"),
    ]);

    assert_eq!(
        vec![1, 3, 2],
        channels.iter().map(|ch| ch.number).collect::<Vec<_>>()
    );
}

#[test]
fn channels_sort_by_number_before_caching() {
    let channels = sort_channels_by_number(vec![
        channel(3, "C", "c"),
        channel(1, "A", "a"),
        channel(2, "B", "b"),
    ]);

    assert_eq!(
        vec![1, 2, 3],
        channels.iter().map(|ch| ch.number).collect::<Vec<_>>()
    );
}

#[test]
fn sorting_breaks_ties_by_name_then_code_and_keeps_equal_ones_in_order() {
    let mut first = channel(1, "Same", "x");
    first.stream_url = "http://first".into();
    let mut second = channel(1, "Same", "x");
    second.stream_url = "http://second".into();
    let sorted = sort_channels_by_number(vec![
        channel(1, "b", "z"),
        first,
        channel(1, "a", "z"),
        Channel { channel_code: None, ..channel(1, "Same", "y") },
        second,
    ]);
    let keys: Vec<(String, Option<String>, String)> = sorted
        .iter()
        .map(|c| (c.name.clone(), c.channel_code.clone(), c.stream_url.clone()))
        .collect();
    assert_eq!(
        vec![
            ("Same".to_string(), None, "http://y".to_string()),
            ("Same".to_string(), Some("x".to_string()), "http://first".to_string()),
            ("Same".to_string(), Some("x".to_string()), "http://second".to_string()),
            ("a".to_string(), Some("z".to_string()), "http://z".to_string()),
            ("b".to_string(), Some("z".to_string()), "http://z".to_string()),
        ],
        keys
    );
}

#[test]
fn a_duplicate_number_taken_by_an_earlier_fallback_is_reassigned() {
    let channels = ensure_unique_channel_numbers(vec![
        channel(7, "A", "a"),
        channel(7, "B", "b"),
        channel(1, "C", "c"),
        channel(2, "D", "d"),
        channel(2, "E", "e"),
    ]);
    // 1 is unique; A keeps 7; B gets 2, the smallest free number, so the
    // 2s that follow are both reassigned
    assert_eq!(
        vec![7, 2, 1, 3, 4],
        channels.iter().map(|ch| ch.number).collect::<Vec<_>>()
    );
}

#[test]
fn cached_ctc_session_reuses_matching_provider() {
    let mut state = state(ProxyConfig::default());
    state.store_session(&provider("u1"), session("J1"));

    let session = state.cached_session(&provider("u1")).unwrap();

    assert_eq!("J1", session.jsession_id);
    assert!(state.cached_session(&provider("u2")).is_none());
}

#[test]
fn clear_ctc_session_keeps_different_provider_session() {
    let mut state = state(ProxyConfig::default());
    state.store_session(&provider("u2"), session("J2"));

    state.clear_ctc_session(&provider("u1"));

    assert_eq!(
        "J2",
        state.ctc_session.as_ref().unwrap().session.jsession_id
    );
    state.clear_ctc_session(&provider("u2"));
    assert!(state.ctc_session.is_none());
}

#[test]
fn requests_are_read_with_query_headers_and_body() {
    let request = Request::parse(
        "POST /x/y?a=1&b=%41+c&a=2 HTTP/1.1\r\nX-Thing:  v1 \r\nx-thing: v2\r\nbad line\r\n\r\nbody",
    )
    .unwrap();
    assert_eq!("POST", request.method);
    assert_eq!("/x/y", request.path);
    assert_eq!(
        vec![("a".to_string(), "2".to_string()), ("b".to_string(), "A c".to_string())],
        request.query
    );
    assert_eq!(vec![("x-thing".to_string(), "v2".to_string())], request.headers);
    assert_eq!("body", request.body);
    assert_eq!(Err("missing request line".to_string()), Request::parse("\r\n\r\nx").map(|_| ()));
    assert_eq!(Err("missing target".to_string()), Request::parse("GET\r\n").map(|_| ()));
}

#[test]
fn forms_decode_plus_and_percent_escapes() {
    assert_eq!(
        vec![
            ("k".to_string(), "a b/é".to_string()),
            ("%zz".to_string(), "100%".to_string()),
        ],
        parse_form("k=a+b%2F%C3%A9&%zz=100%&novalue")
    );
}

#[test]
fn responses_have_status_length_and_close() {
    let resp = json_error(404, "not_found", "not \"here\"");
    assert_eq!(
        "HTTP/1.1 404 Not Found\r\nContent-Type: application/json\r\nContent-Length: 55\r\nConnection: close\r\n\r\n{\"error\":{\"code\":\"not_found\",\"message\":\"not \\\"here\\\"\"}}",
        resp
    );
    assert_eq!("404", response_status(&resp));
    assert_eq!("unknown", response_status(""));
}

fn pairing_entropy() -> Entropy {
    Entropy::new((0u8..128).map(|b| b.wrapping_mul(53).wrapping_add(7)).collect())
}

fn create_request(body_nonce: &str, device_name: Option<&str>) -> CreatePairingRequest {
    CreatePairingRequest {
        device_name: device_name.map(str::to_string),
        device_type: device_name.map(|_| "android_tv".to_string()),
        app_id: device_name.map(|_| "com.example.atv".to_string()),
        app_version: device_name.map(|_| "1".to_string()),
        client_nonce: body_nonce.to_string(),
    }
}

fn pairing_post() -> Request {
    Request::parse(
        "POST /api/v1/pairing/sessions HTTP/1.1\r\ncontent-type: application/json\r\n\r\n{}",
    )
    .unwrap()
}

#[test]
fn pairing_approve_by_code_creates_client_token() {
    let mut state = state(ProxyConfig {
        admin_password_hash: hash_secret("pw"),
        ..ProxyConfig::default()
    });
    let ctx = RequestContext::new(pairing_post(), None);
    let created = state
        .create_pairing(
            &ctx,
            Ok(create_request("nonce", Some("Living Room ATV"))),
            100,
            &mut pairing_entropy(),
        )
        .unwrap();

    let list_request = Request::parse(
        "GET /admin/api/v1/pairing/sessions?status=pending HTTP/1.1\r\nx-admin-password: pw\r\n\r\n",
    )
    .unwrap();
    let list = state.pairing_sessions(&list_request, 101).unwrap();
    assert_eq!(1, list.data.len());
    assert_eq!(created.pairing_code, list.data[0].pairing_code);
    assert_eq!("Living Room ATV", list.data[0].device_name);

    let approve_request = Request::parse(
        "POST /admin/api/v1/pairing/approve HTTP/1.1\r\nx-admin-password: pw\r\ncontent-type: application/json\r\n\r\n{}",
    )
    .unwrap();
    let (candidate, raw) = state
        .approve_pairing(
            &approve_request,
            Ok(ApprovePairingRequest {
                pairing_code: created.pairing_code.clone(),
                device_label: Some("Den TV".to_string()),
            }),
            Ok([3u8; 32]),
            &[4u8; 16],
            102,
        )
        .unwrap();
    let decision = state.finish_approval(Ok(()), candidate, raw).unwrap();
    assert_eq!("approved", decision.status);
    assert_eq!(Some(created.session_id.clone()), decision.client_id);
    assert_eq!(1, state.config.tokens.len());
    assert_eq!("Den TV", state.config.tokens[0].name);

    let poll_request = Request::parse(&format!(
        "GET /api/v1/pairing/sessions/{} HTTP/1.1\r\nx-client-nonce: nonce\r\n\r\n",
        created.session_id
    ))
    .unwrap();
    let poll = state.poll_pairing(&poll_request, 103).unwrap();
    assert_eq!("approved", poll.status);
    assert!(poll.access_token.unwrap().starts_with("atv_dentv_"));
}

#[test]
fn pairing_reject_by_code_is_visible_to_client() {
    let mut state = state(ProxyConfig {
        admin_password_hash: hash_secret("pw"),
        ..ProxyConfig::default()
    });
    let ctx = RequestContext::new(pairing_post(), None);
    let created = state
        .create_pairing(&ctx, Ok(create_request("nonce", None)), 100, &mut pairing_entropy())
        .unwrap();
    let reject_request = Request::parse(
        "POST /admin/api/v1/pairing/reject HTTP/1.1\r\nx-admin-password: pw\r\ncontent-type: application/json\r\n\r\n{}",
    )
    .unwrap();
    let decision = state
        .reject_pairing(
            &reject_request,
            Ok(RejectPairingRequest {
                pairing_code: created.pairing_code.clone(),
            }),
            101,
        )
        .unwrap();
    assert_eq!("rejected", decision.status);
    assert_eq!(None, decision.client_id);

    let poll_request = Request::parse(&format!(
        "GET /api/v1/pairing/sessions/{} HTTP/1.1\r\nx-client-nonce: nonce\r\n\r\n",
        created.session_id
    ))
    .unwrap();
    assert_eq!("rejected", state.poll_pairing(&poll_request, 102).unwrap().status);
}

#[test]
fn pairing_create_accepts_context_peer_metadata() {
    let mut state = state(ProxyConfig::default());
    let ctx = RequestContext::new(pairing_post(), Some("192.0.2.55:12345".to_string()));
    let created = state
        .create_pairing(&ctx, Ok(create_request("nonce", None)), 100, &mut pairing_entropy())
        .unwrap();
    assert_eq!(6, created.pairing_code.len());
    assert!(created.session_id.starts_with("ps_"));
}

#[test]
fn pairing_create_policy_allows_by_default() {
    let ctx = RequestContext::new(pairing_post(), None);
    let state = state(ProxyConfig::default());
    assert!(matches!(
        check_pairing_create(&ctx, &state),
        PolicyDecision::Allow
    ));
}

#[test]
fn request_context_carries_peer_for_future_policy_checks() {
    let ctx = RequestContext::new(pairing_post(), Some("192.0.2.55:12345".to_string()));
    assert_eq!(Some("192.0.2.55:12345".to_string()), ctx.peer_addr);
    assert!(ctx.received_at > 0);
}

#[test]
fn pairing_create_refuses_a_blank_nonce_and_an_unreadable_body() {
    let mut state = state(ProxyConfig::default());
    let ctx = RequestContext::new(pairing_post(), None);
    let blank = state
        .create_pairing(&ctx, Ok(create_request("  ", None)), 100, &mut pairing_entropy())
        .unwrap_err();
    assert!(blank.contains("400 Bad Request"));
    assert!(blank.contains("missing_client_nonce"));
    let unreadable = state
        .create_pairing(&ctx, Err("expected value".to_string()), 100, &mut pairing_entropy())
        .unwrap_err();
    assert!(unreadable.contains("\"code\":\"bad_request\""));
    assert!(unreadable.contains("expected value"));
    let no_random = state
        .create_pairing(&ctx, Ok(create_request("n", None)), 100, &mut Entropy::new(Vec::new()))
        .unwrap_err();
    assert!(no_random.contains("500 Internal Server Error"));
    assert!(no_random.contains("random_unavailable"));
}

#[test]
fn a_created_token_lets_its_client_in() {
    let mut state = state(ProxyConfig {
        admin_password_hash: hash_secret("pw"),
        ..ProxyConfig::default()
    });
    let create = Request::parse(
        "POST /admin/tokens HTTP/1.1\r\nx-admin-password: pw\r\n\r\nname=den",
    )
    .unwrap();
    let raw = state
        .create_token(&create, Ok([1u8; 32]), &[2u8; 16], 5)
        .unwrap();
    let use_it = Request::parse(&format!(
        "GET /api/v1/channels HTTP/1.1\r\nauthorization: Bearer {raw}\r\n\r\n"
    ))
    .unwrap();
    assert_eq!(Some("den".to_string()), state.authorized_client_name(&use_it, 9));
    assert_eq!(Some(9), state.config.tokens[0].last_seen_at);
}

#[test]
fn deleting_a_name_locks_out_only_that_client() {
    let mut cfg = ProxyConfig {
        admin_password_hash: hash_secret("pw"),
        ..ProxyConfig::default()
    };
    cfg.tokens.push(token("living-room", "token-1"));
    cfg.tokens.push(token("bedroom", "token-2"));
    cfg.tokens.push(token("living-room", "token-3"));
    let mut state = state(cfg);
    let delete = Request::parse(
        "DELETE /admin/tokens HTTP/1.1\r\nx-admin-password: pw\r\n\r\nname=+living-room+",
    )
    .unwrap();
    assert_eq!(Ok(2), state.delete_token(&delete));
    for raw in ["token-1", "token-3"] {
        let request = Request::parse(&format!(
            "GET /api/v1/channels HTTP/1.1\r\nauthorization: Bearer {raw}\r\n\r\n"
        ))
        .unwrap();
        assert_eq!(None, state.authorized_client_name(&request, 9));
    }
    let request =
        Request::parse("GET /api/v1/channels HTTP/1.1\r\nauthorization: Bearer token-2\r\n\r\n")
            .unwrap();
    assert_eq!(Some("bedroom".to_string()), state.authorized_client_name(&request, 9));
}

#[test]
fn the_status_of_a_built_response_reads_back() {
    assert_eq!("200", response_status(&health()));
    assert_eq!("503", response_status(&json_error(503, "x", "y")));
    assert_eq!("418", response_status(&json_error(418, "teapot", "short and stout")));
}

#[test]
fn a_later_field_replaces_an_earlier_one_in_place() {
    assert_eq!(
        vec![
            ("a".to_string(), "3".to_string()),
            ("b".to_string(), "2".to_string()),
        ],
        parse_form("a=1&b=2&a=3")
    );
    let request =
        Request::parse("GET /x?k=1 HTTP/1.1\r\nX-Key: one\r\nx-key: two\r\n\r\n").unwrap();
    assert_eq!(vec![("x-key".to_string(), "two".to_string())], request.headers);
}

#[test]
fn escapes_that_would_split_a_character_are_detected() {
    assert!(is_decodable("a%41b"));
    assert!(is_decodable("%é"));
    assert!(!is_decodable("%aé"));
    assert!(is_form_decodable("k=%aa&v=é"));
    assert!(!is_form_decodable("k=%aé"));
    assert!(is_request_decodable("GET /x?k=%41 HTTP/1.1\r\n\r\n"));
    assert!(!is_request_decodable("GET /x?k=%aé HTTP/1.1\r\n\r\n"));
    assert!(is_request_decodable("POST /x HTTP/1.1\r\n\r\nk=%aé"));
    assert!(is_request_decodable("no request line at all"));
    assert_eq!("A", percent_decode("%41"));
    assert_eq!("%é", percent_decode("%é"));
}

#[test]
fn a_failed_first_fetch_forgets_the_login_and_asks_for_one_retry() {
    let mut state = state(ProxyConfig::default());
    state.store_session(&provider("u1"), session("J1"));
    let ok: Result<u32, String> = Ok(3);
    assert!(matches!(
        state.after_fetch(&provider("u1"), FetchAttempt::First, ok),
        AfterFetch::Done(Ok(3))
    ));
    assert!(state.cached_session(&provider("u1")).is_some());

    let failed: Result<u32, String> = Err("expired".into());
    assert!(matches!(
        state.after_fetch(&provider("u1"), FetchAttempt::First, failed),
        AfterFetch::Relogin
    ));
    assert!(state.cached_session(&provider("u1")).is_none());

    state.store_session(&provider("u1"), session("J2"));
    let failed_again: Result<u32, String> = Err("still failing".into());
    match state.after_fetch(&provider("u1"), FetchAttempt::Retry, failed_again) {
        AfterFetch::Done(Err(e)) => assert_eq!("still failing", e),
        other => panic!("unexpected {other:?}"),
    }
    assert_eq!("J2", state.cached_session(&provider("u1")).unwrap().jsession_id);
}

#[test]
fn after_a_refresh_requests_hit_the_cache_until_the_ttl_passes() {
    let mut cfg = ProxyConfig::default();
    cfg.channel_cache_ttl_seconds = 60;
    cfg.epg_cache_ttl_seconds = 30;
    cfg.backend_channels_url = Some("http://backend/channels".into());
    cfg.provider = Some(provider("u1"));
    let mut state = state(cfg);
    let client = Some("tv".to_string());
    assert!(matches!(
        state.channels_start(&client, 1000),
        ChannelsStart::FetchProvider { ttl: 60, .. }
    ));
    state
        .channels_finish(Ok(vec![channel(1, "A", "a")]), 60, 1000)
        .unwrap();
    for later in [1000, 1030, 1060] {
        assert!(matches!(
            state.channels_start(&client, later),
            ChannelsStart::Cached(_)
        ));
    }
    assert!(matches!(
        state.channels_start(&client, 1061),
        ChannelsStart::FetchProvider { .. }
    ));

    let request = Request::parse(
        "GET /api/v1/epg/day?channelCode=ch1&dateOffset=1 HTTP/1.1\r\n\r\n",
    )
    .unwrap();
    let key = match state.epg_start(&request, &client, 1000) {
        EpgStart::Fetch { key, ttl, .. } => {
            assert_eq!(30, ttl);
            assert_eq!(1, key.date_offset);
            key
        }
        other => panic!("unexpected {other:?}"),
    };
    state.epg_finish(key, 30, Ok(Vec::new()), 1000).unwrap();
    assert!(matches!(
        state.epg_start(&request, &client, 1030),
        EpgStart::Cached(_)
    ));
    assert!(matches!(
        state.epg_start(&request, &client, 1031),
        EpgStart::Fetch { .. }
    ));
}

#[test]
fn error_messages_are_escaped_as_json_strings() {
    let message = "a\"b\\c\n\t\u{1}\u{1f}é/";
    let resp = json_error(400, "x", message);
    let body = resp.split_once("\r\n\r\n").unwrap().1;
    assert_eq!(
        format!(
            "{{\"error\":{{\"code\":\"x\",\"message\":{}}}}}",
            serde_json::to_string(message).unwrap()
        ),
        body
    );
    assert!(body.contains("\\u0001") && body.contains("\\u001f"));
}
