use atv_iptv_proxy::config::{ChannelNumberOverrides, ProviderConfig};
use atv_iptv_proxy::portal::{
    channels_from_frameset, channels_from_raw, frameset_request, mapping_from_reply,
    mapping_request, programs_from_reply, programs_request, session_cookie, LoginFlow,
    LoginSession, LoginStep, PortalReply, PortalRequest,
};
use atv_iptv_proxy::stream::StreamProxyConfig;

fn provider() -> ProviderConfig {
    ProviderConfig {
        user_id: "user 1".into(),
        password: "pw".into(),
        stb_id: "stb".into(),
        local_ip: "192.0.2.10".into(),
        local_mac: "00:11:22:33:44:55".into(),
        auth_server_url: "http://auth.example:8080/".into(),
    }
}

fn reply(final_url: &str, cookies: &[&str], body: &str) -> Result<PortalReply, String> {
    Ok(PortalReply {
        final_url: final_url.into(),
        set_cookies: cookies.iter().map(|c| c.to_string()).collect(),
        body: Ok(body.into()),
    })
}

fn url_of(request: &PortalRequest) -> String {
    match request {
        PortalRequest::Get { url, .. } | PortalRequest::PostForm { url, .. } => url.clone(),
    }
}

fn cookie_of(request: &PortalRequest) -> Option<String> {
    match request {
        PortalRequest::Get { cookie, .. } | PortalRequest::PostForm { cookie, .. } => cookie.clone(),
    }
}

fn step(flow: LoginFlow, answer: Result<PortalReply, String>) -> (LoginFlow, PortalRequest) {
    match flow.advance(answer) {
        LoginStep::Continue { flow, request } => (flow, request),
        other => panic!("login stopped early: {other:?}"),
    }
}

#[test]
fn login_walks_the_portal_and_ends_with_a_session() {
    let (flow, request) = LoginFlow::start(&provider(), 12_345_678);
    assert_eq!(
        "http://auth.example:8080/auth?UserID=user%201&Action=Login",
        url_of(&request)
    );
    assert_eq!(None, cookie_of(&request));

    let (flow, request) = step(
        flow,
        reply("", &[], "Authentication.CTCGetAuthInfo('TOKEN42')"),
    );
    match &request {
        PortalRequest::PostForm { url, fields, cookie } => {
            assert_eq!("http://auth.example:8080/uploadAuthInfo", url);
            assert_eq!(None, *cookie);
            assert_eq!(4, fields.len());
            assert_eq!(("UserID".to_string(), "user 1".to_string()), fields[0]);
            assert_eq!("Authenticator", fields[1].0);
            assert!(fields[1].1.chars().all(|c| c.is_ascii_hexdigit()));
            assert_eq!(("AccessMethod".to_string(), "dhcp".to_string()), fields[2]);
            assert_eq!(("AccessUserName".to_string(), "user 1".to_string()), fields[3]);
        }
        other => panic!("expected a form post, got {other:?}"),
    }

    let (flow, request) = step(
        flow,
        reply("", &[], "Authentication.CTCSetConfig('UserToken','UT9');"),
    );
    assert_eq!("http://auth.example:8080/getServiceList", url_of(&request));
    assert_eq!(Some("UserToken=UT9".to_string()), cookie_of(&request));

    let (flow, request) = step(
        flow,
        reply("", &[], "document.location = 'http://epg.example/entry?UserToken=UT9';"),
    );
    assert_eq!("http://epg.example/entry?UserToken=UT9", url_of(&request));

    let (flow, request) = step(
        flow,
        reply("", &[], "document.location='http://10.0.0.5:33200/iptvepg/function/index.jsp?x=1'"),
    );
    assert_eq!(
        "http://10.0.0.5:33200/iptvepg/function/index.jsp?x=1",
        url_of(&request)
    );

    let (flow, request) = step(
        flow,
        reply(
            "http://10.0.0.5:33200/iptvepg/function/index.jsp?x=1",
            &["lang=en; Path=/", "JSESSIONID=JS77; Path=/iptvepg"],
            "<input type=hidden name=UserToken value=UT9><input type=hidden name=STBID value=stb>",
        ),
    );
    match &request {
        PortalRequest::PostForm { url, fields, cookie } => {
            assert_eq!(
                "http://10.0.0.5:33200/iptvepg/function/funcportalauth.jsp",
                url
            );
            assert_eq!(Some("JSESSIONID=JS77".to_string()), *cookie);
            assert_eq!(
                vec![
                    ("UserToken".to_string(), "UT9".to_string()),
                    ("STBID".to_string(), "stb".to_string()),
                ],
                *fields
            );
        }
        other => panic!("expected a form post, got {other:?}"),
    }

    match flow.advance(Err("portal auth failed".into())) {
        LoginStep::Done(session) => {
            assert_eq!(
                LoginSession {
                    epg_lb_base: "http://10.0.0.5:33200/iptvepg/function/".into(),
                    jsession_id: "JS77".into(),
                    user_token: "UT9".into(),
                    user_id: "user 1".into(),
                },
                session
            );
        }
        other => panic!("expected a session, got {other:?}"),
    }
}

#[test]
fn login_stops_with_the_reason_at_each_stage() {
    let (flow, _) = LoginFlow::start(&provider(), 12_345_678);
    match flow.advance(Err("GET failed: refused".into())) {
        LoginStep::Failed(e) => assert_eq!("GET failed: refused", e),
        other => panic!("unexpected {other:?}"),
    }

    let (flow, _) = LoginFlow::start(&provider(), 12_345_678);
    match flow.advance(reply("", &[], "no token here")) {
        LoginStep::Failed(e) => assert_eq!("EncryToken not found", e),
        other => panic!("unexpected {other:?}"),
    }

    let (flow, _) = LoginFlow::start(&provider(), 1);
    match flow.advance(reply("", &[], "Authentication.CTCGetAuthInfo('T')")) {
        LoginStep::Failed(e) => assert_eq!("rand must be 8 digits, got 1", e),
        other => panic!("unexpected {other:?}"),
    }

    let (flow, _) = LoginFlow::start(&provider(), 12_345_678);
    let (flow, _) = step(flow, reply("", &[], "Authentication.CTCGetAuthInfo('T')"));
    match flow.advance(reply("", &[], "nothing configured")) {
        LoginStep::Failed(e) => {
            assert_eq!("uploadAuthInfo response had no CTCSetConfig entries", e)
        }
        other => panic!("unexpected {other:?}"),
    }

    let (flow, _) = LoginFlow::start(&provider(), 12_345_678);
    let (flow, _) = step(flow, reply("", &[], "Authentication.CTCGetAuthInfo('T')"));
    match flow.advance(reply("", &[], "Authentication.CTCSetConfig('EPGDomain','x')")) {
        LoginStep::Failed(e) => assert_eq!("UserToken missing", e),
        other => panic!("unexpected {other:?}"),
    }

    let (flow, _) = LoginFlow::start(&provider(), 12_345_678);
    let (flow, _) = step(flow, reply("", &[], "Authentication.CTCGetAuthInfo('T')"));
    let (flow, _) = step(flow, reply("", &[], "Authentication.CTCSetConfig('UserToken','U')"));
    match flow.advance(reply("", &[], "no redirect")) {
        LoginStep::Failed(e) => assert_eq!("getServiceList redirect missing", e),
        other => panic!("unexpected {other:?}"),
    }

    let (flow, _) = LoginFlow::start(&provider(), 12_345_678);
    let (flow, _) = step(flow, reply("", &[], "Authentication.CTCGetAuthInfo('T')"));
    let (flow, _) = step(flow, reply("", &[], "Authentication.CTCSetConfig('UserToken','U')"));
    let (flow, _) = step(flow, reply("", &[], "document.location='http://a/b'"));
    match flow.advance(reply("", &[], "still no redirect")) {
        LoginStep::Failed(e) => assert_eq!("EPG load-balanced redirect missing", e),
        other => panic!("unexpected {other:?}"),
    }

    let (flow, _) = LoginFlow::start(&provider(), 12_345_678);
    let (flow, _) = step(flow, reply("", &[], "Authentication.CTCGetAuthInfo('T')"));
    let (flow, _) = step(flow, reply("", &[], "Authentication.CTCSetConfig('UserToken','U')"));
    let (flow, _) = step(flow, reply("", &[], "document.location='http://a/b'"));
    let (flow, _) = step(flow, reply("", &[], "document.location='http://c/d/e'"));
    match flow.advance(reply("http://c/d/e", &["other=1"], "<html>")) {
        LoginStep::Failed(e) => assert_eq!("JSESSIONID cookie missing", e),
        other => panic!("unexpected {other:?}"),
    }
}

fn session() -> LoginSession {
    LoginSession {
        epg_lb_base: "http://10.0.0.5:33200/iptvepg/function/".into(),
        jsession_id: "JS77".into(),
        user_token: "UT9".into(),
        user_id: "user 1".into(),
    }
}

#[test]
fn channel_fetch_posts_the_frameset_and_reads_the_mapping() {
    let frameset = frameset_request(&session());
    match &frameset {
        PortalRequest::PostForm { url, fields, cookie } => {
            assert_eq!(
                "http://10.0.0.5:33200/iptvepg/function/frameset_builder.jsp",
                url
            );
            assert_eq!(("BUILD_ACTION".to_string(), "FRAMESET_BUILDER".to_string()), fields[0]);
            assert_eq!(Some("JSESSIONID=JS77".to_string()), *cookie);
        }
        other => panic!("expected a form post, got {other:?}"),
    }
    let mapping = mapping_request(&session());
    assert_eq!(
        "http://10.0.0.5:33200/iptvepg/frame224/datas/get_channel_info_mapping.jsp",
        url_of(&mapping)
    );

    let raw = channels_from_frameset(reply(
        "",
        &[],
        "jsSetConfig('Channel','ChannelID=c1,ChannelName=One,UserChannelID=u1,ChannelURL=igmp://239.0.0.1:8000') \
         jsSetConfig('Channel','ChannelID=c2,ChannelName=Two,UserChannelID=u2,ChannelURL=http://two')",
    ))
    .unwrap();
    assert_eq!(2, raw.len());
    let mapping = mapping_from_reply(reply("", &[], r#"{"channelMixnoMapping":"5:u1,9:u2"}"#));
    let stream = StreamProxyConfig {
        udpxy_base_url: Some("router:4022".into()),
    };
    let channels =
        channels_from_raw(raw, &mapping, &stream, &ChannelNumberOverrides::new()).unwrap();
    assert_eq!(
        vec![(5, "One", "http://router:4022/udp/239.0.0.1:8000"), (9, "Two", "http://two")],
        channels
            .iter()
            .map(|c| (c.number, c.name.as_str(), c.stream_url.as_str()))
            .collect::<Vec<_>>()
    );
    assert_eq!(Some("c1".to_string()), channels[0].channel_code);
}

#[test]
fn channel_fetch_reports_an_empty_frameset_and_missing_udpxy() {
    assert_eq!(
        Err("frameset_builder returned no channels".to_string()),
        channels_from_frameset(reply("", &[], "<html></html>")).map(|v| v.len())
    );
    assert_eq!(
        Err("POST failed".to_string()),
        channels_from_frameset(Err("POST failed".into())).map(|v| v.len())
    );
    assert!(mapping_from_reply(Err("GET failed".into())).is_empty());
    let raw = channels_from_frameset(reply(
        "",
        &[],
        "jsSetConfig('Channel','ChannelID=c1,ChannelName=One,ChannelURL=rtp://239.0.0.1:1')",
    ))
    .unwrap();
    let err = channels_from_raw(
        raw,
        &Vec::new(),
        &StreamProxyConfig::default(),
        &ChannelNumberOverrides::new(),
    )
    .unwrap_err();
    assert_eq!("udpxy is required for multicast stream rtp://239.0.0.1:1", err);
}

#[test]
fn programme_fetch_asks_the_prevue_list_and_reads_it() {
    let request = programs_request(&session(), "ch1", -1);
    let url = url_of(&request);
    assert!(url.starts_with(
        "http://10.0.0.5:33200/iptvepg/frame1194/CHANNEL_PLAYER_UTILS/datas/prevue_list.jsp?channelcode=ch1&"
    ));
    assert!(url.contains("dateindex=-1"));
    assert_eq!(Some("JSESSIONID=JS77".to_string()), cookie_of(&request));

    let programs = programs_from_reply(reply(
        "",
        &[],
        r#"{"channelPrevue":[{"prevuecode":"p1","prevuename":"News","begintime":"20260607080000","endtime":"20260607090000","isLive":"1","isRecord":"1"}]}"#,
    ))
    .unwrap();
    assert_eq!(1, programs.len());
    assert_eq!("2026-06-07T08:00:00+08:00", programs[0].start);
    assert!(programs[0].is_live);
    assert!(programs[0].is_replayable);
    assert_eq!(
        Err("GET failed".to_string()),
        programs_from_reply(Err("GET failed".into())).map(|v| v.len())
    );
}

#[test]
fn session_cookie_is_the_first_jsessionid_set() {
    assert_eq!(
        Some("B".to_string()),
        session_cookie(&vec![
            "a=1".to_string(),
            "JSESSIONID=B; Path=/".to_string(),
            "JSESSIONID=C".to_string(),
        ])
    );
    assert_eq!(None, session_cookie(&vec!["a=1".to_string()]));
}
