use atv_iptv_proxy::config::{ChannelNumberOverride, ChannelNumberOverrides};
use atv_iptv_proxy::ctc::{
    assign_channel_numbers, build_authenticator, build_prevue_url, epg_base_from_url,
    http_context, normalize_ctc_time, parse_channels, parse_cookie_value,
    parse_document_location, parse_encry_token, parse_hidden_inputs, parse_mixno_mapping,
    parse_programs, parse_set_config, programs_from_entries, user_channel_numbers, PrevueFields,
    RawChannel,
};

fn get<'a>(pairs: &'a [(String, String)], key: &str) -> Option<&'a String> {
    pairs.iter().find(|(k, _)| k == key).map(|(_, v)| v)
}

fn raw(id: &str, name: &str, user: &str, url: &str) -> RawChannel {
    RawChannel {
        channel_id: id.into(),
        channel_name: name.into(),
        user_channel_id: user.into(),
        channel_url: url.into(),
    }
}

fn overrides(entries: &[(&str, Option<&str>, u32)]) -> ChannelNumberOverrides {
    let mut overrides = ChannelNumberOverrides::new();
    for (code, name, number) in entries {
        overrides.insert(
            code.to_string(),
            ChannelNumberOverride {
                name: name.map(|n| n.to_string()),
                number: *number,
            },
        );
    }
    overrides
}

#[test]
fn authenticator_is_hex_and_validates_rand() {
    let value =
        build_authenticator("u", "000000", "s", "1.2.3.4", "aa", "tok", 12345678).unwrap();
    assert!(value.chars().all(|c| c.is_ascii_hexdigit()));
    assert!(build_authenticator("u", "p", "s", "i", "m", "t", 1).is_err());
}

#[test]
fn parses_ctc_channel_blocks() {
    let html = "jsSetConfig( 'Channel' , 'ChannelID=ch1,ChannelName=News,UserChannelID=001,ChannelURL=igmp://239.0.0.1:8000' )";
    let channels = parse_channels(html);
    assert_eq!("ch1", channels[0].channel_id);
    assert_eq!("News", channels[0].channel_name);
}

#[test]
fn parses_mapping() {
    let mapping = parse_mixno_mapping(r#"{"channelMixnoMapping":"001:100,002:200"}"#);
    assert_eq!(Some(&"100".to_string()), get(&mapping, "001"));
}

#[test]
fn parses_set_config_with_spaces() {
    let config = parse_set_config(
        "Authentication.CTCSetConfig ( 'UserToken' , 'UT9' );\
         Authentication.CTCSetConfig('EPGDomain','http://e/x')",
    );
    assert_eq!(Some(&"UT9".to_string()), get(&config, "UserToken"));
    assert_eq!(Some(&"http://e/x".to_string()), get(&config, "EPGDomain"));
}

#[test]
fn parses_hidden_inputs_case_insensitive_and_unquoted() {
    let html = "<INPUT TYPE=hidden NAME='UserToken' VALUE=UT9>\
                <input value=ignored type=text name=x>\
                <input value=abc name=UserID type=HIDDEN>";
    let inputs = parse_hidden_inputs(html);
    assert_eq!(Some(&"UT9".to_string()), get(&inputs, "UserToken"));
    assert_eq!(Some(&"abc".to_string()), get(&inputs, "UserID"));
    assert!(get(&inputs, "x").is_none());
}

#[test]
fn parses_document_location_with_query_equals() {
    assert_eq!(
        Some("http://h/p?UserToken=abc&foo=bar".to_string()),
        parse_document_location(
            "<script>document.location = 'http://h/p?UserToken=abc&foo=bar';</script>"
        )
    );
    assert_eq!(
        Some("http://h/q?x=1".to_string()),
        parse_document_location(r#"document.location="http://h/q?x=1""#)
    );
}

#[test]
fn parses_cookie_from_combined_set_cookie_header() {
    assert_eq!(
        Some("ABC".to_string()),
        parse_cookie_value(
            "foo=bar; Path=/, JSESSIONID=ABC; Path=/iptvepg",
            "JSESSIONID"
        )
    );
}

#[test]
fn http_context_omits_query_values() {
    assert_eq!(
        "ctc GET /iptvepg/function/index.jsp",
        http_context(
            "GET",
            "http://host:33200/iptvepg/function/index.jsp?UserID=secret"
        )
    );
}

#[test]
fn epg_base_keeps_scheme_authority_and_directory() {
    assert_eq!(
        "http://1.2.3.4:33200/iptvepg/function/",
        epg_base_from_url("http://1.2.3.4:33200/iptvepg/function/index.jsp?x=1")
    );
}

#[test]
fn parse_programs_accepts_wrapped_json() {
    let programs = parse_programs(
        r#"prefix {"channelPrevue":[{"prevuecode":"p1","prevuename":"News","begintime":"20260607080000","endtime":"20260607090000"}]} suffix"#,
    )
    .unwrap();
    assert_eq!("p1", programs[0].code);
}

#[test]
fn fetch_program_url_includes_recommpara() {
    let url = build_prevue_url("http://epg/iptvepg/", "ch=1", 0, "user 1");
    assert!(url.contains("channelcode=ch%3D1"));
    assert!(url.contains("recommpara=userId%3Duser%201%26channelId%3D1%26num%3D6"));
}

#[test]
fn channel_number_overrides_take_precedence_and_fallback_avoids_collisions() {
    let channels = vec![
        raw("code-1", "One", "u1", "http://one"),
        raw("code-2", "Two", "u2", "http://two"),
        raw("code-3", "Three", "u3", "http://three"),
    ];
    let backend = vec![("u1".to_string(), 10), ("u2".to_string(), 5)];
    let overrides = overrides(&[("code-1", Some("One"), 5)]);

    assert_eq!(
        vec![5, 1, 2],
        assign_channel_numbers(&channels, &backend, &overrides).unwrap()
    );
}

#[test]
fn duplicate_override_numbers_drop_later_override_to_fallback() {
    let channels = vec![
        raw("code-1", "One", "u1", "http://one"),
        raw("code-2", "Two", "u2", "http://two"),
    ];
    let overrides = overrides(&[("code-1", Some("One"), 5), ("code-2", Some("Two"), 5)]);

    assert_eq!(
        vec![5, 1],
        assign_channel_numbers(&channels, &Vec::new(), &overrides).unwrap()
    );
}

#[test]
fn duplicate_override_number_does_not_fall_through_to_backend_mapping() {
    let channels = vec![
        raw("code-1", "One", "u1", "http://one"),
        raw("code-2", "Two", "u2", "http://two"),
    ];
    let backend = vec![("u2".to_string(), 9)];
    let overrides = overrides(&[("code-1", None, 5), ("code-2", None, 5)]);

    assert_eq!(
        vec![5, 1],
        assign_channel_numbers(&channels, &backend, &overrides).unwrap()
    );
}

#[test]
fn backend_mapping_conflict_with_override_uses_fallback() {
    let channels = vec![
        raw("code-1", "One", "u1", "http://one"),
        raw("code-2", "Two", "u2", "http://two"),
    ];
    let backend = vec![("u2".to_string(), 5)];
    let overrides = overrides(&[("code-1", None, 5)]);

    assert_eq!(
        vec![5, 1],
        assign_channel_numbers(&channels, &backend, &overrides).unwrap()
    );
}

#[test]
fn parses_programs_and_normalizes_timestamps() {
    let programs = parse_programs(
        r#"{"channelPrevue":[
          {"prevuecode":"p1","prevuename":"News","begintime":"20260607080000","endtime":"20260607090000","isLive":"1","isBack":"0","isRecord":"1"},
          {"prevuecode":"p2","prevuename":"Bad","begintime":"bad","endtime":"20260607100000"}
        ]}"#,
    )
    .unwrap();

    assert_eq!(1, programs.len());
    assert_eq!("p1", programs[0].code);
    assert_eq!("2026-06-07T08:00:00+08:00", programs[0].start);
    assert!(programs[0].is_live);
    assert!(programs[0].is_replayable);
}

#[test]
fn normalizes_dotted_timestamp() {
    assert_eq!(
        Some("2026-03-14T00:56:00+08:00".to_string()),
        normalize_ctc_time("2026.03.14 00:56:00")
    );
}

#[test]
fn normalizes_iso_times_as_they_are_and_refuses_others() {
    assert_eq!(
        Some("2026-03-14T00:56:00Z".to_string()),
        normalize_ctc_time("2026-03-14T00:56:00Z")
    );
    assert_eq!(None, normalize_ctc_time("2026-03-14 00:56"));
    assert_eq!(None, normalize_ctc_time("2026031400560"));
}

#[test]
fn parse_programs_reports_what_is_missing() {
    assert_eq!(
        Err("EPG response is not JSON".to_string()),
        parse_programs("no json here")
    );
    assert_eq!(
        Err("EPG response is not JSON".to_string()),
        parse_programs("[1, 2]")
    );
    assert_eq!(
        Err("EPG channelPrevue missing".to_string()),
        parse_programs(r#"{"other": []}"#)
    );
}

#[test]
fn encry_token_is_read_from_the_login_page() {
    assert_eq!(
        Some("ABC123".to_string()),
        parse_encry_token("x Authentication.CTCGetAuthInfo('ABC123') y")
    );
    assert_eq!(None, parse_encry_token("nothing"));
}

#[test]
fn authenticator_has_whole_padded_blocks_and_names_a_bad_rand() {
    let value = build_authenticator("u", "pw", "s", "i", "m", "t", 10_000_000).unwrap();
    // "10000000$t$u$s$i$m$$CTC" is 23 bytes; PKCS#7 pads to 24, hex doubles
    assert_eq!(48, value.len());
    assert_eq!(
        Err("rand must be 8 digits, got 100000000".to_string()),
        build_authenticator("u", "pw", "s", "i", "m", "t", 100_000_000)
    );
}

#[test]
fn mapping_numbers_follow_the_user_channel() {
    let mapping = parse_mixno_mapping(r#"{"channelMixnoMapping":"\"001\":u1,x:u2,7:u3"}"#);
    let numbers = user_channel_numbers(&mapping);
    assert_eq!(vec![("u1".to_string(), 1), ("u3".to_string(), 7)], numbers);
}

#[test]
fn channels_without_fields_are_skipped_and_other_kinds_ignored() {
    let html = r#"jsSetConfig('Other','ChannelID=x') jsSetConfig('Channel','') jsSetConfig("Channel", 'ChannelID = c2 , ChannelName="Two"')"#;
    let channels = parse_channels(html);
    assert_eq!(1, channels.len());
    assert_eq!("c2", channels[0].channel_id);
    assert_eq!("Two", channels[0].channel_name);
    assert_eq!("", channels[0].user_channel_id);
}

#[test]
fn programmes_are_read_from_entries_and_unreadable_times_skipped() {
    let entry = |code: &str, begin: Option<&str>, live: Option<&str>, back: Option<&str>| PrevueFields {
        prevuecode: Some(code.to_string()),
        prevuename: None,
        begintime: begin.map(str::to_string),
        endtime: Some("20260607090000".to_string()),
        is_live: live.map(str::to_string),
        is_back: back.map(str::to_string),
        is_record: None,
    };
    let programs = programs_from_entries(&vec![
        entry("p1", Some("20260607080000"), Some("1"), None),
        entry("p2", None, None, None),
        entry("p3", Some("bad"), None, None),
        entry("p4", Some("2026.06.07 08:30:00"), Some("0"), Some("1")),
    ]);
    assert_eq!(2, programs.len());
    assert_eq!("p1", programs[0].code);
    assert_eq!("", programs[0].name);
    assert!(programs[0].is_live && !programs[0].is_replayable);
    assert_eq!("p4", programs[1].code);
    assert_eq!("2026-06-07T08:30:00+08:00", programs[1].start);
    assert!(!programs[1].is_live && programs[1].is_replayable);
}
