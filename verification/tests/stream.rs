use atv_iptv_proxy::stream::{resolve_stream_url, StreamProxyConfig, StreamResolveError};

#[test]
fn rewrites_igmp_through_udpxy() {
    let cfg = StreamProxyConfig {
        udpxy_base_url: Some("openwrt:4022".into()),
    };
    assert_eq!(
        "http://openwrt:4022/udp/239.1.1.1:8000",
        resolve_stream_url("igmp://239.1.1.1:8000", &cfg).unwrap()
    );
}

#[test]
fn rewrites_rtp_and_tolerates_scheme_and_slash() {
    let cfg = StreamProxyConfig {
        udpxy_base_url: Some("http://openwrt:4022/".into()),
    };
    assert_eq!(
        "http://openwrt:4022/udp/239.1.1.2:8000",
        resolve_stream_url("rtp://239.1.1.2:8000", &cfg).unwrap()
    );
}

#[test]
fn passes_http_through() {
    let cfg = StreamProxyConfig::default();
    assert_eq!(
        "http://example.test/live.m3u8",
        resolve_stream_url("http://example.test/live.m3u8", &cfg).unwrap()
    );
}

#[test]
fn multicast_without_udpxy_is_error() {
    let err =
        resolve_stream_url("igmp://239.1.1.1:8000", &StreamProxyConfig::default()).unwrap_err();
    assert!(err.message().contains("udpxy"));
}

#[test]
fn multicast_scheme_is_matched_in_any_case_and_blank_udpxy_counts_as_missing() {
    let cfg = StreamProxyConfig {
        udpxy_base_url: Some("https://relay/".into()),
    };
    assert_eq!(
        "https://relay/udp/239.0.0.9:1234",
        resolve_stream_url("IGMP://239.0.0.9:1234", &cfg).unwrap()
    );
    let blank = StreamProxyConfig {
        udpxy_base_url: Some("  / ".into()),
    };
    let err = resolve_stream_url("rtp://239.0.0.9:1234", &blank).unwrap_err();
    assert_eq!(
        "udpxy is required for multicast stream rtp://239.0.0.9:1234",
        err.message()
    );
    let empty = StreamProxyConfig {
        udpxy_base_url: Some("".into()),
    };
    assert_eq!(
        Err(StreamResolveError::MissingUdpxy {
            source_url: "igmp://239.1.1.1:8000".to_string()
        }),
        resolve_stream_url("igmp://239.1.1.1:8000", &empty)
    );
    assert_eq!(
        "http://keep-me",
        resolve_stream_url("http://keep-me", &empty).unwrap()
    );
}
