use atv_iptv_proxy::backend::{backend_channels, BackendChannel};
use atv_iptv_proxy::stream::StreamProxyConfig;

fn from_json(text: &str) -> Vec<BackendChannel> {
    let value: serde_json::Value = serde_json::from_str(text).unwrap();
    value
        .as_array()
        .unwrap()
        .iter()
        .map(|v| BackendChannel {
            number: v["number"].as_u64().unwrap() as u32,
            name: v["name"].as_str().unwrap().to_string(),
            stream_url: v["streamUrl"].as_str().unwrap().to_string(),
            channel_code: v["channelCode"].as_str().map(str::to_string),
        })
        .collect()
}

#[test]
fn parses_and_rewrites_backend_channels() {
    let cfg = StreamProxyConfig {
        udpxy_base_url: Some("openwrt:4022".into()),
    };
    let channels = backend_channels(
        from_json(
            r#"[{"number":1,"name":"CCTV-1","streamUrl":"igmp://239.0.0.1:8000","channelCode":"ch1"}]"#,
        ),
        &cfg,
    )
    .unwrap();
    assert_eq!(
        "http://openwrt:4022/udp/239.0.0.1:8000",
        channels[0].stream_url
    );
    assert_eq!(Some("ch1".to_string()), channels[0].channel_code);
}

#[test]
fn backend_fails_on_the_first_multicast_channel_without_udpxy() {
    let cfg = StreamProxyConfig {
        udpxy_base_url: None,
    };
    let err = backend_channels(
        from_json(
            r#"[{"number":1,"name":"A","streamUrl":"http://a"},{"number":2,"name":"B","streamUrl":"rtp://239.0.0.2:1"},{"number":3,"name":"C","streamUrl":"igmp://239.0.0.3:1"}]"#,
        ),
        &cfg,
    )
    .unwrap_err();
    assert_eq!("udpxy is required for multicast stream rtp://239.0.0.2:1", err);
}
