use atv_iptv_proxy::cache::{Channel, ChannelCache, EpgCache, EpgCacheKey, Program};

#[test]
fn freshness_tracks_ttl() {
    let mut cache = ChannelCache::default();
    cache.update(
        vec![Channel {
            number: 1,
            name: "A".into(),
            stream_url: "http://x".into(),
            channel_code: None,
        }],
        100,
    );
    assert!(cache.is_fresh(10, 109));
    assert!(!cache.is_fresh(10, 111));
}

#[test]
fn epg_cache_tracks_keys_and_stale_response() {
    let mut cache = EpgCache::default();
    let key = EpgCacheKey {
        channel_code: "ch1".into(),
        date_offset: 0,
    };
    cache.update(
        key.clone(),
        vec![Program {
            code: "p1".into(),
            name: "News".into(),
            start: "2026-06-07T08:00:00+08:00".into(),
            end: "2026-06-07T09:00:00+08:00".into(),
            is_live: true,
            is_replayable: false,
        }],
        100,
    );

    assert!(cache.is_fresh(&key, 10, 109));
    assert!(!cache.is_fresh(&key, 10, 111));
    let resp = cache.response(&key, 10, true).unwrap();
    assert!(resp.cache.stale);
    assert_eq!("p1", resp.data[0].code);
}

#[test]
fn empty_channel_cache_gives_no_response_and_is_not_fresh() {
    let cache = ChannelCache::default();
    assert!(cache.response(60, false).is_none());
    assert!(!cache.is_fresh(60, 0));
}

#[test]
fn channel_response_carries_cache_metadata() {
    let mut cache = ChannelCache::default();
    cache.update(
        vec![Channel {
            number: 7,
            name: "B".into(),
            stream_url: "http://b".into(),
            channel_code: Some("b".into()),
        }],
        50,
    );
    let resp = cache.response(30, true).unwrap();
    assert!(resp.cache.stale);
    assert_eq!(50, resp.cache.cached_at);
    assert_eq!(30, resp.cache.ttl_seconds);
    assert_eq!(7, resp.data[0].number);
}

#[test]
fn epg_cache_keeps_keys_apart_and_replaces_on_update() {
    let mut cache = EpgCache::default();
    let today = EpgCacheKey { channel_code: "ch1".into(), date_offset: 0 };
    let tomorrow = EpgCacheKey { channel_code: "ch1".into(), date_offset: 1 };
    let program = |code: &str| Program {
        code: code.into(),
        name: "N".into(),
        start: "s".into(),
        end: "e".into(),
        is_live: false,
        is_replayable: false,
    };
    cache.update(today.clone(), vec![program("a")], 10);
    assert!(cache.response(&tomorrow, 60, false).is_none());
    cache.update(today.clone(), vec![program("b")], 20);
    let resp = cache.response(&today, 60, false).unwrap();
    assert_eq!(1, resp.data.len());
    assert_eq!("b", resp.data[0].code);
    assert_eq!(20, resp.cache.cached_at);
}
