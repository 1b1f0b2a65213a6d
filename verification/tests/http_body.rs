use atv_iptv_proxy::http_body::{charset_from_content_type, decode_bytes, encoding_from_bom};
use encoding_rs::Encoding;

#[test]
fn detects_charset_from_content_type() {
    assert_eq!(
        Some("gbk".to_string()),
        charset_from_content_type("application/json; charset=GBK")
    );
    assert_eq!(
        Some("utf-8".to_string()),
        charset_from_content_type("text/html; charset=\"UTF-8\"")
    );
}

#[test]
fn decodes_utf8_when_valid_without_header() {
    let (text, encoding) = decode_bytes("新闻".as_bytes(), None);
    assert_eq!("新闻", text);
    assert_eq!("utf-8", encoding.label);
    assert_eq!("utf8-valid", encoding.source);
    assert!(!encoding.had_errors);
}

#[test]
fn decodes_declared_gbk() {
    let gbk = Encoding::for_label(b"gbk").unwrap();
    let (bytes, _, _) = gbk.encode("新闻");
    let (text, encoding) = decode_bytes(&bytes, Some("application/json; charset=gbk"));
    assert_eq!("新闻", text);
    assert_eq!("gbk", encoding.label);
    assert_eq!("content-type", encoding.source);
    assert!(!encoding.had_errors);
}

#[test]
fn falls_back_to_gb18030_when_utf8_is_invalid() {
    let gb18030 = Encoding::for_label(b"gb18030").unwrap();
    let (bytes, _, _) = gb18030.encode("新闻");
    let (text, encoding) = decode_bytes(&bytes, None);
    assert_eq!("新闻", text);
    assert_eq!("gb18030", encoding.label);
    assert_eq!("utf8-invalid-fallback", encoding.source);
}

#[test]
fn byte_order_marks_choose_the_encoding() {
    assert_eq!(Some(("utf-8", 3)), encoding_from_bom(&[0xef, 0xbb, 0xbf, b'a']));
    assert_eq!(Some(("utf-16le", 2)), encoding_from_bom(&[0xff, 0xfe]));
    assert_eq!(Some(("utf-16be", 2)), encoding_from_bom(&[0xfe, 0xff, 0]));
    assert_eq!(None, encoding_from_bom(b"ab"));
    let (text, encoding) = decode_bytes(&[0xef, 0xbb, 0xbf, b'h', b'i'], Some("text/plain; charset=gbk"));
    assert_eq!("hi", text);
    assert_eq!("utf-8", encoding.label);
    assert_eq!("bom", encoding.source);
}

#[test]
fn unknown_or_missing_charset_falls_through() {
    assert_eq!(None, charset_from_content_type("text/html"));
    assert_eq!(
        Some("x-unknown".to_string()),
        charset_from_content_type("text/html; CharSet = 'X-Unknown' ")
    );
    let (text, encoding) = decode_bytes(b"plain", Some("text/html; charset=x-unknown"));
    assert_eq!("plain", text);
    assert_eq!("utf8-valid", encoding.source);
}
