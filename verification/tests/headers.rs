use reverse_proxy::headers::{
    get_header, is_hop_by_hop, sanitize_and_forward_headers, sanitize_header, strip_hop_by_hop,
    MAX_NAME_BYTES, MAX_VALUE_BYTES,
};

fn raw(name: &str, value: &str) -> (String, Vec<u8>) {
    (name.to_string(), value.as_bytes().to_vec())
}

fn text(name: &str, value: &str) -> (String, String) {
    (name.to_string(), value.to_string())
}

#[test]
fn hop_by_hop_names_in_any_case() {
    for name in [
        "connection", "keep-alive", "proxy-authenticate", "proxy-authorization", "te", "trailer",
        "transfer-encoding", "upgrade", "host", "Connection", "KEEP-ALIVE", "Transfer-Encoding",
        "hOsT", "TE",
    ] {
        assert!(is_hop_by_hop(name), "{}", name);
    }
    for name in ["", "accept", "hosts", "ho", "connection ", "x-connection", "t\u{212a}", "tê", "authorization"] {
        assert!(!is_hop_by_hop(name), "{}", name);
    }
}

#[test]
fn sanitize_drops_hop_by_hop_and_credentials() {
    let input = vec![
        raw("Host", "example.org"),
        raw("accept", "text/html"),
        raw("Connection", "keep-alive"),
        raw("authorization", "Bearer xyz"),
        raw("Proxy-Authorization", "Basic abc"),
        raw("x-trace", "ok"),
        raw("upgrade", "h2c"),
        raw("accept", "image/png"),
    ];
    assert_eq!(
        sanitize_and_forward_headers(&input),
        vec![text("accept", "text/html"), text("x-trace", "ok"), text("accept", "image/png")]
    );
    assert_eq!(sanitize_and_forward_headers(&Vec::new()), Vec::new());
}

#[test]
fn value_is_trimmed_of_ascii_whitespace_only() {
    assert_eq!(sanitize_header("x-a", b" \t padded\tvalue \t "), Some("padded\tvalue".to_string()));
    assert_eq!(sanitize_header("x-a", b"   "), Some(String::new()));
    assert_eq!(sanitize_header("x-a", b""), Some(String::new()));
    // a no-break space is no ASCII whitespace: it stays
    assert_eq!(
        sanitize_header("x-a", "\u{a0}v\u{a0}".as_bytes()),
        Some("\u{a0}v\u{a0}".to_string())
    );
    assert_eq!(sanitize_header("x-a", "grüße".as_bytes()), Some("grüße".to_string()));
}

#[test]
fn control_characters_drop_the_header() {
    assert_eq!(sanitize_header("x-a", b"a\x00b"), None);
    assert_eq!(sanitize_header("x-a", b"a\nb"), None);
    assert_eq!(sanitize_header("x-a", b"a\rb"), None);
    assert_eq!(sanitize_header("x-a", b"line\n"), None);
    assert_eq!(sanitize_header("x-a", b"a\x7fb"), None);
    assert_eq!(sanitize_header("x-a", b"a\x1fb"), None);
    assert_eq!(sanitize_header("x-a", "a\u{85}b".as_bytes()), None);
    assert_eq!(sanitize_header("x-a", "a\u{9f}b".as_bytes()), None);
    assert_eq!(sanitize_header("x-a", "a\u{a1}b".as_bytes()), Some("a\u{a1}b".to_string()));
    assert_eq!(sanitize_header("x-a", b"a\tb"), Some("a\tb".to_string()));
}

#[test]
fn invalid_utf8_drops_the_header() {
    assert_eq!(sanitize_header("x-a", &[0x61, 0xff, 0x62]), None);
    assert_eq!(sanitize_header("x-a", &[0xc3]), None);
    assert_eq!(sanitize_header("x-a", &[0xed, 0xa0, 0x80]), None);
}

#[test]
fn value_length_limit_is_sixteen_kib() {
    assert_eq!(MAX_VALUE_BYTES, 16 * 1024);
    let exact = vec![b'a'; 16 * 1024];
    assert_eq!(sanitize_header("x-a", &exact).map(|v| v.len()), Some(16 * 1024));
    let over = vec![b'a'; 16 * 1024 + 1];
    assert_eq!(sanitize_header("x-a", &over), None);
    // the limit is on the raw value, before trimming
    let mut padded = vec![b' '; 16 * 1024 + 1];
    padded[0] = b'a';
    assert_eq!(sanitize_header("x-a", &padded), None);
}

#[test]
fn name_length_and_shape() {
    assert_eq!(MAX_NAME_BYTES, 256);
    assert_eq!(sanitize_header("", b"v"), None);
    let exact = "n".repeat(256);
    assert_eq!(sanitize_header(&exact, b"v"), Some("v".to_string()));
    let over = "n".repeat(257);
    assert_eq!(sanitize_header(&over, b"v"), None);
    assert_eq!(sanitize_header("bad name", b"v"), None);
    assert_eq!(sanitize_header("bad:name", b"v"), None);
    assert_eq!(sanitize_header("näme", b"v"), None);
    assert_eq!(sanitize_header("x_ok-1.2!", b"v"), Some("v".to_string()));
    assert_eq!(sanitize_header("MiXed", b"v"), Some("v".to_string()));
}

#[test]
fn response_headers_lose_only_the_hop_by_hop_ones() {
    let input = vec![
        raw("content-type", "text/html"),
        raw("Transfer-Encoding", "chunked"),
        ("x-bin".to_string(), vec![0xff, 0x00]),
        raw("authorization", "kept on the way back"),
        raw("keep-alive", "timeout=5"),
        raw("set-cookie", "a=1"),
        raw("set-cookie", "b=2"),
    ];
    assert_eq!(
        strip_hop_by_hop(&input),
        vec![
            raw("content-type", "text/html"),
            ("x-bin".to_string(), vec![0xff, 0x00]),
            raw("authorization", "kept on the way back"),
            raw("set-cookie", "a=1"),
            raw("set-cookie", "b=2"),
        ]
    );
}

#[test]
fn get_header_finds_the_first_of_a_name() {
    let hs = vec![raw("a", "1"), raw("Cache-Control", "no-store"), raw("cache-control", "max-age=1")];
    assert_eq!(get_header(&hs, "cache-control"), Some(&b"no-store".to_vec()));
    assert_eq!(get_header(&hs, "CACHE-CONTROL"), Some(&b"no-store".to_vec()));
    assert_eq!(get_header(&hs, "A"), Some(&b"1".to_vec()));
    assert_eq!(get_header(&hs, "b"), None);
    assert_eq!(get_header(&Vec::new(), "a"), None);
}
