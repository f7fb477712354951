use reverse_proxy::cache::CacheEntry;
use reverse_proxy::config::ConfigEntry;
use reverse_proxy::proxy::{
    cache_key, can_be_sent, check_rate_limit, client_ip, expires_at, forwarded_for_candidate,
    proxy_handler, replay_entry,
    AppState, BodyRead, Decision, Inbound, Relay, Reply, Upstream,
};
use reverse_proxy::rate::ClientIp;

const SECOND: u64 = 1_000_000_000;

fn raw(name: &str, value: &str) -> (String, Vec<u8>) {
    (name.to_string(), value.as_bytes().to_vec())
}

fn get(path: &str, peer: u32) -> Inbound {
    Inbound {
        method: "GET".to_string(),
        uri: path.to_string(),
        path_and_query: Some(path.to_string()),
        headers: vec![raw("accept", "*/*")],
        peer: Some(ClientIp::V4(peer)),
    }
}

fn two_backends() -> Vec<String> {
    vec!["http://b0.test/".to_string(), "http://b1.test/".to_string()]
}

fn forwarded_to(d: &Decision) -> (usize, String) {
    match d {
        Decision::Forward { backend, url, .. } => (*backend, url.clone()),
        other => panic!("expected a forward, got {:?}", other),
    }
}

#[test]
fn five_requests_alternate_between_two_backends() {
    let mut state = AppState::new(two_backends(), 30, None, None, None, None);
    let mut seen = Vec::new();
    for i in 0..5u32 {
        let d = proxy_handler(&mut state, &get("/", 10 + i), (i as u64) * SECOND);
        seen.push(forwarded_to(&d));
    }
    let backends: Vec<usize> = seen.iter().map(|s| s.0).collect();
    assert_eq!(backends, vec![0, 1, 0, 1, 0]);
    assert_eq!(seen[0].1, "http://b0.test/");
    assert_eq!(seen[1].1, "http://b1.test/");
}

#[test]
fn second_request_within_the_second_is_limited() {
    let mut state = AppState::new(two_backends(), 30, Some(60), Some(1), None, None);
    let ip = 0x0a00_0001;
    // a first sighting creates an empty bucket; let one token accrue
    assert!(matches!(proxy_handler(&mut state, &get("/", ip), 0), Decision::Reject { status: 429 }));
    let t0 = SECOND;
    assert!(matches!(proxy_handler(&mut state, &get("/", ip), t0), Decision::Forward { .. }));
    assert!(matches!(
        proxy_handler(&mut state, &get("/", ip), t0 + SECOND / 2),
        Decision::Reject { status: 429 }
    ));
    assert!(matches!(
        proxy_handler(&mut state, &get("/", ip), t0 + 3 * SECOND / 2),
        Decision::Forward { .. }
    ));
}

#[test]
fn rate_limit_is_per_client() {
    let mut state = AppState::new(two_backends(), 30, Some(60), Some(1), None, None);
    let none = Vec::new();
    assert!(check_rate_limit(&mut state, &none, Some(ClientIp::V4(1)), 0).is_err());
    assert!(check_rate_limit(&mut state, &none, Some(ClientIp::V4(1)), SECOND).is_ok());
    // another client has its own, still empty, bucket
    assert_eq!(check_rate_limit(&mut state, &none, Some(ClientIp::V4(2)), SECOND), Err(429));
    // an address and its IPv6 namesake are different clients
    assert_eq!(check_rate_limit(&mut state, &none, Some(ClientIp::V6(1)), 2 * SECOND), Err(429));
    assert!(check_rate_limit(&mut state, &none, Some(ClientIp::V4(2)), 2 * SECOND).is_ok());
}

#[test]
fn forwarded_address_is_charged_before_the_peer() {
    let mut state = AppState::new(two_backends(), 30, Some(60), Some(5), None, None);
    let fwd = vec![raw("x-forwarded-for", " 0.0.0.7 , 10.1.1.1")];
    let none = Vec::new();
    let peer = Some(ClientIp::V4(8));
    assert_eq!(client_ip(&fwd, peer), Some(ClientIp::V4(7)));
    assert!(check_rate_limit(&mut state, &fwd, peer, 0).is_err());
    // ten seconds later the forwarded address has tokens; the peer was never seen
    assert!(check_rate_limit(&mut state, &fwd, peer, 10 * SECOND).is_ok());
    assert!(check_rate_limit(&mut state, &none, peer, 10 * SECOND).is_err());
    // the forwarded address and the same address as a peer are one client
    assert!(check_rate_limit(&mut state, &none, Some(ClientIp::V4(7)), 10 * SECOND).is_ok());
}

#[test]
fn a_forwarded_header_that_names_no_address_leaves_the_peer() {
    let peer = Some(ClientIp::V6(9));
    for value in ["", "   ", "unknown", "1.2.3", ",1.2.3.4", "1.2.3.4:80", "[::1]", "01.2.3.4"] {
        assert_eq!(client_ip(&vec![raw("X-Forwarded-For", value)], peer), peer, "{:?}", value);
        assert_eq!(client_ip(&vec![raw("X-Forwarded-For", value)], None), None, "{:?}", value);
    }
    assert_eq!(client_ip(&vec![("x-forwarded-for".to_string(), vec![0xff])], peer), peer);
    assert_eq!(client_ip(&vec![raw("x-forwarded-for", "::1")], peer), Some(ClientIp::V6(1)));
    assert_eq!(
        client_ip(&vec![raw("x-forwarded-for", "junk"), raw("x-forwarded-for", "1.1.1.1")], peer),
        peer
    );
    assert_eq!(client_ip(&vec![raw("forwarded", "for=1.1.1.1")], peer), peer);
}

#[test]
fn requests_without_an_address_are_admitted() {
    let mut state = AppState::new(two_backends(), 30, Some(1), Some(1), None, None);
    for _ in 0..10 {
        assert!(check_rate_limit(&mut state, &Vec::new(), None, 0).is_ok());
    }
}

#[test]
fn without_a_rate_everything_is_admitted() {
    let mut state = AppState::new(two_backends(), 30, None, Some(1), None, None);
    for _ in 0..10 {
        assert!(check_rate_limit(&mut state, &Vec::new(), Some(ClientIp::V4(1)), 0).is_ok());
    }
}

#[test]
fn zero_burst_falls_back_to_the_rate() {
    let mut state = AppState::new(two_backends(), 30, Some(120), Some(0), None, None);
    let who = Some(ClientIp::V4(1));
    assert!(check_rate_limit(&mut state, &Vec::new(), who, 0).is_err());
    // after an hour the bucket is full: 120 tokens, not zero
    let mut admitted = 0;
    for _ in 0..200 {
        if check_rate_limit(&mut state, &Vec::new(), who, 3600 * SECOND).is_ok() {
            admitted += 1;
        }
    }
    assert_eq!(admitted, 120);
}

#[test]
fn no_backends_gives_502() {
    let mut state = AppState::new(Vec::new(), 30, Some(60), None, Some(60), None);
    assert!(matches!(proxy_handler(&mut state, &get("/", 1), 0), Decision::Reject { status: 502 }));
}

fn respond(state: &mut AppState, d: Decision, headers: Vec<(String, Vec<u8>)>, body: &str, now: u64) -> Reply {
    let key = match d {
        Decision::Forward { cache_key, .. } => cache_key,
        other => panic!("expected a forward, got {:?}", other),
    };
    match state.relay("GET", Upstream::Responded { status: 200, headers }) {
        Relay::Buffer { status, headers, ttl } => {
            state.finish(key, status, headers, ttl, BodyRead::Complete(body.as_bytes().to_vec()), now)
        }
        other => panic!("expected buffering, got {:?}", other),
    }
}

#[test]
fn second_get_is_served_from_the_cache() {
    let mut state = AppState::new(two_backends(), 30, None, None, Some(60), None);
    let first = proxy_handler(&mut state, &get("/x", 1), 0);
    assert_eq!(forwarded_to(&first).0, 0);
    let reply = respond(&mut state, first, vec![raw("content-type", "text/plain")], "hello", 0);
    match reply {
        Reply::Buffered { status, body, .. } => {
            assert_eq!(status, 200);
            assert_eq!(body, b"hello".to_vec());
        }
        other => panic!("unexpected {:?}", other),
    }
    match proxy_handler(&mut state, &get("/x", 2), 59 * SECOND) {
        Decision::Cached { status, headers, body } => {
            assert_eq!(status, 200);
            assert_eq!(headers, vec![raw("content-type", "text/plain")]);
            assert_eq!(body, b"hello".to_vec());
        }
        other => panic!("expected a cached answer, got {:?}", other),
    }
    // a hit does not move the round robin on: the next miss goes to backend 1
    assert_eq!(forwarded_to(&proxy_handler(&mut state, &get("/other", 2), 59 * SECOND)).0, 1);
    // at sixty seconds the entry is stale
    assert!(matches!(proxy_handler(&mut state, &get("/x", 2), 60 * SECOND), Decision::Forward { .. }));
    assert_eq!(state.response_cache.as_ref().unwrap().current_size(), 0);
}

#[test]
fn no_store_is_never_cached() {
    let mut state = AppState::new(two_backends(), 30, None, None, Some(60), None);
    for _ in 0..2 {
        let d = proxy_handler(&mut state, &get("/y", 1), 0);
        assert!(matches!(d, Decision::Forward { .. }));
        let relay = state.relay(
            "GET",
            Upstream::Responded { status: 200, headers: vec![raw("cache-control", "no-store")] },
        );
        assert!(matches!(relay, Relay::Stream { status: 200, .. }));
    }
}

#[test]
fn upstream_timeout_gives_504_and_failure_502() {
    let state = AppState::new(two_backends(), 1, None, None, Some(60), None);
    assert!(matches!(state.relay("GET", Upstream::TimedOut), Relay::Fail { status: 504 }));
    assert!(matches!(state.relay("GET", Upstream::Failed), Relay::Fail { status: 502 }));
}

#[test]
fn body_read_failure_gives_502_and_stores_nothing() {
    let mut state = AppState::new(two_backends(), 30, None, None, Some(60), None);
    let reply = state.finish("GET /z".to_string(), 200, Vec::new(), 60, BodyRead::Failed, 0);
    assert!(matches!(reply, Reply::Fail { status: 502 }));
    assert!(matches!(proxy_handler(&mut state, &get("/z", 1), 1), Decision::Forward { .. }));
}

#[test]
fn authorization_is_dropped_and_trace_is_kept() {
    let mut state = AppState::new(two_backends(), 30, None, None, None, None);
    let mut req = get("/", 1);
    req.headers = vec![raw("Authorization", "Bearer xyz"), raw("X-Trace", "ok")];
    match proxy_handler(&mut state, &req, 0) {
        Decision::Forward { headers, .. } => {
            assert_eq!(headers, vec![("X-Trace".to_string(), "ok".to_string())]);
        }
        other => panic!("expected a forward, got {:?}", other),
    }
}

#[test]
fn empty_path_is_joined_as_root() {
    let mut state = AppState::new(vec!["http://b0.test/api/".to_string()], 30, None, None, None, None);
    let mut req = get("", 1);
    req.path_and_query = None;
    assert_eq!(forwarded_to(&proxy_handler(&mut state, &req, 0)).1, "http://b0.test/");
    req.path_and_query = Some(String::new());
    assert_eq!(forwarded_to(&proxy_handler(&mut state, &req, 0)).1, "http://b0.test/");
    req.path_and_query = Some("/v1/items?q=a%20b&r=1".to_string());
    assert_eq!(forwarded_to(&proxy_handler(&mut state, &req, 0)).1, "http://b0.test/v1/items?q=a%20b&r=1");
}

#[test]
fn a_backend_that_is_no_url_gives_500() {
    let mut state = AppState::new(vec!["not a url".to_string()], 30, None, None, None, None);
    assert!(matches!(proxy_handler(&mut state, &get("/", 1), 0), Decision::Reject { status: 500 }));
}

#[test]
fn cache_key_is_method_space_target() {
    assert_eq!(cache_key("GET", "/a?b=c"), "GET /a?b=c");
    assert_eq!(cache_key("", ""), " ");
}

#[test]
fn expiry_is_now_plus_seconds_and_saturates() {
    assert_eq!(expires_at(5, 60), 5 + 60 * SECOND);
    assert_eq!(expires_at(0, 0), 0);
    assert_eq!(expires_at(u64::MAX - 1, 1), u64::MAX);
    assert_eq!(expires_at(0, u64::MAX), u64::MAX);
    assert_eq!(expires_at(u64::MAX - SECOND, 1), u64::MAX);
}

#[test]
fn forwarded_for_takes_the_first_token_trimmed() {
    let h = vec![raw("accept", "*/*"), raw("X-Forwarded-For", "  203.0.113.7 , 10.0.0.1"), raw("x-forwarded-for", "9.9.9.9")];
    assert_eq!(forwarded_for_candidate(&h), Some("203.0.113.7".to_string()));
    assert_eq!(forwarded_for_candidate(&vec![raw("x-forwarded-for", "   ")]), Some(String::new()));
    assert_eq!(forwarded_for_candidate(&vec![raw("x-forwarded-for", ",1.1.1.1")]), Some(String::new()));
    assert_eq!(forwarded_for_candidate(&vec![raw("accept", "x")]), None);
    assert_eq!(forwarded_for_candidate(&vec![("x-forwarded-for".to_string(), vec![0xff, 0xfe])]), None);
    assert_eq!(
        forwarded_for_candidate(&vec![raw("x-forwarded-for", "\u{2003}::1\u{a0},x")]),
        Some("::1".to_string())
    );
}

#[test]
fn only_get_with_200_is_buffered() {
    let state = AppState::new(two_backends(), 30, None, None, Some(60), None);
    let ok = |status| Upstream::Responded { status, headers: vec![raw("connection", "close"), raw("etag", "1")] };
    assert!(matches!(state.relay("GET", ok(200)), Relay::Buffer { status: 200, ttl: 60, .. }));
    assert!(matches!(state.relay("get", ok(200)), Relay::Stream { .. }));
    assert!(matches!(state.relay("POST", ok(200)), Relay::Stream { .. }));
    assert!(matches!(state.relay("GET", ok(201)), Relay::Stream { status: 201, .. }));
    assert!(matches!(state.relay("GET", ok(301)), Relay::Stream { status: 301, .. }));
    assert!(matches!(state.relay("GET", ok(99)), Relay::Fail { status: 500 }));
    assert!(matches!(state.relay("GET", ok(1000)), Relay::Fail { status: 500 }));
    match state.relay("GET", ok(404)) {
        Relay::Stream { headers, .. } => assert_eq!(headers, vec![raw("etag", "1")]),
        other => panic!("unexpected {:?}", other),
    }
    let uncached = AppState::new(two_backends(), 30, None, None, None, None);
    assert!(matches!(uncached.relay("GET", ok(200)), Relay::Stream { .. }));
    let zero = AppState::new(two_backends(), 30, None, None, Some(0), None);
    assert!(zero.response_cache.is_none());
    assert!(matches!(zero.relay("GET", ok(200)), Relay::Stream { .. }));
}

#[test]
fn cache_control_decides_the_time_to_live() {
    let state = AppState::new(two_backends(), 30, None, None, Some(60), None);
    let with = |v: &str| Upstream::Responded { status: 200, headers: vec![raw("Cache-Control", v)] };
    assert!(matches!(state.relay("GET", with("max-age=5")), Relay::Buffer { ttl: 5, .. }));
    assert!(matches!(state.relay("GET", with("max-age=5, s-maxage=7")), Relay::Buffer { ttl: 7, .. }));
    assert!(matches!(state.relay("GET", with("max-age=0")), Relay::Stream { .. }));
    assert!(matches!(state.relay("GET", with("s-maxage=10, no-store")), Relay::Stream { .. }));
    assert!(matches!(state.relay("GET", with("no-cache")), Relay::Stream { .. }));
    assert!(matches!(state.relay("GET", with("max-age=abc")), Relay::Buffer { ttl: 60, .. }));
    assert!(matches!(state.relay("GET", with("public")), Relay::Buffer { ttl: 60, .. }));
}

#[test]
fn cached_answers_must_be_sendable() {
    let entry = CacheEntry {
        status: 200,
        headers: vec![
            raw("content-type", "text/plain"),
            ("x-latin".to_string(), vec![0xe9]),
            raw("x-tab", "a\tb"),
        ],
        body: b"body".to_vec(),
        expires_at: 10,
        size: 4,
    };
    match replay_entry(entry.clone()) {
        Decision::Cached { status, headers, body } => {
            assert_eq!(status, 200);
            assert_eq!(headers, entry.headers);
            assert_eq!(body, b"body".to_vec());
        }
        other => panic!("unexpected {:?}", other),
    }
    for bad in [
        raw("bad name", "v"),
        ("x-nul".to_string(), vec![b'a', 0, b'b']),
        raw("", "empty name"),
        ("x-del".to_string(), vec![0x7f]),
        raw("x-line", "a\nb"),
        raw("näme", "v"),
    ] {
        let mut odd = entry.clone();
        odd.headers.push(bad.clone());
        assert!(!can_be_sent(&odd.headers), "{:?}", bad);
        assert!(matches!(replay_entry(odd), Decision::Reject { status: 500 }), "{:?}", bad);
    }
    for status in [0, 99, 1000, u16::MAX] {
        let mut odd = entry.clone();
        odd.status = status;
        assert!(matches!(replay_entry(odd), Decision::Reject { status: 500 }));
    }
    assert!(can_be_sent(&Vec::new()));
}

#[test]
fn responses_that_cannot_be_sent_give_500() {
    let mut state = AppState::new(two_backends(), 30, None, None, Some(60), None);
    let odd = Upstream::Responded { status: 200, headers: vec![raw("bad name", "v")] };
    assert!(matches!(state.relay("GET", odd), Relay::Fail { status: 500 }));
    // a header that is dropped on the way back does no harm
    let dropped = Upstream::Responded {
        status: 200,
        headers: vec![("connection".to_string(), vec![0])],
    };
    assert!(matches!(state.relay("GET", dropped), Relay::Buffer { .. }));
    let reply = state.finish(
        "GET /q".to_string(),
        200,
        vec![("x".to_string(), vec![0])],
        60,
        BodyRead::Complete(b"abc".to_vec()),
        0,
    );
    assert!(matches!(reply, Reply::Fail { status: 500 }));
    let reply = state.finish("GET /q".to_string(), 42, Vec::new(), 60, BodyRead::Complete(Vec::new()), 0);
    assert!(matches!(reply, Reply::Fail { status: 500 }));
    // a body that was not read comes first
    let reply = state.finish("GET /q".to_string(), 42, Vec::new(), 60, BodyRead::Failed, 0);
    assert!(matches!(reply, Reply::Fail { status: 502 }));
    // nothing of this was stored
    assert!(matches!(proxy_handler(&mut state, &get("/q", 1), 1), Decision::Forward { .. }));
    assert_eq!(state.response_cache.as_ref().unwrap().current_size(), 0);
}

#[test]
fn state_from_a_validated_entry() {
    let entry = ConfigEntry {
        listen: "127.0.0.1:80".to_string(),
        static_dir: "/srv".to_string(),
        backends: two_backends(),
        tls: None,
        backend_timeout_secs: 7,
        rate_limit_per_minute: Some(60),
        rate_limit_burst: None,
        max_request_size_bytes: 1024,
        cache_ttl_secs: Some(30),
        cache_max_size_bytes: Some(u64::MAX),
    };
    let mut state = AppState::from_config(&entry);
    assert_eq!(state.backends, two_backends());
    assert_eq!(state.backend_timeout_secs, 7);
    assert_eq!(state.cache_ttl_secs, Some(30));
    assert!(state.response_cache.is_some());
    // the burst falls back to the rate: sixty tokens after a long wait
    assert!(check_rate_limit(&mut state, &Vec::new(), Some(ClientIp::V4(1)), 0).is_err());
    let mut admitted = 0;
    for _ in 0..100 {
        if check_rate_limit(&mut state, &Vec::new(), Some(ClientIp::V4(1)), 600 * SECOND).is_ok() {
            admitted += 1;
        }
    }
    assert_eq!(admitted, 60);
    let mut off = entry;
    off.cache_ttl_secs = None;
    assert!(AppState::from_config(&off).response_cache.is_none());
}

#[test]
fn eviction_through_the_pipeline_keeps_the_bound() {
    let mut state = AppState::new(two_backends(), 30, None, None, Some(60), Some(10));
    for (i, path) in ["/a", "/b", "/c"].iter().enumerate() {
        let d = proxy_handler(&mut state, &get(path, 1), i as u64);
        respond(&mut state, d, Vec::new(), "12345", i as u64);
        assert!(state.response_cache.as_ref().unwrap().current_size() <= 10);
    }
    // fifteen bytes did not fit: the oldest response is gone, the others stay
    assert!(matches!(proxy_handler(&mut state, &get("/a", 1), 3), Decision::Forward { .. }));
    assert!(matches!(proxy_handler(&mut state, &get("/b", 1), 3), Decision::Cached { .. }));
    assert!(matches!(proxy_handler(&mut state, &get("/c", 1), 3), Decision::Cached { .. }));
}

#[test]
fn a_state_from_a_zero_rate_limits_nothing() {
    let entry = ConfigEntry {
        listen: "127.0.0.1:80".to_string(),
        static_dir: "/srv".to_string(),
        backends: two_backends(),
        tls: None,
        backend_timeout_secs: 30,
        rate_limit_per_minute: None,
        rate_limit_burst: Some(0),
        max_request_size_bytes: 1024,
        cache_ttl_secs: Some(60),
        cache_max_size_bytes: None,
    };
    let mut state = AppState::from_config(&entry);
    for i in 0..20 {
        assert!(matches!(proxy_handler(&mut state, &get("/", 1), i), Decision::Forward { .. }));
    }
}

#[test]
fn a_stored_response_counts_for_its_body() {
    let mut state = AppState::new(two_backends(), 30, None, None, Some(60), Some(1000));
    let d = proxy_handler(&mut state, &get("/size", 1), 0);
    respond(&mut state, d, vec![raw("content-type", "text/plain")], "twelve bytes", 0);
    assert_eq!(state.response_cache.as_ref().unwrap().current_size(), 12);
}

#[test]
fn a_state_never_holds_a_zero_setting() {
    let mut state = AppState::new(two_backends(), 0, Some(0), Some(3), Some(60), Some(0));
    assert_eq!(state.backend_timeout_secs, 30);
    // a rate of zero limits nothing
    for i in 0..10 {
        assert!(check_rate_limit(&mut state, &Vec::new(), Some(ClientIp::V4(1)), i).is_ok());
    }
    // a bound of zero evicts nothing
    for (i, path) in ["/a", "/b", "/c"].iter().enumerate() {
        let d = proxy_handler(&mut state, &get(path, 1), i as u64);
        respond(&mut state, d, Vec::new(), "0123456789", i as u64);
    }
    assert_eq!(state.response_cache.as_ref().unwrap().current_size(), 30);
    assert!(matches!(proxy_handler(&mut state, &get("/a", 1), 5), Decision::Cached { .. }));
    let kept = AppState::new(two_backends(), 7, Some(9), None, None, Some(11));
    assert_eq!(kept.backend_timeout_secs, 7);
}
