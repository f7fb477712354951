use reverse_proxy::config::{
    check_backend, if_positive, if_positive_or, validate_server, BackendField, RawConfig, RawProxy, RawServer, ServerFacts,
    TlsConfig, ValidationError, DEFAULT_BACKEND_TIMEOUT_SECS, DEFAULT_MAX_REQUEST_SIZE_BYTES,
};

fn proxy(backend: BackendField) -> RawProxy {
    RawProxy {
        backend,
        backend_timeout_secs: None,
        rate_limit_per_minute: None,
        rate_limit_burst: None,
        max_request_size_bytes: None,
        cache_ttl_secs: None,
        cache_max_size_bytes: None,
    }
}

fn server(backend: BackendField) -> RawServer {
    RawServer {
        listen: "127.0.0.1:8080".to_string(),
        static_dir: "/srv/www".to_string(),
        cert: None,
        key: None,
        proxy: proxy(backend),
    }
}

fn single(url: &str) -> BackendField {
    BackendField::Single(url.to_string())
}

fn good() -> ServerFacts {
    ServerFacts {
        listen_error: None,
        static_dir_exists: true,
        static_dir_is_dir: true,
        cert_exists: true,
        key_exists: true,
    }
}

fn fails(cfg: RawConfig, facts: Vec<ServerFacts>) -> String {
    match cfg.validate(&facts) {
        Ok(entries) => panic!("expected an error, got {:?}", entries),
        Err(e) => e.to_string(),
    }
}

#[test]
fn a_valid_server_gets_defaults_and_normalised_backends() {
    let cfg = RawConfig {
        servers: vec![server(BackendField::Multiple(vec![
            "http://a.test".to_string(),
            "HTTPS://B.test:443/base".to_string(),
        ]))],
    };
    let entries = cfg.validate(&vec![good()]).expect("valid");
    assert_eq!(entries.len(), 1);
    let e = &entries[0];
    assert_eq!(e.listen, "127.0.0.1:8080");
    assert_eq!(e.static_dir, "/srv/www");
    assert_eq!(e.backends, vec!["http://a.test/".to_string(), "https://b.test/base".to_string()]);
    assert!(e.tls.is_none());
    assert_eq!(e.backend_timeout_secs, 30);
    assert_eq!(e.backend_timeout_secs, DEFAULT_BACKEND_TIMEOUT_SECS);
    assert_eq!(e.max_request_size_bytes, 10 * 1024 * 1024);
    assert_eq!(e.max_request_size_bytes, DEFAULT_MAX_REQUEST_SIZE_BYTES);
    assert_eq!(e.rate_limit_per_minute, None);
    assert_eq!(e.cache_ttl_secs, None);
}

#[test]
fn configured_values_are_kept() {
    let mut s = server(single("http://a.test/"));
    s.cert = Some("/etc/cert.pem".to_string());
    s.key = Some("/etc/key.pem".to_string());
    s.proxy.backend_timeout_secs = Some(5);
    s.proxy.rate_limit_per_minute = Some(120);
    s.proxy.rate_limit_burst = Some(10);
    s.proxy.max_request_size_bytes = Some(1);
    s.proxy.cache_ttl_secs = Some(0);
    s.proxy.cache_max_size_bytes = Some(4096);
    let entries = RawConfig { servers: vec![s] }.validate(&vec![good()]).expect("valid");
    let e = &entries[0];
    let tls: &TlsConfig = e.tls.as_ref().unwrap();
    assert_eq!(tls.cert, "/etc/cert.pem");
    assert_eq!(tls.key, "/etc/key.pem");
    assert_eq!(e.backend_timeout_secs, 5);
    assert_eq!(e.rate_limit_per_minute, Some(120));
    assert_eq!(e.rate_limit_burst, Some(10));
    assert_eq!(e.max_request_size_bytes, 1);
    assert_eq!(e.cache_ttl_secs, Some(0));
    assert_eq!(e.cache_max_size_bytes, Some(4096));
}

#[test]
fn no_servers() {
    assert_eq!(fails(RawConfig { servers: Vec::new() }, Vec::new()), "no servers configured");
}

#[test]
fn invalid_listen_address() {
    let mut f = good();
    f.listen_error = Some("invalid socket address syntax".to_string());
    f.static_dir_exists = false;
    let cfg = RawConfig { servers: vec![server(single("http://a.test"))] };
    assert_eq!(fails(cfg, vec![f]), "invalid listen address: invalid socket address syntax");
}

#[test]
fn static_dir_problems() {
    let mut f = good();
    f.static_dir_exists = false;
    f.static_dir_is_dir = false;
    let cfg = RawConfig { servers: vec![server(single("http://a.test"))] };
    assert_eq!(fails(cfg, vec![f.clone()]), "static_dir does not exist: /srv/www");
    f.static_dir_exists = true;
    let cfg = RawConfig { servers: vec![server(single("http://a.test"))] };
    assert_eq!(fails(cfg, vec![f]), "static_dir is not a directory: /srv/www");
}

#[test]
fn tls_problems() {
    let mut s = server(single("http://a.test"));
    s.cert = Some("/c.pem".to_string());
    s.key = None;
    assert_eq!(
        fails(RawConfig { servers: vec![s] }, vec![good()]),
        "Both 'cert' and 'key' must be provided for TLS in server 'server[0] 127.0.0.1:8080'"
    );
    let mut s = server(single("http://a.test"));
    s.cert = None;
    s.key = Some("/k.pem".to_string());
    let e = validate_server(12, &s, &good()).unwrap_err();
    assert!(matches!(e, ValidationError::IncompleteTlsConfig(ref id) if id == "server[12] 127.0.0.1:8080"));
    let mut s = server(single("http://a.test"));
    s.cert = Some("/c.pem".to_string());
    s.key = Some("/k.pem".to_string());
    let mut f = good();
    f.cert_exists = false;
    f.key_exists = false;
    assert_eq!(validate_server(0, &s, &f).unwrap_err().to_string(), "TLS file not found: /c.pem");
    f.cert_exists = true;
    assert_eq!(validate_server(0, &s, &f).unwrap_err().to_string(), "TLS file not found: /k.pem");
}

#[test]
fn backend_problems() {
    let cfg = RawConfig { servers: vec![server(BackendField::Multiple(Vec::new()))] };
    assert_eq!(
        fails(cfg, vec![good()]),
        "no backends configured in [proxy] for server 'server[0] 127.0.0.1:8080'"
    );
    let cfg = RawConfig { servers: vec![server(single("not a url"))] };
    assert_eq!(
        fails(cfg, vec![good()]),
        "invalid backend URL 'not a url': relative URL without a base"
    );
    let cfg = RawConfig { servers: vec![server(single("ftp://files.test/"))] };
    assert_eq!(
        fails(cfg, vec![good()]),
        "unsupported backend scheme 'ftp', only http/https allowed"
    );
    let cfg = RawConfig {
        servers: vec![server(BackendField::Multiple(vec![
            "http://ok.test".to_string(),
            "http://[bad".to_string(),
            "ftp://later.test".to_string(),
        ]))],
    };
    assert_eq!(fails(cfg, vec![good()]), "invalid backend URL 'http://[bad': invalid IPv6 address");
}

#[test]
fn the_first_server_with_an_error_decides() {
    let mut bad_dir = good();
    bad_dir.static_dir_exists = false;
    let cfg = RawConfig {
        servers: vec![
            server(single("http://a.test")),
            server(single("http://b.test")),
            server(single("ftp://c.test")),
        ],
    };
    assert_eq!(fails(cfg, vec![good(), bad_dir, good()]), "static_dir does not exist: /srv/www");
    let mut tenth = Vec::new();
    let mut facts = Vec::new();
    for _ in 0..10 {
        tenth.push(server(single("http://a.test")));
        facts.push(good());
    }
    tenth.push(server(BackendField::Multiple(Vec::new())));
    facts.push(good());
    assert_eq!(
        fails(RawConfig { servers: tenth }, facts),
        "no backends configured in [proxy] for server 'server[10] 127.0.0.1:8080'"
    );
}

#[test]
fn check_backend_on_given_parses() {
    let ok = check_backend("x", Ok(("http://x.test/".to_string(), "http".to_string())));
    assert_eq!(ok.unwrap(), "http://x.test/");
    let ok = check_backend("x", Ok(("https://x.test/".to_string(), "https".to_string())));
    assert_eq!(ok.unwrap(), "https://x.test/");
    let e = check_backend("x", Ok(("ws://x.test/".to_string(), "ws".to_string()))).unwrap_err();
    assert!(matches!(e, ValidationError::UnsupportedBackendScheme(ref s) if s == "ws"));
    let e = check_backend("x", Ok(("HTTP://x.test/".to_string(), "HTTP".to_string()))).unwrap_err();
    assert!(matches!(e, ValidationError::UnsupportedBackendScheme(ref s) if s == "HTTP"));
    let e = check_backend("orig", Err("empty host".to_string())).unwrap_err();
    assert!(matches!(e, ValidationError::InvalidBackendUrl(ref u, ref m) if u == "orig" && m == "empty host"));
    assert_eq!(e.to_string(), "invalid backend URL 'orig': empty host");
}

#[test]
fn a_configured_zero_counts_as_not_configured() {
    let mut s = server(single("http://a.test/"));
    s.proxy.backend_timeout_secs = Some(0);
    s.proxy.max_request_size_bytes = Some(0);
    s.proxy.rate_limit_per_minute = Some(0);
    s.proxy.rate_limit_burst = Some(0);
    s.proxy.cache_ttl_secs = Some(0);
    s.proxy.cache_max_size_bytes = Some(0);
    let entries = RawConfig { servers: vec![s] }.validate(&vec![good()]).expect("valid");
    let e = &entries[0];
    assert_eq!(e.backend_timeout_secs, 30);
    assert_eq!(e.max_request_size_bytes, 10 * 1024 * 1024);
    assert_eq!(e.rate_limit_per_minute, None);
    assert_eq!(e.cache_max_size_bytes, None);
    // zero has a meaning of its own for these two, and stays
    assert_eq!(e.rate_limit_burst, Some(0));
    assert_eq!(e.cache_ttl_secs, Some(0));
}

#[test]
fn validated_entries_hold_positive_settings() {
    for (timeout, size, rate, bound) in [
        (None, None, None, None),
        (Some(0), Some(0), Some(0), Some(0)),
        (Some(1), Some(1), Some(1), Some(1)),
        (Some(u64::MAX), Some(u64::MAX), Some(u64::MAX), Some(u64::MAX)),
        (Some(0), Some(7), Some(0), Some(9)),
    ] {
        let mut s = server(BackendField::Multiple(vec![
            "http://a.test/".to_string(),
            "https://b.test/".to_string(),
        ]));
        s.proxy.backend_timeout_secs = timeout;
        s.proxy.max_request_size_bytes = size;
        s.proxy.rate_limit_per_minute = rate;
        s.proxy.cache_max_size_bytes = bound;
        let e = validate_server(0, &s, &good()).expect("valid");
        assert!(e.backend_timeout_secs > 0);
        assert!(e.max_request_size_bytes > 0);
        assert!(e.rate_limit_per_minute.map_or(true, |p| p > 0));
        assert!(e.cache_max_size_bytes.map_or(true, |m| m > 0));
        assert_eq!(e.backends.len(), 2);
        if let Some(t) = timeout.filter(|t| *t > 0) {
            assert_eq!(e.backend_timeout_secs, t);
        }
        if let Some(n) = size.filter(|n| *n > 0) {
            assert_eq!(e.max_request_size_bytes, n);
        }
        assert_eq!(e.rate_limit_per_minute, rate.filter(|p| *p > 0));
        assert_eq!(e.cache_max_size_bytes, bound.filter(|m| *m > 0));
    }
}

#[test]
fn positive_or_default() {
    assert_eq!(if_positive(None), None);
    assert_eq!(if_positive(Some(0)), None);
    assert_eq!(if_positive(Some(1)), Some(1));
    assert_eq!(if_positive_or(None, 30), 30);
    assert_eq!(if_positive_or(Some(0), 30), 30);
    assert_eq!(if_positive_or(Some(5), 30), 5);
}
