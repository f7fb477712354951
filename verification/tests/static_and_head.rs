use reverse_proxy::req::{
    ends_head, parse_header_line, parse_request, parse_request_line, put_header, Method,
    ParseError, Request, Version,
};
use reverse_proxy::resp::{Response, Status};
use reverse_proxy::static_files::{found_head, guess_mime, handle, not_found, StaticTarget};
use reverse_proxy::text::{parse_u64, to_decimal};

fn lines(text: &[&str]) -> Vec<String> {
    text.iter().map(|l| l.to_string()).collect()
}

fn request(path: &str) -> Request {
    Request { method: Method::Get, path: path.to_string(), headers: Vec::new(), version: Version::Http1_1 }
}

#[test]
fn mime_types_by_extension() {
    assert_eq!(guess_mime("index.html"), "text/html; charset=utf-8");
    assert_eq!(guess_mime("/srv/www/a.b/page.HTM"), "text/html; charset=utf-8");
    assert_eq!(guess_mime("site.css"), "text/css; charset=utf-8");
    assert_eq!(guess_mime("app.min.js"), "application/javascript");
    assert_eq!(guess_mime("data.Json"), "application/json");
    assert_eq!(guess_mime("a.png"), "image/png");
    assert_eq!(guess_mime("a.jpg"), "image/jpeg");
    assert_eq!(guess_mime("a.JPEG"), "image/jpeg");
    assert_eq!(guess_mime("a.gif"), "image/gif");
    assert_eq!(guess_mime("a.svg"), "image/svg+xml");
    assert_eq!(guess_mime("notes.txt"), "text/plain; charset=utf-8");
    assert_eq!(guess_mime("mod.wasm"), "application/wasm");
    assert_eq!(guess_mime("favicon.ico"), "image/x-icon");
    assert_eq!(guess_mime("archive.tar.gz"), "application/octet-stream");
}

#[test]
fn mime_type_without_a_usable_extension() {
    for path in ["", "README", ".html", "/srv/.css", "dir.html/file", "a.", "..", "/x/..", "a.html/..", ".", "/", "a.htmlx", "html"] {
        assert_eq!(guess_mime(path), "application/octet-stream", "{:?}", path);
    }
    // slashes and `.` components at the end do not hide the name
    assert_eq!(guess_mime("a.css/"), "text/css; charset=utf-8");
    assert_eq!(guess_mime("a.css//./"), "text/css; charset=utf-8");
    assert_eq!(guess_mime("a.css/."), "text/css; charset=utf-8");
    assert_eq!(guess_mime("..png"), "image/png");
    assert_eq!(guess_mime("x/.hidden.txt"), "text/plain; charset=utf-8");
}

#[test]
fn mime_guess_agrees_with_std_paths() {
    for path in ["a/b/c.txt", "a.css/", "a.css/.", "x/..", ".bashrc", "a.", "...", "/", "", "a//b.js//", "./.", "./x.png", "..a", "a/./b.gif/./."] {
        let ext = std::path::Path::new(path).extension().and_then(|e| e.to_str()).unwrap_or("").to_ascii_lowercase();
        let expected = match ext.as_str() {
            "txt" => "text/plain; charset=utf-8",
            "css" => "text/css; charset=utf-8",
            "js" => "application/javascript",
            "png" => "image/png",
            "gif" => "image/gif",
            _ => "application/octet-stream",
        };
        assert_eq!(guess_mime(path), expected, "{:?}", path);
    }
}

#[test]
fn static_paths() {
    let file = |p: &str| match handle(&request(p)) {
        StaticTarget::File { relative } => relative,
        StaticTarget::Invalid(r) => panic!("{} rejected: {:?}", p, r),
    };
    assert_eq!(file("/static/css/site.css"), "css/site.css");
    assert_eq!(file("/static/"), "");
    assert_eq!(file("/static"), "");
    assert_eq!(file("/other/x"), "");
    assert_eq!(file("/other/../x"), "");
    assert_eq!(file("/static/a.b/.c"), "a.b/.c");
    assert_eq!(file("/static/ü/é.txt"), "ü/é.txt");
    for p in ["/static/../etc/passwd", "/static/a/..", "/static//etc", "/static/a..b", "/static/..", "/static/..."] {
        match handle(&request(p)) {
            StaticTarget::Invalid(r) => {
                assert_eq!(r.status, Status::BadRequest);
                assert_eq!(r.data, b"Invalid path".to_vec());
                assert_eq!(
                    r.status_and_headers(),
                    "HTTP/1.1 400 Bad Request\r\nContent-Type: text/html\r\nContent-Length: 12\r\n\r\n"
                );
            }
            StaticTarget::File { relative } => panic!("{} accepted as {:?}", p, relative),
        }
    }
}

#[test]
fn file_head_and_not_found() {
    assert_eq!(
        found_head("/srv/www/index.html", 1234),
        "HTTP/1.1 200 OK\r\nContent-Length: 1234\r\nContent-Type: text/html; charset=utf-8\r\n\r\n"
    );
    assert_eq!(
        found_head("blob", 0),
        "HTTP/1.1 200 OK\r\nContent-Length: 0\r\nContent-Type: application/octet-stream\r\n\r\n"
    );
    let r = not_found("<h1>gone</h1>");
    assert_eq!(r.status, Status::NotFound);
    assert_eq!(r.data, b"<h1>gone</h1>".to_vec());
    assert_eq!(
        r.status_and_headers(),
        "HTTP/1.1 404 Not Found\r\nContent-Type: text/html\r\nContent-Length: 13\r\n\r\n"
    );
}

#[test]
fn response_head() {
    assert_eq!(Status::NotFound.to_string(), "404 Not Found");
    assert_eq!(Status::BadRequest.to_string(), "400 Bad Request");
    assert_eq!(Status::InternalServerError.to_string(), "500 Internal Server Error");
    let none = Response { status: Status::InternalServerError, headers: Vec::new(), data: Vec::new() };
    assert_eq!(none.status_and_headers(), "HTTP/1.1 500 Internal Server Error\r\n\r\n\r\n");
    let one = Response {
        status: Status::NotFound,
        headers: vec![("A".to_string(), "1".to_string())],
        data: Vec::new(),
    };
    assert_eq!(one.status_and_headers(), "HTTP/1.1 404 Not Found\r\nA: 1\r\n\r\n");
    let html = Response::from_html(Status::BadRequest, "grüß");
    assert_eq!(html.data.len(), 6);
    assert_eq!(
        html.headers,
        vec![
            ("Content-Type".to_string(), "text/html".to_string()),
            ("Content-Length".to_string(), "6".to_string())
        ]
    );
}

#[test]
fn request_line() {
    let ok = parse_request_line("GET /index.html HTTP/1.1\r\n").unwrap();
    assert_eq!(ok, (Method::Get, "/index.html".to_string(), Version::Http1_1));
    let ok = parse_request_line("  GET\t/a?b=c   HTTP/1.0  trailing words\n").unwrap();
    assert_eq!(ok, (Method::Get, "/a?b=c".to_string(), Version::Http1_0));
    assert!(matches!(parse_request_line(""), Err(ParseError::MissingMethod)));
    assert!(matches!(parse_request_line(" \r\n"), Err(ParseError::MissingMethod)));
    assert!(matches!(parse_request_line("GET"), Err(ParseError::MissingPath)));
    assert!(matches!(parse_request_line("GET /"), Err(ParseError::MissingVersion)));
    match parse_request_line("POST / HTTP/1.1") {
        Err(ParseError::InvalidMethod(m)) => assert_eq!(m, "unsupported method: POST"),
        other => panic!("unexpected {:?}", other),
    }
    // the method is judged before the path is missed
    assert!(matches!(parse_request_line("get"), Err(ParseError::InvalidMethod(_))));
    match parse_request_line("GET / HTTP/2") {
        Err(ParseError::InvalidVersion(v)) => assert_eq!(v, "unsupported HTTP version: HTTP/2"),
        other => panic!("unexpected {:?}", other),
    }
}

#[test]
fn methods_and_versions() {
    assert_eq!(Method::try_from("GET"), Ok(Method::Get));
    assert_eq!(Method::try_from("Get"), Err("unsupported method: Get".to_string()));
    assert_eq!(Method::try_from(""), Err("unsupported method: ".to_string()));
    assert_eq!(Version::try_from("HTTP/1.0"), Ok(Version::Http1_0));
    assert_eq!(Version::try_from("HTTP/1.1"), Ok(Version::Http1_1));
    assert_eq!(Version::try_from("http/1.1"), Err("unsupported HTTP version: http/1.1".to_string()));
}

#[test]
fn header_lines() {
    assert_eq!(parse_header_line("Host: example.org\r\n").unwrap(), ("Host".to_string(), "example.org".to_string()));
    assert_eq!(parse_header_line("a:b:c").unwrap(), ("a".to_string(), "b:c".to_string()));
    assert_eq!(parse_header_line(" spaced name :\t v \u{a0}\n").unwrap(), (" spaced name ".to_string(), "v".to_string()));
    assert_eq!(parse_header_line(":").unwrap(), (String::new(), String::new()));
    assert!(matches!(parse_header_line("no colon here"), Err(ParseError::MissingHeaderValue)));
    assert!(ends_head(""));
    assert!(ends_head("\n"));
    assert!(ends_head("\r\n"));
    assert!(!ends_head("\r"));
    assert!(!ends_head(" \r\n"));
    assert!(!ends_head("\n\n"));
}

#[test]
fn request_head() {
    let req = parse_request(&lines(&[
        "GET /x HTTP/1.1\r\n",
        "Host: a\r\n",
        "Accept: */*\r\n",
        "Host: b\r\n",
        "\r\n",
        "not a header, never looked at",
    ]))
    .unwrap();
    assert_eq!(req.method, Method::Get);
    assert_eq!(req.path, "/x");
    assert_eq!(req.version, Version::Http1_1);
    assert_eq!(
        req.headers,
        vec![("Host".to_string(), "b".to_string()), ("Accept".to_string(), "*/*".to_string())]
    );
    let bare = parse_request(&lines(&["GET / HTTP/1.0"])).unwrap();
    assert!(bare.headers.is_empty());
    assert!(matches!(parse_request(&Vec::new()), Err(ParseError::MissingMethod)));
    assert!(matches!(
        parse_request(&lines(&["GET / HTTP/1.1\r\n", "broken\r\n", "\r\n"])),
        Err(ParseError::MissingHeaderValue)
    ));
    assert!(matches!(
        parse_request(&lines(&["PUT / HTTP/1.1\r\n", "broken\r\n"])),
        Err(ParseError::InvalidMethod(_))
    ));
}

#[test]
fn put_header_replaces_or_appends() {
    let mut hs = Vec::new();
    put_header(&mut hs, "a".to_string(), "1".to_string());
    put_header(&mut hs, "b".to_string(), "2".to_string());
    put_header(&mut hs, "a".to_string(), "3".to_string());
    put_header(&mut hs, "A".to_string(), "4".to_string());
    assert_eq!(
        hs,
        vec![
            ("a".to_string(), "3".to_string()),
            ("b".to_string(), "2".to_string()),
            ("A".to_string(), "4".to_string())
        ]
    );
}

#[test]
fn parse_errors_as_text() {
    assert_eq!(ParseError::Io("broken pipe".to_string()).to_string(), "I/O error: broken pipe");
    assert_eq!(ParseError::MissingMethod.to_string(), "missing method");
    assert_eq!(ParseError::MissingPath.to_string(), "missing path");
    assert_eq!(ParseError::MissingVersion.to_string(), "missing HTTP version");
    assert_eq!(ParseError::InvalidMethod("unsupported method: X".to_string()).to_string(), "invalid method: unsupported method: X");
    assert_eq!(ParseError::InvalidVersion("v".to_string()).to_string(), "invalid HTTP version: v");
    assert_eq!(ParseError::MissingHeaderName.to_string(), "missing header name");
    assert_eq!(ParseError::MissingHeaderValue.to_string(), "missing header value");
}

#[test]
fn decimal_numbers() {
    assert_eq!(to_decimal(0), "0");
    assert_eq!(to_decimal(9), "9");
    assert_eq!(to_decimal(10), "10");
    assert_eq!(to_decimal(1234567890), "1234567890");
    assert_eq!(to_decimal(u64::MAX), "18446744073709551615");
    let digits: Vec<char> = "x+42y".chars().collect();
    assert_eq!(parse_u64(&digits, 1, 4), Some(42));
    assert_eq!(parse_u64(&digits, 2, 4), Some(42));
    assert_eq!(parse_u64(&digits, 0, 4), None);
    assert_eq!(parse_u64(&digits, 1, 2), None);
    assert_eq!(parse_u64(&digits, 3, 3), None);
}
