//! Requests and the answers to them.

use dows::accept::{accept_for_digest, compute_accept_key, hash_input};
use dows::handshake::{
    answer, answer_data, info_text, upgrade, Answer, Handshake, REQUEST_CAPACITY,
};
use dows::http::{check_nonce, parse_request, websocket_key, Header, HttpError, Request};
use dows::policy::Policy;
use dows::upstream::{final_segment, parse_upstream_addr, requested_upstream};

const INFO: &str = "dows 0.1.0\r\n";

const UPGRADE: &str = "Host: localhost\r\n\
                       Upgrade: websocket\r\n\
                       Connection: Upgrade\r\n\
                       Sec-WebSocket-Key: dGhlIHNhbXBsZSBub25jZQ==\r\n\
                       Sec-WebSocket-Version: 13\r\n";

const SWITCHING: &str = "HTTP/1.1 101 Switching Protocols\r\n\
                         Upgrade: websocket\r\n\
                         Connection: upgrade\r\n\
                         Sec-WebSocket-Accept: s3pPLMBiTxaQ9kYGzzhZRbK+xOo=\r\n\r\n";

fn policy(origins: &str, upstreams: &str) -> Policy {
    Policy::new(origins.to_owned(), upstreams.to_owned())
}

fn any() -> Policy {
    policy("*", "*")
}

fn header(name: &str, value: &str) -> Header {
    Header { name: name.to_owned(), value: value.as_bytes().to_vec() }
}

fn request(path: &str, headers: &[(&str, &str)]) -> Request {
    let headers = headers.iter().map(|h| header(h.0, h.1)).collect();
    Request { method: "GET".to_owned(), version: 1, path: path.to_owned(), headers }
}

fn upgrade_headers() -> Vec<(&'static str, &'static str)> {
    vec![
        ("host", "localhost"),
        ("upgrade", "websocket"),
        ("connection", "keep-alive, Upgrade"),
        ("sec-websocket-version", "13"),
        ("sec-websocket-key", "dGhlIHNhbXBsZSBub25jZQ=="),
    ]
}

/// The response of a request that is refused.
fn refusal(answer: Answer) -> String {
    match answer {
        Answer::Refuse(response) => response,
        other => panic!("{other:?}"),
    }
}

fn error_of(data: &[u8]) -> HttpError {
    match parse_request(data) {
        Err(e) => e,
        Ok(_) => panic!("no error"),
    }
}

#[test]
fn root_path_returns_info_page() {
    let response = refusal(answer_data(&any(), b"GET / HTTP/1.1\r\nHost: localhost\r\n\r\n", INFO));
    assert!(response.starts_with("HTTP/1.1 200 OK\r\n"), "unexpected response: {response}");
    assert!(
        response.contains("\r\n\r\ndows"),
        "body should start with the package name: {response}"
    );
    assert_eq!(
        response,
        "HTTP/1.1 200 OK\r\nConnection: close\r\nContent-Type: text/plain\r\n\r\ndows 0.1.0\r\n"
    );
}

#[test]
fn non_upgrade_request_returns_upgrade_required() {
    let data = b"GET /127.0.0.1:53 HTTP/1.1\r\nHost: localhost\r\n\r\n";
    let response = refusal(answer_data(&any(), data, INFO));
    assert!(
        response.starts_with("HTTP/1.1 426 Upgrade Required\r\n"),
        "unexpected response: {response}"
    );
    assert!(
        response.contains("\r\nUpgrade: websocket\r\n"),
        "response should advertise the websocket upgrade: {response}"
    );
    assert!(response.ends_with("\r\n\r\ndows 0.1.0\r\n"));
}

#[test]
fn upgrade_request_with_body_returns_bad_request() {
    // A well-formed upgrade request, but with stray body bytes after the
    // header section. GET requests have no body, and any pipelined data
    // before the connection switches protocols is bogus.
    let data = format!("GET /127.0.0.1:53 HTTP/1.1\r\n{UPGRADE}\r\nbogus");
    let response = refusal(answer_data(&any(), data.as_bytes(), INFO));
    assert!(
        response.starts_with("HTTP/1.1 400 Bad Request\r\n"),
        "unexpected response: {response}"
    );
}

#[test]
fn upgrade_request_is_connected() {
    let data = format!("GET /dns/%31%2E1.1.1?x=/y HTTP/1.1\r\n{UPGRADE}\r\n");
    match answer_data(&any(), data.as_bytes(), INFO) {
        Answer::Connect(response, upstream) => {
            assert_eq!(response, SWITCHING);
            assert_eq!(upstream, "1.1.1.1:53");
        }
        other => panic!("{other:?}"),
    }
}

#[test]
fn prohibited_upstream_is_closed_with_reason() {
    let data = format!("GET /1.1.1.1 HTTP/1.1\r\n{UPGRADE}\r\n");
    match answer_data(&policy("*", "8.8.8.8, [::1]"), data.as_bytes(), INFO) {
        Answer::Prohibit(response, close) => {
            assert_eq!(response, SWITCHING);
            assert_eq!(close[..4], [0x88, 44, 0x03, 0xe8]);
            assert_eq!(&close[4..], b"upstream prohibited by proxy configuration");
        }
        other => panic!("{other:?}"),
    }
}

#[test]
fn forbidden_origin_comes_before_anything_else() {
    let p = policy("https://a.example, https://b.example", "*");
    for path in ["/", "/1.1.1.1"] {
        let data = format!("GET {path} HTTP/1.1\r\nOrigin: https://c.example\r\n\r\nbogus");
        let response = refusal(answer_data(&p, data.as_bytes(), INFO));
        assert_eq!(
            response,
            "HTTP/1.1 403 Forbidden\r\nConnection: close\r\nContent-Type: text/plain\r\n\r\n"
        );
    }
}

#[test]
fn listed_origin_is_allowed() {
    let p = policy("https://a.example ,\u{a0}https://b.example", "*");
    for origin in ["https://a.example", "https://b.example", "\t https://b.example "] {
        let r = request("/", &[("ORIGIN", origin)]);
        assert!(refusal(answer(&p, &r, true, INFO)).starts_with("HTTP/1.1 200"));
    }
    // The case of an origin matters, and each of several has to be listed.
    let r = request("/", &[("origin", "https://A.example")]);
    assert!(refusal(answer(&p, &r, true, INFO)).starts_with("HTTP/1.1 403"));
    let r = request("/", &[("origin", "https://a.example"), ("origin", "x")]);
    assert!(refusal(answer(&p, &r, true, INFO)).starts_with("HTTP/1.1 403"));
}

#[test]
fn request_without_origin_is_allowed() {
    let r = request("/", &[("host", "x")]);
    assert!(refusal(answer(&policy("", ""), &r, true, INFO)).starts_with("HTTP/1.1 200"));
}

#[test]
fn star_allows_any_only_on_its_own() {
    assert!(any().allows_origin(b"x"));
    assert!(any().allows_upstream(&"x:1".to_owned()));
    for setting in ["*, a", " *", "**", ""] {
        assert!(!policy(setting, "").allows_origin(b"x"), "{setting}");
        assert!(!policy("", setting).allows_upstream(&"x:53".to_owned()), "{setting}");
    }
    assert!(policy("*,a", "").allows_origin(b"*"));
    assert!(policy("", "").allows_origin(b" "));
    assert!(policy("", "").allows_upstream(&":53".to_owned()));
}

#[test]
fn listed_upstream_is_allowed_with_and_without_its_port() {
    let p = policy("*", "1.1.1.1, 8.8.8.8:53 ,[::1],[::2]:5353");
    for asked in ["1.1.1.1", "1.1.1.1:53", "8.8.8.8", "8.8.8.8:53", "[::1]:53", "[::2]:5353"] {
        assert!(p.allows_upstream(&parse_upstream_addr(asked)), "{asked}");
    }
    assert!(!policy("*", "fe80::").allows_upstream(&parse_upstream_addr("fe80::53")));
    for asked in ["1.1.1.1:54", "8.8.8", "[::2]", "", "1.1.1.1, 8.8.8.8:53"] {
        assert!(!p.allows_upstream(&parse_upstream_addr(asked)), "{asked}");
    }
}

#[test]
fn upgrade_takes_accept_key_and_upstream() {
    match upgrade(&any(), "abc", "x:1".to_owned()) {
        Answer::Connect(response, upstream) => {
            assert!(response.ends_with("\r\nSec-WebSocket-Accept: abc\r\n\r\n"));
            assert_eq!(upstream, "x:1");
        }
        other => panic!("{other:?}"),
    }
    assert!(matches!(
        upgrade(&policy("*", "y"), "abc", "x:1".to_owned()),
        Answer::Prohibit(_, _)
    ));
}

#[test]
fn port_defaults_to_that_of_dns() {
    assert_eq!(parse_upstream_addr("localhost"), "localhost:53");
    assert_eq!(parse_upstream_addr("localhost:5353"), "localhost:5353");
    assert_eq!(parse_upstream_addr("[::1]"), "[::1]:53");
    assert_eq!(parse_upstream_addr("[::1]:5353"), "[::1]:5353");
    assert_eq!(parse_upstream_addr("dns.example:"), "dns.example:53");
    assert_eq!(parse_upstream_addr("[::1]:"), "[::1]:53");
    assert_eq!(parse_upstream_addr(":"), ":53");
    assert_eq!(parse_upstream_addr("]:"), "]:53");
    assert_eq!(parse_upstream_addr("fe80::"), "fe80::");
    assert_eq!(parse_upstream_addr("a:b:"), "a:b:");
    assert_eq!(parse_upstream_addr("::"), "::");
    assert_eq!(parse_upstream_addr(""), ":53");
    assert_eq!(parse_upstream_addr("]"), "]:53");
    assert_eq!(parse_upstream_addr(&parse_upstream_addr("[::1]")), "[::1]:53");
}

#[test]
fn upstream_is_the_last_segment_of_the_path() {
    assert_eq!(final_segment("/a/b"), "b");
    assert_eq!(final_segment("/a/b?c/d?e"), "b");
    assert_eq!(final_segment("/a/"), "");
    assert_eq!(final_segment("a"), "a");
    assert_eq!(final_segment("/?/a"), "");
    assert_eq!(final_segment("/é/ü"), "ü");
}

#[test]
fn upstream_is_percent_decoded() {
    assert_eq!(requested_upstream("/%5b%3A%3a1%5D"), "[::1]:53");
    assert_eq!(requested_upstream("/x%2Fy"), "x/y:53");
    assert_eq!(requested_upstream("/%C3%A9"), "é:53");
    assert_eq!(requested_upstream("/100%"), "100%:53");
    assert_eq!(requested_upstream("/%4"), "%4:53");
    assert_eq!(requested_upstream("/%%41%g1"), "%A%g1:53");
    assert_eq!(requested_upstream("/%ff"), "\u{fffd}:53");
}

#[test]
fn accept_key_of_the_rfc() {
    assert_eq!(compute_accept_key("dGhlIHNhbXBsZSBub25jZQ=="), "s3pPLMBiTxaQ9kYGzzhZRbK+xOo=");
    for key in ["", "a", "dGhlIHNhbXBsZSBub25jZQ=="] {
        let accept = compute_accept_key(key);
        assert_eq!(accept.len(), 28);
        assert_eq!(accept.find('='), Some(27));
    }
    assert_ne!(compute_accept_key(""), compute_accept_key("a"));
}

#[test]
fn key_is_hashed_with_the_id() {
    assert_eq!(hash_input("aé"), "aé258EAFA5-E914-47DA-95CA-C5AB0DC85B11".as_bytes());
}

#[test]
fn digest_is_written_in_base64() {
    assert_eq!(accept_for_digest(b""), "");
    assert_eq!(accept_for_digest(b"f"), "Zg==");
    assert_eq!(accept_for_digest(b"fo"), "Zm8=");
    assert_eq!(accept_for_digest(b"foo"), "Zm9v");
    assert_eq!(accept_for_digest(b"foob"), "Zm9vYg==");
    assert_eq!(accept_for_digest(&[0xfb, 0xef, 0xff, 0x00, 0x10, 0x83]), "++//ABCD");
}

#[test]
fn key_of_an_upgrade_request() {
    let r = request("/x", &upgrade_headers());
    assert_eq!(websocket_key(&r), Some("dGhlIHNhbXBsZSBub25jZQ=="));
    for missing in 0..5 {
        let mut headers = upgrade_headers();
        headers.remove(missing);
        assert_eq!(websocket_key(&request("/x", &headers)), None);
    }
}

#[test]
fn any_field_can_ask_for_the_upgrade() {
    let mut headers = upgrade_headers();
    headers.insert(0, ("Upgrade", "h2c"));
    headers.push(("Upgrade", "h2c"));
    headers.push(("Connection", "close"));
    assert!(websocket_key(&request("/x", &headers)).is_some());
}

#[test]
fn last_version_and_key_count() {
    let mut headers = upgrade_headers();
    headers.insert(0, ("Sec-WebSocket-Version", "8"));
    headers.push(("SEC-WEBSOCKET-KEY", "AQIDBAUGBwgJCgsMDQ4PEA=="));
    assert_eq!(websocket_key(&request("/x", &headers)), Some("AQIDBAUGBwgJCgsMDQ4PEA=="));
    headers.push(("Sec-WebSocket-Version", " 13 "));
    assert_eq!(websocket_key(&request("/x", &headers)), Some("AQIDBAUGBwgJCgsMDQ4PEA=="));
    headers.push(("Sec-WebSocket-Version", "8"));
    assert_eq!(websocket_key(&request("/x", &headers)), None);
}

#[test]
fn only_a_get_request_of_the_right_version_is_upgraded() {
    for (method, version, expected) in
        [("GET", 1, true), ("POST", 1, false), ("GET", 0, false), ("get", 1, false)]
    {
        let mut r = request("/1.1.1.1", &upgrade_headers());
        r.method = method.to_owned();
        r.version = version;
        assert_eq!(websocket_key(&r).is_some(), expected, "{method} {version}");
    }
    for line in ["POST /1.1.1.1 HTTP/1.1", "GET /1.1.1.1 HTTP/1.0"] {
        let data = format!("{line}\r\n{UPGRADE}\r\n");
        let response = refusal(answer_data(&any(), data.as_bytes(), INFO));
        assert!(response.starts_with("HTTP/1.1 426"), "{line}");
    }
}

#[test]
fn key_has_to_be_sixteen_bytes_in_base64() {
    for key in [
        "abc",
        "",
        "é",
        "dGhlIHNhbXBsZSBub25jZQ=",
        "dGhlIHNhbXBsZSBub25jZQ===",
        "dGhlIHNhbXBsZSBub25jZR==",
        "dGhlIHNhbXBsZSBub25jZQ=A",
        "dGhlIHNhbXBsZSBub25jZQA=",
        "dGhlIHNhbXBsZSBub25jZQAA",
        "dGhlIHNhbXBsZSBub25j-Q==",
        "dGhl=HNhbXBsZSBub25jZQ==",
    ] {
        let mut r = request("/x", &upgrade_headers());
        r.headers.push(header("sec-websocket-key", key));
        assert_eq!(websocket_key(&r), None, "{key}");
        assert!(!check_nonce(key.as_bytes()), "{key}");
    }
    let mut r = request("/x", &upgrade_headers());
    r.headers.push(Header { name: "sec-websocket-key".to_owned(), value: vec![0xff; 24] });
    assert_eq!(websocket_key(&r), None);
}

#[test]
fn base64_of_any_sixteen_bytes_is_a_key() {
    for seed in 0..=255u8 {
        let data: Vec<u8> = (0..16).map(|i: u8| seed.wrapping_mul(i).wrapping_add(seed)).collect();
        assert!(check_nonce(accept_for_digest(&data).as_bytes()));
        assert!(!check_nonce(accept_for_digest(&data[1..]).as_bytes()));
    }
}

#[test]
fn request_is_parsed() {
    let data = b"GET /a?b HTTP/1.1\r\nHost: x \r\nX:\r\n\r\nrest";
    assert!(matches!(
        parse_request(b"PUT / HTTP/1.0\r\n\r\n"),
        Ok(Some((Request { method, version: 0, .. }, 18))) if method == "PUT"
    ));
    match parse_request(data) {
        Ok(Some((request, len))) => {
            assert_eq!(len, data.len() - 4);
            assert_eq!(request.method, "GET");
            assert_eq!(request.version, 1);
            assert_eq!(request.path, "/a?b");
            assert_eq!(request.headers.len(), 2);
            assert_eq!(request.headers[0].name, "Host");
            assert_eq!(request.headers[0].value, b"x");
            assert_eq!(request.headers[1].name, "X");
            assert_eq!(request.headers[1].value, b"");
        }
        _ => panic!("not a request"),
    }
}

#[test]
fn request_without_end_is_not_complete() {
    assert!(matches!(parse_request(b"GET / HTTP/1.1\r\nHost: x\r\n"), Ok(None)));
    assert!(matches!(parse_request(b""), Ok(None)));
}

#[test]
fn invalid_requests_are_rejected() {
    assert_eq!(error_of(b"GET / HTTP/1.1\r\nHo st: x\r\n\r\n"), HttpError::HeaderName);
    assert_eq!(error_of(b"GET / HTTP/1.1\r\nHost: a\x01b\r\n\r\n"), HttpError::HeaderValue);
    assert_eq!(error_of(b"GET / HTTP/1.1\rx"), HttpError::NewLine);
    assert_eq!(error_of(b"G(T / HTTP/1.1\r\n\r\n"), HttpError::Token);
    assert_eq!(error_of(b"GET / HTTX/1.1\r\n\r\n"), HttpError::Version);
    assert!(matches!(
        answer_data(&any(), b"\x00", INFO),
        Answer::Invalid(HttpError::Token)
    ));
}

#[test]
fn request_has_at_most_sixty_four_fields() {
    let fields = "A: b\r\n".repeat(64);
    let data = format!("GET / HTTP/1.1\r\n{fields}\r\n");
    assert!(matches!(parse_request(data.as_bytes()), Ok(Some(_))));
    let data = format!("GET / HTTP/1.1\r\n{fields}A: b\r\n\r\n");
    assert_eq!(error_of(data.as_bytes()), HttpError::TooManyHeaders);
}

#[test]
fn request_is_received_in_pieces() {
    let data = format!("GET /8.8.8.8:53 HTTP/1.1\r\n{UPGRADE}\r\n");
    let mut h = Handshake::new();
    for (i, piece) in data.as_bytes().chunks(50).enumerate() {
        h.buf[h.len..h.len + piece.len()].copy_from_slice(piece);
        let answer = h.received(&any(), piece.len(), INFO);
        if h.len < data.len() {
            assert!(matches!(answer, Answer::ReadMore), "{i}");
        } else {
            assert!(matches!(answer, Answer::Connect(_, upstream) if upstream == "8.8.8.8:53"));
        }
    }
    assert_eq!(h.len, data.len());
}

#[test]
fn end_of_input_ends_the_handshake() {
    let mut h = Handshake::new();
    assert_eq!(h.len, 0);
    assert!(h.buf.iter().all(|&b| b == 0));
    assert!(matches!(h.received(&any(), 0, INFO), Answer::Eof));
    h.buf = [b'A'; REQUEST_CAPACITY];
    assert!(matches!(h.received(&any(), REQUEST_CAPACITY, INFO), Answer::ReadMore));
    assert!(matches!(h.received(&any(), 0, INFO), Answer::Eof));
}

#[test]
fn info_says_what_the_server_is() {
    assert_eq!(
        info_text("dows", "1.2.3", "https://example.org/dows", "abc"),
        "dows 1.2.3\r\nSource code at https://example.org/dows/commit/abc\r\n"
    );
}

#[test]
fn percent_encoded_upstream_comes_back() {
    let text: String = (0x20..0x7fu8).map(char::from).collect();
    let path: String = text.bytes().map(|b| format!("%{b:02X}")).collect();
    assert_eq!(requested_upstream(&format!("/{path}")), text);
    let plain = "dns.example:5353";
    assert_eq!(requested_upstream(&format!("/{plain}")), plain);
}
