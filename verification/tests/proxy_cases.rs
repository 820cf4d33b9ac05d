use rust_http_proxy::headers::HeaderMap;
use rust_http_proxy::parser::parse_request;
use rust_http_proxy::proxy::{
    after_forward, bad_gateway_response, bad_request_response, on_request_bytes,
    parse_target_uri, prepare_forward, response_text, target_url, ConnectionStep,
    backend_response_text, keep_visible_headers,
};

#[test]
fn nothing_read_closes() {
    assert!(matches!(on_request_bytes(b""), ConnectionStep::Close));
}

#[test]
fn invalid_utf8_gets_400() {
    match on_request_bytes(&[0x47, 0xff, 0x20]) {
        ConnectionStep::NotUtf8(t) => assert_eq!(t, "HTTP/1.1 400 Bad Request\r\n\r\nInvalid UTF-8"),
        _ => panic!("expected a reply"),
    }
}

#[test]
fn unparsable_request_gets_400() {
    match on_request_bytes(b"HELLO") {
        ConnectionStep::Unparsable(e, t) => {
            assert_eq!(e, "Invalid request line: HELLO");
            assert_eq!(
                t,
                "HTTP/1.1 400 Bad Request\r\nContent-Type: text/plain\r\n\r\nBad Request: Invalid request line: HELLO"
            );
        }
        _ => panic!("expected a reply"),
    }
}

#[test]
fn request_is_forwarded() {
    match on_request_bytes("GET /é HTTP/1.1\r\nHost: a\r\n\r\n".as_bytes()) {
        ConnectionStep::Forward(req) => {
            assert_eq!(req.path, "/é");
            assert_eq!(req.headers.get("host").unwrap(), "a");
        }
        _ => panic!("expected a request"),
    }
}

#[test]
fn backend_failure_gets_502() {
    assert_eq!(after_forward(Ok("HTTP/1.1 200 OK\r\n\r\n".to_string())), "HTTP/1.1 200 OK\r\n\r\n");
    assert_eq!(
        after_forward(Err("boom".to_string())),
        "HTTP/1.1 502 Bad Gateway\r\nContent-Type: text/plain\r\n\r\nProxy Error: boom"
    );
    assert_eq!(bad_gateway_response("x"), "HTTP/1.1 502 Bad Gateway\r\nContent-Type: text/plain\r\n\r\nProxy Error: x");
    assert_eq!(bad_request_response("y"), "HTTP/1.1 400 Bad Request\r\nContent-Type: text/plain\r\n\r\nBad Request: y");
}

#[test]
fn urls_join_target_and_path() {
    assert_eq!(target_url("https://httpbin.org/", "/get"), "https://httpbin.org/get");
    assert_eq!(target_url("http://a///", "/b?c=1"), "http://a/b?c=1");
    assert_eq!(target_url("http://a", "/"), "http://a/");
}

fn plan_error(target: &str, raw: &str) -> String {
    match prepare_forward(target, &parse_request(raw).unwrap()) {
        Ok(_) => panic!("expected an error"),
        Err(e) => e,
    }
}

#[test]
fn plan_drops_host_and_connection() {
    let req = parse_request(
        "POST /p HTTP/1.1\r\nHost: h\r\nConnection: close\r\nX-One: 1\r\nAccept: */*\r\n\r\nbody",
    )
    .unwrap();
    let plan = match prepare_forward("http://backend:9000/", &req) {
        Ok(p) => p,
        Err(e) => panic!("{}", e),
    };
    assert_eq!(plan.url, "http://backend:9000/p");
    assert_eq!(plan.method.as_method().as_str(), "POST");
    assert_eq!(plan.uri.as_uri().to_string(), "http://backend:9000/p");
    assert_eq!(plan.body, "body");
    let mut pairs: Vec<(String, String)> = plan
        .headers
        .iter()
        .map(|h| (h.name().as_str().to_string(), h.value().to_str().unwrap().to_string()))
        .collect();
    pairs.sort();
    assert_eq!(
        pairs,
        vec![("accept".to_string(), "*/*".to_string()), ("x-one".to_string(), "1".to_string())]
    );
}

#[test]
fn plan_skips_headers_hyper_refuses() {
    let req = parse_request("GET / HTTP/1.1\r\nBad Name: v\r\nGood: a\u{7}b\r\nFine: ok\r\n\r\n").unwrap();
    let plan = match prepare_forward("http://b", &req) {
        Ok(p) => p,
        Err(e) => panic!("{}", e),
    };
    let names: Vec<&str> = plan.headers.iter().map(|h| h.name().as_str()).collect();
    assert_eq!(names, vec!["fine"]);
    assert_eq!(plan.body, "");
    assert_eq!(plan.method.into_inner(), hyper::Method::GET);
}

#[test]
fn plan_rejects_bad_method() {
    assert_eq!(
        plan_error("http://b", "G@T / HTTP/1.1\r\n\r\n"),
        "Invalid method: invalid HTTP method"
    );
}

#[test]
fn plan_rejects_bad_url() {
    let err = plan_error("http://b", "GET /a\u{7f}b HTTP/1.1\r\n\r\n");
    assert!(err.starts_with("Invalid URL 'http://b/a\u{7f}b': "), "{}", err);
    assert!(err.len() > "Invalid URL 'http://b/a\u{7f}b': ".len());
}

#[test]
fn response_text_layout() {
    let headers = vec![("content-type".to_string(), "text/plain".to_string())];
    assert_eq!(
        response_text(200, &headers, "hi"),
        "HTTP/1.1 200 OK\r\ncontent-type: text/plain\r\n\r\nhi"
    );
    assert_eq!(response_text(404, &Vec::new(), ""), "HTTP/1.1 404 Not Found\r\n\r\n");
    assert_eq!(response_text(599, &Vec::new(), "x"), "HTTP/1.1 599 Unknown\r\n\r\nx");
    assert_eq!(response_text(42, &Vec::new(), ""), "HTTP/1.1 42 Unknown\r\n\r\n");
}

#[test]
fn header_map_insert_and_get() {
    let mut m = HeaderMap::new();
    assert!(!m.contains_key("a"));
    m.insert("a".to_string(), "1".to_string());
    m.insert("b".to_string(), "2".to_string());
    m.insert("a".to_string(), "3".to_string());
    assert_eq!(m.get("a").unwrap(), "3");
    assert_eq!(m.get("b").unwrap(), "2");
    assert!(m.get("c").is_none());
    assert_eq!(m.entries().len(), 2);
    let copy = m.clone();
    assert_eq!(copy.get("a").unwrap(), "3");
}

#[test]
fn target_uri_errors_quote_the_url() {
    match parse_target_uri("http://a/b") {
        Ok(u) => assert_eq!(u.into_inner().to_string(), "http://a/b"),
        Err(e) => panic!("{}", e),
    }
    let err = match parse_target_uri("") {
        Ok(_) => panic!("expected an error"),
        Err(e) => e,
    };
    assert!(err.starts_with("Invalid URL '': "), "{}", err);
    assert!(err.len() > "Invalid URL '': ".len());
}

#[test]
fn backend_headers_must_read_as_text() {
    let raw = vec![
        ("a".to_string(), b"plain\ttext".to_vec()),
        ("b".to_string(), vec![0x68, 0xe9]),
        ("c".to_string(), vec![0x7f]),
        ("d".to_string(), b"ok".to_vec()),
    ];
    assert_eq!(
        keep_visible_headers(&raw),
        vec![("a".to_string(), "plain\ttext".to_string()), ("d".to_string(), "ok".to_string())]
    );
}

#[test]
fn backend_response_text_decodes_lossily() {
    let raw = vec![
        ("server".to_string(), b"x".to_vec()),
        ("bin".to_string(), vec![0x01]),
    ];
    assert_eq!(
        backend_response_text(200, &raw, &[0x68, 0x69, 0xff, 0x21]),
        "HTTP/1.1 200 OK\r\nserver: x\r\n\r\nhi\u{fffd}!"
    );
    assert_eq!(
        backend_response_text(404, &Vec::new(), "é".as_bytes()),
        "HTTP/1.1 404 Not Found\r\n\r\né"
    );
}

#[test]
fn response_text_parses_back_to_its_status() {
    let headers = vec![("x".to_string(), "1".to_string())];
    let text = response_text(418, &headers, "line one\r\n\r\nmore");
    let res = rust_http_proxy::parser::parse_response(&text).unwrap();
    assert_eq!(res.status_code, 418);
    assert_eq!(res.status_text, "I'm a teapot");
    let res = rust_http_proxy::parser::parse_response(&response_text(299, &Vec::new(), "")).unwrap();
    assert_eq!(res.status_code, 299);
    assert_eq!(res.status_text, "Unknown");
}
