use rust_http_proxy::parser::{parse_request, parse_response};

#[test]
fn parse_simple_get() {
    let raw =
        "GET /home HTTP/1.1\r\nHost: example.com\r\nUser-Agent: Test\r\n\r\n";

    let req = parse_request(raw).unwrap();

    assert_eq!(req.method, "GET");
    assert_eq!(req.path, "/home");
    assert_eq!(req.version, "HTTP/1.1");
    assert_eq!(req.headers.get("host").unwrap(), "example.com");
}

#[test]
fn parse_post_with_body() {
    let raw = "POST /login HTTP/1.1\r\nHost: localhost\r\nContent-Type: application/json\r\n\r\n{\"user\":\"manjeet\"}";

    let req = parse_request(raw).unwrap();

    assert_eq!(req.method, "POST");
    assert_eq!(req.path, "/login");
    assert!(req.body.is_some());
    assert_eq!(
        req.body.unwrap(),
        "{\"user\":\"manjeet\"}"
    );
}

#[test]
fn invalid_request_should_fail() {
    let raw = "HELLO_WORLD";

    assert!(parse_request(raw).is_err());
}

#[test]
fn parse_response_ok() {
    let raw = "HTTP/1.1 200 OK\r\nContent-Type: text/plain\r\n\r\nHello World";

    let res = parse_response(raw).unwrap();

    assert_eq!(res.status_code, 200);
    assert_eq!(res.status_text, "OK");
    assert_eq!(
        res.headers.get("content-type").unwrap(),
        "text/plain"
    );
    assert_eq!(res.body, "Hello World");
}

#[test]
fn invalid_response_should_fail() {
    let raw = "HTTP/1.1";

    assert!(parse_response(raw).is_err());
}

#[test]
fn empty_request_is_reported() {
    assert_eq!(parse_request("").unwrap_err(), "Empty request");
}

#[test]
fn bad_request_line_is_quoted_in_error() {
    assert_eq!(
        parse_request("HELLO_WORLD").unwrap_err(),
        "Invalid request line: HELLO_WORLD"
    );
    assert_eq!(
        parse_request("GET /only\r\nHost: x\r\n").unwrap_err(),
        "Invalid request line: GET /only"
    );
}

#[test]
fn raw_text_is_kept() {
    let raw = "GET / HTTP/1.1\r\n\r\n";
    assert_eq!(parse_request(raw).unwrap().raw, raw);
}

#[test]
fn extra_request_line_words_are_ignored() {
    let req = parse_request("GET  /a\tHTTP/1.1 extra\n").unwrap();
    assert_eq!(req.method, "GET");
    assert_eq!(req.path, "/a");
    assert_eq!(req.version, "HTTP/1.1");
}

#[test]
fn unicode_white_space_separates_words() {
    let req = parse_request("GET\u{3000}/x\u{a0}HTTP/2\n").unwrap();
    assert_eq!(req.path, "/x");
    assert_eq!(req.version, "HTTP/2");
}

#[test]
fn later_header_wins_and_names_are_trimmed() {
    let req =
        parse_request("GET / HTTP/1.1\r\n  X-Key : one \r\nx-key:two\r\nno colon here\r\n\r\n").unwrap();
    assert_eq!(req.headers.get("x-key").unwrap(), "two");
    assert!(!req.headers.contains_key("no colon here"));
    assert!(!req.headers.contains_key("X-Key"));
}

#[test]
fn header_value_keeps_later_colons() {
    let req = parse_request("GET / HTTP/1.1\nHost: example.com:8080\n\n").unwrap();
    assert_eq!(req.headers.get("host").unwrap(), "example.com:8080");
}

#[test]
fn blank_lines_in_body_are_dropped() {
    let req = parse_request("POST / HTTP/1.1\r\n\r\nline one\r\n\r\n   \r\nline two\r\n").unwrap();
    assert_eq!(req.body.unwrap(), "line one\nline two");
}

#[test]
fn request_without_body_lines_has_none() {
    let req = parse_request("GET / HTTP/1.1\r\nHost: a\r\n\r\n\r\n").unwrap();
    assert!(req.body.is_none());
}

#[test]
fn lone_carriage_return_at_end_is_kept() {
    let req = parse_request("POST / HTTP/1.1\n\nbody\r").unwrap();
    assert_eq!(req.body.unwrap(), "body\r");
}

#[test]
fn empty_response_is_reported() {
    assert_eq!(parse_response("").unwrap_err(), "Empty response");
}

#[test]
fn short_status_line_is_quoted_in_error() {
    assert_eq!(
        parse_response("HTTP/1.1").unwrap_err(),
        "Invalid status line: HTTP/1.1"
    );
}

#[test]
fn bad_status_codes_are_rejected() {
    assert_eq!(parse_response("HTTP/1.1 abc OK").unwrap_err(), "Invalid status code");
    assert_eq!(parse_response("HTTP/1.1 65536 OK").unwrap_err(), "Invalid status code");
    assert_eq!(parse_response("HTTP/1.1 -1 OK").unwrap_err(), "Invalid status code");
    assert_eq!(parse_response("HTTP/1.1 + OK").unwrap_err(), "Invalid status code");
}

#[test]
fn status_code_forms() {
    assert_eq!(parse_response("HTTP/1.1 +204").unwrap().status_code, 204);
    assert_eq!(parse_response("HTTP/1.1 00404 Not Found").unwrap().status_code, 404);
    assert_eq!(parse_response("HTTP/1.1 65535").unwrap().status_code, 65535);
}

#[test]
fn status_text_words_are_joined() {
    let res = parse_response("HTTP/1.1 404 Not   Found\r\n\r\n").unwrap();
    assert_eq!(res.status_text, "Not Found");
    assert_eq!(res.body, "");
    let res = parse_response("HTTP/1.1 204").unwrap();
    assert_eq!(res.status_text, "");
}

#[test]
fn response_body_lines_are_joined() {
    let res = parse_response("HTTP/1.1 200 OK\r\nA: b\r\n\r\nx\r\ny").unwrap();
    assert_eq!(res.body, "x\ny");
    assert_eq!(res.headers.get("a").unwrap(), "b");
}

#[test]
fn mixed_case_header_names_are_found() {
    let req = parse_request("GET / HTTP/1.1\r\ncOnTeNt-TyPe: text/html\r\nX-ÄB: 1\r\n\r\n").unwrap();
    assert_eq!(req.headers.get("content-type").unwrap(), "text/html");
    assert!(!req.headers.contains_key("cOnTeNt-TyPe"));
    assert_eq!(req.headers.get("x-Äb").unwrap(), "1");
}

#[test]
fn status_line_round_trip() {
    let res = parse_response("HTTP/1.1 503 Service Unavailable\r\n\r\n").unwrap();
    assert_eq!(res.status_code, 503);
    assert_eq!(res.status_text, "Service Unavailable");
    assert!(res.headers.entries().is_empty());
    assert_eq!(res.body, "");
}
