//! What the proxy decides for a connection: the reply to bytes that do not
//! make a request, the request to send to the backend, and the text of the
//! response that goes back to the client.
use vstd::prelude::*;
use vstd::utf8::{decode_utf8, valid_utf8};

use crate::headers::{lists_map, names_distinct, pair_views};
use crate::http_values::{
    header_name_ok, header_texts, header_value_ok, is_token_byte, method_ok, uri_rejection, CheckedHeader,
    CheckedMethod, CheckedUri,
};
use crate::parser::{
    lemma_status_line_words, parse_request, request_model, response_model, status_line,
    HttpRequest,
};
use crate::text::{
    join, lemma_lines_after_crlf, lines, plain_word, plain_words, scan_lines, words,
    decimal, push_char, push_chars, push_decimal, push_str, strip_trailing, trim_end_char,
};

verus! {

// ---------------------------------------------------------------- replies

/// The reply to bytes that are not UTF-8.
pub open spec fn invalid_utf8_text() -> Seq<char> {
    "HTTP/1.1 400 Bad Request\r\n\r\nInvalid UTF-8"@
}

/// The reply to a request that does not parse, with the parse error.
pub open spec fn bad_request_text(error: Seq<char>) -> Seq<char> {
    "HTTP/1.1 400 Bad Request\r\nContent-Type: text/plain\r\n\r\nBad Request: "@ + error
}

/// The reply when the backend could not be reached, with the error.
pub open spec fn bad_gateway_text(error: Seq<char>) -> Seq<char> {
    "HTTP/1.1 502 Bad Gateway\r\nContent-Type: text/plain\r\n\r\nProxy Error: "@ + error
}

/// The reply to a request that does not parse.
pub fn bad_request_response(error: &str) -> (r: String)
    ensures
        r@ == bad_request_text(error@),
{
    let mut r = String::from_str("HTTP/1.1 400 Bad Request\r\nContent-Type: text/plain\r\n\r\nBad Request: ");
    push_str(&mut r, error);
    r
}

/// The reply when the backend could not be reached.
pub fn bad_gateway_response(error: &str) -> (r: String)
    ensures
        r@ == bad_gateway_text(error@),
{
    let mut r = String::from_str("HTTP/1.1 502 Bad Gateway\r\nContent-Type: text/plain\r\n\r\nProxy Error: ");
    push_str(&mut r, error);
    r
}

/// `std::str::from_utf8`, its result copied into a `String`: present
/// exactly when the bytes are UTF-8, and then their decoding.
#[verifier::external_body]
fn utf8_string(bytes: &[u8]) -> (r: Option<String>)
    ensures
        match r {
            Some(s) => valid_utf8(bytes@) && s@ == decode_utf8(bytes@),
            None => !valid_utf8(bytes@),
        },
{
    match std::str::from_utf8(bytes) {
        Ok(s) => Some(s.to_string()),
        Err(_) => None,
    }
}

/// What to do with the bytes read from a client.
pub enum ConnectionStep {
    /// Nothing was read: close the connection.
    Close,
    /// The bytes are not UTF-8: write this reply and close.
    NotUtf8(String),
    /// The text is not a request: the parse error, and the reply to write
    /// before closing.
    Unparsable(String, String),
    /// Forward this request to the backend.
    Forward(HttpRequest),
}

/// Decides what to do with the bytes first read from a client: nothing
/// read closes the connection, bytes that are not UTF-8 or not a request
/// get a 400 reply, and a request is forwarded.
pub fn on_request_bytes(data: &[u8]) -> (r: ConnectionStep)
    ensures
        data@.len() == 0 ==> r is Close,
        data@.len() > 0 && !valid_utf8(data@) ==> (r matches ConnectionStep::NotUtf8(t) && t@
            == invalid_utf8_text()),
        data@.len() > 0 && valid_utf8(data@) ==> match request_model(decode_utf8(data@)) {
            Ok(m) => (r matches ConnectionStep::Forward(req) && req@ == m),
            Err(e) => (r matches ConnectionStep::Unparsable(err, t) && err@ == e && t@
                == bad_request_text(e)),
        },
{
    if data.len() == 0 {
        return ConnectionStep::Close;
    }
    let text = match utf8_string(data) {
        Some(t) => t,
        None => {
            return ConnectionStep::NotUtf8(
                String::from_str("HTTP/1.1 400 Bad Request\r\n\r\nInvalid UTF-8"),
            );
        },
    };
    match parse_request(text.as_str()) {
        Ok(req) => ConnectionStep::Forward(req),
        Err(e) => {
            let reply = bad_request_response(e.as_str());
            ConnectionStep::Unparsable(e, reply)
        },
    }
}

/// The reply to the client once the backend was asked: its response, or a
/// 502 reply with the error.
pub fn after_forward(result: Result<String, String>) -> (r: String)
    ensures
        match result {
            Ok(resp) => r@ == resp@,
            Err(e) => r@ == bad_gateway_text(e@),
        },
{
    match result {
        Ok(resp) => resp,
        Err(e) => bad_gateway_response(e.as_str()),
    }
}

// ---------------------------------------------------------------- forwarding

/// The backend URL for `path`: the target without trailing slashes, then the path.
pub open spec fn forward_url(target: Seq<char>, path: Seq<char>) -> Seq<char> {
    strip_trailing(target, '/') + path
}

/// The URL a request for `path` is forwarded to.
pub fn target_url(target: &str, path: &str) -> (r: String)
    ensures
        r@ == forward_url(target@, path@),
{
    let base = trim_end_char(target, '/');
    let mut r = String::new();
    push_chars(&mut r, &base);
    push_str(&mut r, path);
    assert(r@ =~= forward_url(target@, path@));
    r
}

/// The error for a URL that is not a URI: the URL quoted, then why.
pub open spec fn bad_url_text(url: Seq<char>, why: Seq<char>) -> Seq<char> {
    "Invalid URL '"@ + url + "': "@ + why
}

/// Parses a URL into a URI, or says why it is not one.
pub fn parse_target_uri(url: &str) -> (r: Result<CheckedUri, String>)
    ensures
        match r {
            Ok(u) => uri_rejection(url@) is None && u.text() == url@,
            Err(e) => uri_rejection(url@) matches Some(why) && e@ == bad_url_text(url@, why),
        },
{
    match CheckedUri::parse(url) {
        Ok(u) => Ok(u),
        Err(e) => {
            let mut msg = String::from_str("Invalid URL '");
            push_str(&mut msg, url);
            push_str(&mut msg, "': ");
            push_str(&mut msg, e.as_str());
            Err(msg)
        },
    }
}

/// A request header that is passed on to the backend: not `host` nor
/// `connection`, with a valid name and value.
pub open spec fn forwarded(name: Seq<char>, value: Seq<char>) -> bool {
    &&& name != "host"@
    &&& name != "connection"@
    &&& header_name_ok(name)
    &&& header_value_ok(value)
}

/// `p` lists the entries of `m` that are passed on, each once, in some order.
pub open spec fn lists_forwarded(p: Seq<(Seq<char>, Seq<char>)>, m: Map<Seq<char>, Seq<char>>) -> bool {
    &&& names_distinct(p)
    &&& forall|i: int|
        0 <= i < p.len() ==> #[trigger] m.contains_key(p[i].0) && m[p[i].0] == p[i].1
            && forwarded(p[i].0, p[i].1)
    &&& forall|k: Seq<char>|
        #[trigger] m.contains_key(k) && forwarded(k, m[k]) ==> exists|i: int|
            0 <= i < p.len() && p[i].0 == k
}

/// The request to send to the backend.
pub struct ForwardPlan {
    pub method: CheckedMethod,
    pub uri: CheckedUri,
    pub url: String,
    pub headers: Vec<CheckedHeader>,
    pub body: String,
}

/// Why a request cannot be forwarded, if it cannot: its method is not a
/// token, or its URL is not a URI.
pub open spec fn forward_error(target: Seq<char>, method: Seq<char>, path: Seq<char>) -> Option<Seq<char>> {
    let url = forward_url(target, path);
    if !method_ok(method) {
        Some("Invalid method: "@ + "invalid HTTP method"@)
    } else if uri_rejection(url) is Some {
        Some(bad_url_text(url, uri_rejection(url)->0))
    } else {
        None
    }
}

fn same_text(s: &String, t: &str) -> (r: bool)
    ensures
        r == (s@ == t@),
{
    let u = String::from_str(t);
    *s == u
}

/// The request to send to the backend for `request`: its method, the URL
/// on `target`, its headers but `host` and `connection` and those hyper
/// refuses, and its body.
pub fn prepare_forward(target: &str, request: &HttpRequest) -> (r: Result<ForwardPlan, String>)
    ensures
        match r {
            Ok(plan) => {
                &&& forward_error(target@, request.method@, request.path@) is None
                &&& plan.method.text() == request.method@
                &&& plan.url@ == forward_url(target@, request.path@)
                &&& plan.uri.text() == plan.url@
                &&& lists_forwarded(header_texts(plan.headers@), request.headers@)
                &&& plan.body@ == match request.body {
                    Some(b) => b@,
                    None => Seq::<char>::empty(),
                }
            },
            Err(e) => forward_error(target@, request.method@, request.path@) == Some(e@),
        },
{
    let url = target_url(target, request.path.as_str());
    let method = match CheckedMethod::parse(request.method.as_str()) {
        Ok(m) => m,
        Err(e) => {
            let mut msg = String::from_str("Invalid method: ");
            push_str(&mut msg, e.as_str());
            return Err(msg);
        },
    };
    let uri = match parse_target_uri(url.as_str()) {
        Ok(u) => u,
        Err(e) => {
            return Err(e);
        },
    };
    let entries = request.headers.entries();
    let ghost all = pair_views(entries@);
    let mut headers: Vec<CheckedHeader> = Vec::new();
    let mut i: usize = 0;
    while i < entries.len()
        invariant
            0 <= i <= entries@.len(),
            all == pair_views(entries@),
            lists_map(all, request.headers@),
            forall|j: int|
                0 <= j < headers@.len() ==> exists|k: int|
                    0 <= k < i && #[trigger] header_texts(headers@)[j] == all[k],
            forall|j: int| 0 <= j < headers@.len() ==> forwarded(
                #[trigger] header_texts(headers@)[j].0,
                header_texts(headers@)[j].1,
            ),
            forall|k: int|
                0 <= k < i && forwarded(#[trigger] all[k].0, all[k].1) ==> exists|j: int|
                    0 <= j < headers@.len() && header_texts(headers@)[j] == all[k],
            names_distinct(header_texts(headers@)),
        decreases entries.len() - i,
    {
        let key = &entries[i].0;
        let value = &entries[i].1;
        let ghost old_list = headers@;
        if !same_text(key, "host") && !same_text(key, "connection") {
            match CheckedHeader::parse(key.as_str(), value.as_str()) {
                Some(h) => {
                    assert(all[i as int] == (key@, value@));
                    assert(forwarded(key@, value@));
                    let ghost before = headers@;
                    headers.push(h);
                    proof {
                        assert(header_texts(headers@) =~= header_texts(before).push(all[i as int]));
                        assert forall|j: int| 0 <= j < header_texts(before).len() implies header_texts(before)[j].0 != all[i as int].0 by {
                            let k = choose|k: int| 0 <= k < i && header_texts(before)[j] == all[k];
                            assert(all[k].0 != all[i as int].0);
                        }
                        assert forall|k: int| 0 <= k < i + 1 && forwarded(#[trigger] all[k].0, all[k].1) implies exists|j: int|
                            0 <= j < headers@.len() && header_texts(headers@)[j] == all[k] by {
                            if k < i {
                                let j = choose|j: int| 0 <= j < before.len() && header_texts(before)[j] == all[k];
                                assert(header_texts(headers@)[j] == header_texts(before)[j]);
                            } else {
                                assert(header_texts(headers@)[before.len() as int] == all[k]);
                            }
                        }
                    }
                },
                None => {},
            }
        }
        proof {
            assert forall|j: int| 0 <= j < headers@.len() implies exists|k: int|
                0 <= k < i + 1 && #[trigger] header_texts(headers@)[j] == all[k] by {
                if j < old_list.len() {
                    let k = choose|k: int| 0 <= k < i && header_texts(old_list)[j] == all[k];
                    assert(header_texts(headers@)[j] == header_texts(old_list)[j]);
                } else {
                    assert(header_texts(headers@)[j] == all[i as int]);
                }
            }
        }
        i += 1;
    }
    proof {
        let p = header_texts(headers@);
        let m = request.headers@;
        assert forall|i: int| 0 <= i < p.len() implies #[trigger] m.contains_key(p[i].0)
            && m[p[i].0] == p[i].1 && forwarded(p[i].0, p[i].1) by {
            let k = choose|k: int| 0 <= k < entries@.len() && p[i] == all[k];
            assert(m.contains_key(all[k].0));
        }
        assert forall|k: Seq<char>| #[trigger] m.contains_key(k) && forwarded(k, m[k]) implies exists|i: int|
            0 <= i < p.len() && p[i].0 == k by {
            let j = choose|j: int| 0 <= j < all.len() && all[j].0 == k;
            assert(m.contains_key(all[j].0));
            assert(forwarded(all[j].0, all[j].1));
            let i = choose|i: int| 0 <= i < p.len() && p[i] == all[j];
            assert(p[i].0 == k);
        }
    }
    let body = match &request.body {
        Some(b) => b.clone(),
        None => String::new(),
    };
    Ok(ForwardPlan { method, uri, url, headers, body })
}

// ---------------------------------------------------------------- responses

/// What `hyper::StatusCode::from_u16(code)` and then `canonical_reason`
/// give: the reason phrase of a known status code.
pub uninterp spec fn reason_phrase(code: u16) -> Option<Seq<char>>;

/// `hyper::StatusCode::from_u16` then `canonical_reason`, as a `String`.
/// Each phrase of hyper's table is one or more words without white space,
/// joined by single spaces (such as `Not Found` or `I'm a teapot`).
#[verifier::external_body]
fn canonical_reason(code: u16) -> (r: Option<String>)
    ensures
        match r {
            Some(s) => reason_phrase(code) == Some(s@),
            None => reason_phrase(code) is None,
        },
        r matches Some(s) ==> exists|ws: Seq<Seq<char>>|
            ws.len() > 0 && plain_words(ws) && s@ == #[trigger] join(ws, seq![' ']),
{
    match hyper::StatusCode::from_u16(code) {
        Ok(status) => match status.canonical_reason() {
            Some(t) => Some(t.to_string()),
            None => None,
        },
        Err(_) => None,
    }
}

/// The reason phrase of `code`, or `Unknown`.
pub open spec fn reason_text(code: u16) -> Seq<char> {
    match reason_phrase(code) {
        Some(t) => t,
        None => "Unknown"@,
    }
}

/// Whatever follows a status line ended by CR LF, the text parses back to
/// that line's code and words.
pub proof fn law_status_line_first(code: u16, ws: Seq<Seq<char>>, rest: Seq<char>)
    requires
        ws.len() > 0,
        plain_words(ws),
    ensures
        response_model(status_line(code, ws) + "\r\n"@ + rest) is Ok,
        response_model(status_line(code, ws) + "\r\n"@ + rest)->Ok_0.status_code == code,
        response_model(status_line(code, ws) + "\r\n"@ + rest)->Ok_0.status_text == join(ws, seq![' ']),
{
    reveal_strlit("\r\n");
    let line = status_line(code, ws);
    lemma_status_line_words(code, ws);
    let e = Seq::<char>::empty();
    assert(scan_lines(e) == (Seq::<Seq<char>>::empty(), e));
    lemma_lines_after_crlf(e, line, rest);
    assert(e + line + seq!['\r', '\n'] + rest =~= line + "\r\n"@ + rest);
    let ls = lines(line + "\r\n"@ + rest);
    assert(ls[0] == line);
    let parts = words(line);
    assert(parts.len() >= 3);
    assert(parts.skip(2) =~= ws);
}

/// The status line of a response with `code`: the reason phrase when the
/// code has one, else `Unknown`.
pub open spec fn status_line_text(code: u16) -> Seq<char> {
    "HTTP/1.1 "@ + decimal(code as nat) + " "@ + match reason_phrase(code) {
        Some(t) => t,
        None => "Unknown"@,
    } + "\r\n"@
}

/// The header lines `name: value` of `p`, each ended by CR LF.
pub open spec fn header_lines(p: Seq<(Seq<char>, Seq<char>)>) -> Seq<char>
    decreases p.len(),
{
    if p.len() == 0 {
        seq![]
    } else {
        header_lines(p.drop_last()) + p.last().0 + ": "@ + p.last().1 + "\r\n"@
    }
}

/// The text of a backend response.
pub open spec fn response_text_of(code: u16, headers: Seq<(Seq<char>, Seq<char>)>, body: Seq<char>) -> Seq<char> {
    status_line_text(code) + header_lines(headers) + "\r\n"@ + body
}

/// The text of the backend's response that goes back to the client: the
/// status line, the header lines, a blank line and the body.
pub fn response_text(code: u16, headers: &Vec<(String, String)>, body: &str) -> (r: String)
    ensures
        r@ == response_text_of(code, pair_views(headers@), body@),
        response_model(r@) is Ok,
        response_model(r@)->Ok_0.status_code == code,
        response_model(r@)->Ok_0.status_text == reason_text(code),
{
    let mut r = String::from_str("HTTP/1.1 ");
    push_decimal(&mut r, code as u128);
    push_str(&mut r, " ");
    let reason = canonical_reason(code);
    match &reason {
        Some(t) => push_str(&mut r, t.as_str()),
        None => push_str(&mut r, "Unknown"),
    }
    push_str(&mut r, "\r\n");
    assert(r@ =~= status_line_text(code));
    let ghost head = r@;
    for i in 0..headers.len()
        invariant
            r@ == head + header_lines(pair_views(headers@).take(i as int)),
    {
        let ghost before = r@;
        push_str(&mut r, headers[i].0.as_str());
        push_str(&mut r, ": ");
        push_str(&mut r, headers[i].1.as_str());
        push_str(&mut r, "\r\n");
        assert(pair_views(headers@).take(i + 1).drop_last() =~= pair_views(headers@).take(i as int));
        assert(r@ =~= before + headers[i as int].0@ + ": "@ + headers[i as int].1@ + "\r\n"@);
    }
    assert(pair_views(headers@).take(headers.len() as int) =~= pair_views(headers@));
    push_str(&mut r, "\r\n");
    push_str(&mut r, body);
    assert(r@ =~= response_text_of(code, pair_views(headers@), body@));
    proof {
        reveal_strlit("Unknown");
        let ws: Seq<Seq<char>> = match reason {
            Some(t) => choose|ws: Seq<Seq<char>>|
                ws.len() > 0 && plain_words(ws) && t@ == #[trigger] join(ws, seq![' ']),
            None => seq!["Unknown"@],
        };
        if reason is None {
            assert(plain_word("Unknown"@));
            assert(join(ws, seq![' ']) == "Unknown"@);
        }
        assert(ws.len() > 0 && plain_words(ws) && join(ws, seq![' ']) == reason_text(code));
        let rest = header_lines(pair_views(headers@)) + "\r\n"@ + body@;
        law_status_line_first(code, ws, rest);
        assert(r@ =~= status_line(code, ws) + "\r\n"@ + rest);
    }
    r
}

/// Every byte is visible ASCII or tab: what `HeaderValue::to_str` accepts.
pub open spec fn visible_ascii(b: Seq<u8>) -> bool {
    forall|i: int| 0 <= i < b.len() ==> (32 <= #[trigger] b[i] <= 126 || b[i] == 9)
}

/// The characters of ASCII bytes.
pub open spec fn ascii_text(b: Seq<u8>) -> Seq<char> {
    b.map_values(|x: u8| x as char)
}

/// Backend header names with the bytes of their values.
pub open spec fn raw_views(v: Seq<(String, Vec<u8>)>) -> Seq<(Seq<char>, Seq<u8>)> {
    v.map_values(|e: (String, Vec<u8>)| (e.0@, e.1@))
}

/// The backend headers whose values read as text, in their order, each
/// value as its text.
pub open spec fn visible_headers(raw: Seq<(Seq<char>, Seq<u8>)>) -> Seq<(Seq<char>, Seq<char>)>
    decreases raw.len(),
{
    if raw.len() == 0 {
        seq![]
    } else if visible_ascii(raw.last().1) {
        visible_headers(raw.drop_last()).push((raw.last().0, ascii_text(raw.last().1)))
    } else {
        visible_headers(raw.drop_last())
    }
}

/// The value bytes as text when each is visible ASCII or tab.
fn visible_text(b: &Vec<u8>) -> (r: Option<String>)
    ensures
        match r {
            Some(t) => visible_ascii(b@) && t@ == ascii_text(b@),
            None => !visible_ascii(b@),
        },
{
    let mut t = String::new();
    for i in 0..b.len()
        invariant
            t@ == ascii_text(b@.take(i as int)),
            forall|k: int| 0 <= k < i ==> (32 <= #[trigger] b@[k] <= 126 || b@[k] == 9),
    {
        let x = b[i];
        if !(32 <= x && x <= 126 || x == 9) {
            return None;
        }
        push_char(&mut t, x as char);
        assert(ascii_text(b@.take(i + 1)) =~= ascii_text(b@.take(i as int)).push(x as char));
    }
    assert(b@.take(b.len() as int) =~= b@);
    Some(t)
}

/// Keeps the backend headers whose values read as text.
pub fn keep_visible_headers(raw: &Vec<(String, Vec<u8>)>) -> (r: Vec<(String, String)>)
    ensures
        pair_views(r@) == visible_headers(raw_views(raw@)),
{
    let mut r: Vec<(String, String)> = Vec::new();
    for i in 0..raw.len()
        invariant
            pair_views(r@) == visible_headers(raw_views(raw@).take(i as int)),
    {
        let ghost before = r@;
        let ghost prefix = raw_views(raw@).take(i + 1);
        assert(prefix.drop_last() =~= raw_views(raw@).take(i as int));
        assert(prefix.last() == (raw[i as int].0@, raw[i as int].1@));
        match visible_text(&raw[i].1) {
            Some(t) => {
                r.push((raw[i].0.clone(), t));
                assert(pair_views(r@) =~= pair_views(before).push((raw[i as int].0@, t@)));
            },
            None => {},
        }
    }
    assert(raw_views(raw@).take(raw.len() as int) =~= raw_views(raw@));
    r
}

/// What `String::from_utf8_lossy` makes of bytes: their decoding, with
/// each invalid sequence replaced.
pub uninterp spec fn lossy_decoding(bytes: Seq<u8>) -> Seq<char>;

/// `String::from_utf8_lossy`: on UTF-8 bytes, their decoding.
#[verifier::external_body]
fn lossy_utf8(bytes: &[u8]) -> (r: String)
    ensures
        r@ == lossy_decoding(bytes@),
        valid_utf8(bytes@) ==> r@ == decode_utf8(bytes@),
{
    String::from_utf8_lossy(bytes).into_owned()
}

/// The text that goes back to the client for a backend answer: status
/// line, the headers whose values read as text, a blank line, and the body
/// decoded with invalid sequences replaced.
pub fn backend_response_text(code: u16, raw_headers: &Vec<(String, Vec<u8>)>, body: &[u8]) -> (r: String)
    ensures
        r@ == response_text_of(code, visible_headers(raw_views(raw_headers@)), lossy_decoding(body@)),
        valid_utf8(body@) ==> r@ == response_text_of(code, visible_headers(raw_views(raw_headers@)), decode_utf8(body@)),
        response_model(r@) is Ok,
        response_model(r@)->Ok_0.status_code == code,
        response_model(r@)->Ok_0.status_text == reason_text(code),
{
    let headers = keep_visible_headers(raw_headers);
    let text = lossy_utf8(body);
    response_text(code, &headers, text.as_str())
}

/// Every request header other than `host` and `connection` whose name and
/// value hyper accepts is passed on with its value, and nothing else is:
/// each forwarded header is a request header, with its value, and is
/// neither `host` nor `connection`.
pub proof fn law_forwarded_headers(p: Seq<(Seq<char>, Seq<char>)>, m: Map<Seq<char>, Seq<char>>)
    requires
        lists_forwarded(p, m),
    ensures
        forall|k: Seq<char>|
            #[trigger] m.contains_key(k) && k != "host"@ && k != "connection"@ && header_name_ok(k)
                && header_value_ok(m[k]) ==> exists|i: int| 0 <= i < p.len() && p[i] == (k, m[k]),
        forall|i: int|
            0 <= i < p.len() ==> m.contains_key(#[trigger] p[i].0) && m[p[i].0] == p[i].1 && p[i].0
                != "host"@ && p[i].0 != "connection"@,
{
    assert forall|k: Seq<char>|
        #[trigger] m.contains_key(k) && k != "host"@ && k != "connection"@ && header_name_ok(k)
            && header_value_ok(m[k]) implies exists|i: int| 0 <= i < p.len() && p[i] == (k, m[k]) by {
        assert(forwarded(k, m[k]));
        let i = choose|i: int| 0 <= i < p.len() && p[i].0 == k;
        assert(m.contains_key(p[i].0) && m[p[i].0] == p[i].1);
        assert(p[i] == (k, m[k]));
    }
    assert forall|i: int| 0 <= i < p.len() implies m.contains_key(#[trigger] p[i].0) && m[p[i].0]
        == p[i].1 && p[i].0 != "host"@ && p[i].0 != "connection"@ by {
        assert(m.contains_key(p[i].0) && m[p[i].0] == p[i].1 && forwarded(p[i].0, p[i].1));
    }
}

/// A request header named in lower-case letters, digits and hyphens and
/// valued in printable ASCII or tabs is passed on with its value, whatever
/// its name, unless that name is `host` or `connection`.
pub proof fn law_plain_headers_forwarded(
    p: Seq<(Seq<char>, Seq<char>)>,
    m: Map<Seq<char>, Seq<char>>,
    k: Seq<char>,
)
    requires
        lists_forwarded(p, m),
        m.contains_key(k),
        k != "host"@,
        k != "connection"@,
        0 < k.len() <= 65535,
        forall|j: int|
            0 <= j < k.len() ==> ('a' <= #[trigger] k[j] <= 'z') || ('0' <= k[j] <= '9') || k[j]
                == '-',
        forall|j: int| 0 <= j < m[k].len() ==> (' ' <= #[trigger] m[k][j] <= '~') || m[k][j] == '\t',
    ensures
        exists|i: int| 0 <= i < p.len() && p[i] == (k, m[k]),
{
    let v = m[k];
    assert(vstd::utf8::is_ascii_chars(k));
    assert(vstd::utf8::is_ascii_chars(v));
    vstd::utf8::is_ascii_chars_encode_utf8(k);
    vstd::utf8::is_ascii_chars_encode_utf8(v);
    let kb = vstd::utf8::encode_utf8(k);
    let vb = vstd::utf8::encode_utf8(v);
    assert forall|i: int| 0 <= i < kb.len() implies is_token_byte(#[trigger] kb[i]) by {
        assert(k[i] as u8 == kb[i]);
    }
    assert forall|i: int| 0 <= i < vb.len() implies (#[trigger] vb[i] >= 32 && vb[i] != 127) || vb[i]
        == 9 by {
        assert(v[i] as u8 == vb[i]);
    }
    assert(header_name_ok(k));
    assert(header_value_ok(v));
    assert(forwarded(k, v));
    let i = choose|i: int| 0 <= i < p.len() && p[i].0 == k;
    assert(m.contains_key(p[i].0) && m[p[i].0] == p[i].1);
    assert(p[i] == (k, v));
}

/// Backend headers are filtered one by one, in order: the kept headers of
/// two lists one after the other are those of the first, then those of
/// the second.
pub proof fn law_visible_headers_concat(a: Seq<(Seq<char>, Seq<u8>)>, b: Seq<(Seq<char>, Seq<u8>)>)
    ensures
        visible_headers(a + b) == visible_headers(a) + visible_headers(b),
    decreases b.len(),
{
    if b.len() == 0 {
        assert(a + b =~= a);
        assert(visible_headers(a) + visible_headers(b) =~= visible_headers(a));
    } else {
        law_visible_headers_concat(a, b.drop_last());
        assert((a + b).drop_last() =~= a + b.drop_last());
        assert((a + b).last() == b.last());
        if visible_ascii(b.last().1) {
            assert((visible_headers(a) + visible_headers(b.drop_last())).push(
                (b.last().0, ascii_text(b.last().1)),
            ) =~= visible_headers(a) + visible_headers(b));
        }
    }
}

/// A backend header is kept exactly when every byte of its value is
/// printable ASCII (space to tilde) or a tab; it is kept under its name,
/// its value read byte for byte as characters.
pub proof fn law_visible_header_single(n: Seq<char>, b: Seq<u8>)
    ensures
        visible_headers(seq![(n, b)]).len() == if (forall|i: int|
            0 <= i < b.len() ==> (0x20 <= #[trigger] b[i] && b[i] <= 0x7e) || b[i] == 0x09) {
            1int
        } else {
            0int
        },
        visible_headers(seq![(n, b)]).len() == 1 ==> {
            &&& visible_headers(seq![(n, b)])[0].0 == n
            &&& visible_headers(seq![(n, b)])[0].1.len() == b.len()
            &&& forall|i: int|
                0 <= i < b.len() ==> #[trigger] visible_headers(seq![(n, b)])[0].1[i] as u32 == b[i]
                    as u32
        },
{
    let one = seq![(n, b)];
    assert(one.drop_last() =~= Seq::<(Seq<char>, Seq<u8>)>::empty());
    assert(visible_headers(Seq::<(Seq<char>, Seq<u8>)>::empty()) =~= Seq::<(Seq<char>, Seq<char>)>::empty());
    assert(one.last() == (n, b));
    if visible_ascii(b) {
        assert(visible_headers(one) =~= seq![(n, ascii_text(b))]);
        assert forall|i: int| 0 <= i < b.len() implies #[trigger] ascii_text(b)[i] as u32 == b[i] as u32 by {
            assert(ascii_text(b)[i] == b[i] as char);
        }
    } else {
        let i = choose|i: int| 0 <= i < b.len() && !(32 <= #[trigger] b[i] <= 126 || b[i] == 9);
        assert(!((0x20 <= b[i] && b[i] <= 0x7e) || b[i] == 0x09));
    }
}

/// The text sent back for a backend response with one header: the header
/// line `name: value` stands between the status line and the blank line
/// exactly when every byte of the value is printable ASCII or a tab;
/// otherwise the blank line follows the status line.
pub proof fn law_visible_header_text(code: u16, n: Seq<char>, b: Seq<u8>, body: Seq<char>)
    ensures
        (forall|i: int| 0 <= i < b.len() ==> (0x20 <= #[trigger] b[i] && b[i] <= 0x7e) || b[i] == 0x09)
            ==> response_text_of(code, visible_headers(seq![(n, b)]), body) == status_line_text(code)
            + n + ": "@ + ascii_text(b) + "\r\n"@ + "\r\n"@ + body,
        !(forall|i: int| 0 <= i < b.len() ==> (0x20 <= #[trigger] b[i] && b[i] <= 0x7e) || b[i] == 0x09)
            ==> response_text_of(code, visible_headers(seq![(n, b)]), body) == status_line_text(code)
            + "\r\n"@ + body,
{
    let one = seq![(n, b)];
    law_visible_header_single(n, b);
    assert(one.drop_last() =~= Seq::<(Seq<char>, Seq<u8>)>::empty());
    assert(visible_headers(Seq::<(Seq<char>, Seq<u8>)>::empty()) =~= Seq::<(Seq<char>, Seq<char>)>::empty());
    assert(one.last() == (n, b));
    let e = Seq::<(Seq<char>, Seq<char>)>::empty();
    assert(header_lines(e) =~= Seq::<char>::empty());
    if visible_ascii(b) {
        let kept = seq![(n, ascii_text(b))];
        assert(visible_headers(one) =~= kept);
        assert(kept.drop_last() =~= e);
        assert(header_lines(kept) =~= n + ": "@ + ascii_text(b) + "\r\n"@);
        assert(status_line_text(code) + header_lines(kept) + "\r\n"@ + body =~= status_line_text(code)
            + n + ": "@ + ascii_text(b) + "\r\n"@ + "\r\n"@ + body);
    } else {
        assert(visible_headers(one) =~= e);
        assert(status_line_text(code) + header_lines(e) + "\r\n"@ + body =~= status_line_text(code)
            + "\r\n"@ + body);
    }
}

/// Bytes that do not make a request, and requests that do not parse, are
/// answered with status 400; a backend that cannot be reached, with 502.
pub proof fn law_error_reply_status(error: Seq<char>)
    ensures
        invalid_utf8_text().take(26) == "HTTP/1.1 400 Bad Request\r\n"@,
        bad_request_text(error).take(26) == "HTTP/1.1 400 Bad Request\r\n"@,
        bad_gateway_text(error).take(26) == "HTTP/1.1 502 Bad Gateway\r\n"@,
{
    reveal_strlit("HTTP/1.1 400 Bad Request\r\n");
    reveal_strlit("HTTP/1.1 502 Bad Gateway\r\n");
    reveal_strlit("HTTP/1.1 400 Bad Request\r\n\r\nInvalid UTF-8");
    reveal_strlit("HTTP/1.1 400 Bad Request\r\nContent-Type: text/plain\r\n\r\nBad Request: ");
    reveal_strlit("HTTP/1.1 502 Bad Gateway\r\nContent-Type: text/plain\r\n\r\nProxy Error: ");
    assert(invalid_utf8_text().take(26) =~= "HTTP/1.1 400 Bad Request\r\n"@);
    assert(bad_request_text(error).take(26) =~= "HTTP/1.1 400 Bad Request\r\n"@);
    assert(bad_gateway_text(error).take(26) =~= "HTTP/1.1 502 Bad Gateway\r\n"@);
}

} // verus!
