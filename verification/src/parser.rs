//! HTTP/1.1 request and response parsing.
use vstd::prelude::*;

use crate::headers::HeaderMap;
use crate::text::{
    chars_of, decimal, is_blank, is_digit, is_ws, join, join_from, lemma_decimal,
    lemma_join_no_newline, lemma_join_prepend, lemma_lines_after_crlf, lemma_parse_decimal,
    lemma_scan_lines_join, lemma_trim_keeps,
    lemma_words_of_join, lines, lowercase, parse_u16, parse_u16_chars, plain_word, plain_words,
    push_chars, push_str, scan_lines, split_lines, split_once, split_once_at, split_words,
    string_of, to_lowercase, trim, trim_chars, views, words,
};

verus! {

/// A parsed HTTP request.
#[derive(Debug)]
pub struct HttpRequest {
    pub method: String,
    pub path: String,
    pub version: String,
    pub headers: HeaderMap,
    pub body: Option<String>,
    pub raw: String,
}

/// A parsed HTTP response.
#[derive(Debug)]
pub struct HttpResponse {
    pub status_code: u16,
    pub status_text: String,
    pub headers: HeaderMap,
    pub body: String,
}

/// What a request is made of, as sequences of characters.
pub struct RequestModel {
    pub method: Seq<char>,
    pub path: Seq<char>,
    pub version: Seq<char>,
    pub headers: Map<Seq<char>, Seq<char>>,
    pub body: Option<Seq<char>>,
    pub raw: Seq<char>,
}

/// What a response is made of, as sequences of characters.
pub struct ResponseModel {
    pub status_code: u16,
    pub status_text: Seq<char>,
    pub headers: Map<Seq<char>, Seq<char>>,
    pub body: Seq<char>,
}

impl View for HttpRequest {
    type V = RequestModel;

    open spec fn view(&self) -> RequestModel {
        RequestModel {
            method: self.method@,
            path: self.path@,
            version: self.version@,
            headers: self.headers@,
            body: match self.body {
                Some(b) => Some(b@),
                None => None,
            },
            raw: self.raw@,
        }
    }
}

impl View for HttpResponse {
    type V = ResponseModel;

    open spec fn view(&self) -> ResponseModel {
        ResponseModel {
            status_code: self.status_code,
            status_text: self.status_text@,
            headers: self.headers@,
            body: self.body@,
        }
    }
}

fn clone_body(body: &Option<String>) -> (r: Option<String>)
    ensures
        r == *body,
{
    match body {
        Some(b) => Some(b.clone()),
        None => None,
    }
}

impl Clone for HttpRequest {
    fn clone(&self) -> (r: HttpRequest)
        ensures
            r@ == self@,
    {
        HttpRequest {
            method: self.method.clone(),
            path: self.path.clone(),
            version: self.version.clone(),
            headers: self.headers.clone(),
            body: clone_body(&self.body),
            raw: self.raw.clone(),
        }
    }
}

impl Clone for HttpResponse {
    fn clone(&self) -> (r: HttpResponse)
        ensures
            r@ == self@,
    {
        HttpResponse {
            status_code: self.status_code,
            status_text: self.status_text.clone(),
            headers: self.headers.clone(),
            body: self.body.clone(),
        }
    }
}

/// Reading the lines after the first one from the left: the headers so
/// far, the body lines so far, and whether a blank line has been seen.
/// A blank line (white space only) is never part of the body; before the
/// first blank line, a line `name: value` maps the trimmed, lower-cased
/// name to the trimmed value, and a line without `:` is ignored.
pub open spec fn scan_head(ls: Seq<Seq<char>>) -> (Map<Seq<char>, Seq<char>>, Seq<Seq<char>>, bool)
    decreases ls.len(),
{
    if ls.len() == 0 {
        (Map::empty(), seq![], false)
    } else {
        let (h, b, in_body) = scan_head(ls.drop_last());
        let line = ls.last();
        if trim(line).len() == 0 {
            (h, b, true)
        } else if in_body {
            (h, b.push(line), true)
        } else {
            match split_once(line, ':') {
                Some((k, v)) => (h.insert(lowercase(trim(k)), trim(v)), b, false),
                None => (h, b, false),
            }
        }
    }
}

/// What `parse_request` makes of `raw`: an error message, or the request.
pub open spec fn request_model(raw: Seq<char>) -> Result<RequestModel, Seq<char>> {
    let ls = lines(raw);
    if ls.len() == 0 {
        Err("Empty request"@)
    } else if words(ls[0]).len() < 3 {
        Err("Invalid request line: "@ + ls[0])
    } else {
        let toks = words(ls[0]);
        let (headers, body, _) = scan_head(ls.skip(1));
        Ok(
            RequestModel {
                method: toks[0],
                path: toks[1],
                version: toks[2],
                headers,
                body: if body.len() == 0 {
                    None
                } else {
                    Some(join(body, seq!['\n']))
                },
                raw,
            },
        )
    }
}

/// What `parse_response` makes of `raw`: an error message, or the response.
pub open spec fn response_model(raw: Seq<char>) -> Result<ResponseModel, Seq<char>> {
    let ls = lines(raw);
    if ls.len() == 0 {
        Err("Empty response"@)
    } else if words(ls[0]).len() < 2 {
        Err("Invalid status line: "@ + ls[0])
    } else if parse_u16(words(ls[0])[1]) is None {
        Err("Invalid status code"@)
    } else {
        let parts = words(ls[0]);
        let (headers, body, _) = scan_head(ls.skip(1));
        Ok(
            ResponseModel {
                status_code: parse_u16(parts[1])->0,
                status_text: if parts.len() > 2 {
                    join(parts.skip(2), seq![' '])
                } else {
                    seq![]
                },
                headers,
                body: join(body, seq!['\n']),
            },
        )
    }
}

/// Reads the header lines and body lines of `ls[from..]`.
fn read_head(ls: &Vec<Vec<char>>, from: usize) -> (r: (HeaderMap, Vec<Vec<char>>))
    requires
        from <= ls.len(),
    ensures
        r.0@ == scan_head(views(ls@).skip(from as int)).0,
        views(r.1@) == scan_head(views(ls@).skip(from as int)).1,
{
    let mut headers = HeaderMap::new();
    let mut body: Vec<Vec<char>> = Vec::new();
    let mut in_body = false;
    let mut i = from;
    assert(views(ls@).subrange(from as int, from as int) =~= Seq::<Seq<char>>::empty());
    while i < ls.len()
        invariant
            from <= i <= ls.len(),
            scan_head(views(ls@).subrange(from as int, i as int)) == (
                headers@,
                views(body@),
                in_body,
            ),
        decreases ls.len() - i,
    {
        let line = &ls[i];
        let ghost prefix = views(ls@).subrange(from as int, i + 1);
        assert(prefix.drop_last() =~= views(ls@).subrange(from as int, i as int));
        assert(prefix.last() == line@);
        if is_blank(line) {
            in_body = true;
        } else if in_body {
            let ghost before = body@;
            body.push(line.clone());
            assert(views(body@) =~= views(before).push(line@));
        } else {
            match split_once_at(line, ':') {
                Some((k, v)) => {
                    let name = string_of(&to_lowercase(&trim_chars(&k)));
                    let value = string_of(&trim_chars(&v));
                    headers.insert(name, value);
                },
                None => {},
            }
        }
        i += 1;
    }
    assert(views(ls@).subrange(from as int, ls.len() as int) =~= views(ls@).skip(from as int));
    (headers, body)
}

/// Parses a raw HTTP request: the request line `METHOD PATH VERSION`,
/// header lines up to the first blank line, then the body.
pub fn parse_request(raw: &str) -> (r: Result<HttpRequest, String>)
    ensures
        match r {
            Ok(req) => request_model(raw@) matches Ok(m) && req@ == m,
            Err(e) => request_model(raw@) matches Err(m) && e@ == m,
        },
{
    let chars = chars_of(raw);
    let ls = split_lines(&chars);
    assert(views(ls@).len() == ls@.len());
    if ls.len() == 0 {
        return Err(String::from_str("Empty request"));
    }
    let req_line = &ls[0];
    assert(views(ls@)[0] == req_line@);
    let toks = split_words(req_line);
    if toks.len() < 3 {
        let mut e = String::from_str("Invalid request line: ");
        push_chars(&mut e, req_line);
        return Err(e);
    }
    assert(views(toks@)[0] == toks[0]@ && views(toks@)[1] == toks[1]@ && views(toks@)[2]
        == toks[2]@);
    let method = string_of(&toks[0]);
    let path = string_of(&toks[1]);
    let version = string_of(&toks[2]);
    let (headers, body_lines) = read_head(&ls, 1);
    let body = if body_lines.len() == 0 {
        None
    } else {
        let joined = join_from(&body_lines, 0, '\n');
        assert(views(body_lines@).skip(0) =~= views(body_lines@));
        Some(string_of(&joined))
    };
    let req = HttpRequest {
        method,
        path,
        version,
        headers,
        body,
        raw: String::from_str(raw),
    };
    assert(req@ == request_model(raw@)->Ok_0);
    Ok(req)
}

/// Parses a raw HTTP response: the status line `VERSION CODE [REASON...]`,
/// header lines up to the first blank line, then the body.
pub fn parse_response(raw: &str) -> (r: Result<HttpResponse, String>)
    ensures
        match r {
            Ok(res) => response_model(raw@) matches Ok(m) && res@ == m,
            Err(e) => response_model(raw@) matches Err(m) && e@ == m,
        },
{
    let chars = chars_of(raw);
    let ls = split_lines(&chars);
    assert(views(ls@).len() == ls@.len());
    if ls.len() == 0 {
        return Err(String::from_str("Empty response"));
    }
    let status_line = &ls[0];
    assert(views(ls@)[0] == status_line@);
    let parts = split_words(status_line);
    if parts.len() < 2 {
        let mut e = String::from_str("Invalid status line: ");
        push_chars(&mut e, status_line);
        return Err(e);
    }
    assert(views(parts@)[1] == parts[1]@);
    let status_code = match parse_u16_chars(&parts[1]) {
        Some(c) => c,
        None => {
            return Err(String::from_str("Invalid status code"));
        },
    };
    let status_text = if parts.len() > 2 {
        string_of(&join_from(&parts, 2, ' '))
    } else {
        String::new()
    };
    let (headers, body_lines) = read_head(&ls, 1);
    let joined = join_from(&body_lines, 0, '\n');
    assert(views(body_lines@).skip(0) =~= views(body_lines@));
    let res = HttpResponse { status_code, status_text, headers, body: string_of(&joined) };
    assert(res@ == response_model(raw@)->Ok_0);
    Ok(res)
}

/// Every name of `m` is its own ASCII lower case.
pub open spec fn lowercase_names(m: Map<Seq<char>, Seq<char>>) -> bool {
    forall|k: Seq<char>| #[trigger] m.contains_key(k) ==> lowercase(k) == k
}

proof fn lemma_lowercase_idempotent(s: Seq<char>)
    ensures
        lowercase(lowercase(s)) == lowercase(s),
{
    assert(lowercase(lowercase(s)) =~= lowercase(s));
}

proof fn lemma_scan_head_lowercase(ls: Seq<Seq<char>>)
    ensures
        lowercase_names(scan_head(ls).0),
    decreases ls.len(),
{
    if ls.len() > 0 {
        lemma_scan_head_lowercase(ls.drop_last());
        let line = ls.last();
        if let Some((k, v)) = split_once(line, ':') {
            lemma_lowercase_idempotent(trim(k));
        }
    }
}

/// Header names come out in lower case, whatever case the raw text gave
/// them: a parsed request or response maps only lower-case names.
pub proof fn law_header_names_lowercase(raw: Seq<char>)
    ensures
        request_model(raw) matches Ok(m) ==> lowercase_names(m.headers),
        response_model(raw) matches Ok(m) ==> lowercase_names(m.headers),
{
    let ls = lines(raw);
    if ls.len() > 0 {
        lemma_scan_head_lowercase(ls.skip(1));
    }
}

/// The header name a line gives: what stands before its first `:`,
/// trimmed and in lower case.
pub open spec fn header_name_of(line: Seq<char>) -> Seq<char> {
    match split_once(line, ':') {
        Some((k, _)) => lowercase(trim(k)),
        None => seq![],
    }
}

/// Some line of `ls` is blank.
pub open spec fn has_blank(ls: Seq<Seq<char>>) -> bool {
    exists|i: int| 0 <= i < ls.len() && #[trigger] trim(ls[i]).len() == 0
}

proof fn lemma_scan_head_in_body(ls: Seq<Seq<char>>)
    ensures
        scan_head(ls).2 == has_blank(ls),
    decreases ls.len(),
{
    if ls.len() > 0 {
        lemma_scan_head_in_body(ls.drop_last());
        if has_blank(ls.drop_last()) {
            let i = choose|i: int| 0 <= i < ls.drop_last().len() && #[trigger] trim(ls.drop_last()[i]).len() == 0;
            assert(trim(ls[i]).len() == 0);
        }
        if has_blank(ls) && !has_blank(ls.drop_last()) {
            let i = choose|i: int| 0 <= i < ls.len() && #[trigger] trim(ls[i]).len() == 0;
            if i < ls.len() - 1 {
                assert(trim(ls.drop_last()[i]).len() == 0);
            }
        }
    }
}

proof fn lemma_header_line_kept(ls: Seq<Seq<char>>, j: int)
    requires
        0 <= j < ls.len(),
        !has_blank(ls.take(j + 1)),
        split_once(ls[j], ':') is Some,
    ensures
        scan_head(ls).0.contains_key(header_name_of(ls[j])),
    decreases ls.len(),
{
    let key = header_name_of(ls[j]);
    if j == ls.len() - 1 {
        assert(ls.take(j + 1) =~= ls);
        assert(ls.drop_last().take(j) =~= ls.take(j));
        lemma_scan_head_in_body(ls.drop_last());
        assert(!has_blank(ls.drop_last())) by {
            if has_blank(ls.drop_last()) {
                let i = choose|i: int| 0 <= i < ls.drop_last().len() && #[trigger] trim(ls.drop_last()[i]).len() == 0;
                assert(trim(ls[i]).len() == 0);
            }
        }
        assert(trim(ls[j]).len() != 0) by {
            assert(ls.take(j + 1)[j] == ls[j]);
        }
    } else {
        assert(ls.drop_last().take(j + 1) =~= ls.take(j + 1));
        assert(ls.drop_last()[j] == ls[j]);
        lemma_header_line_kept(ls.drop_last(), j);
    }
}

/// Header names are found whatever case the request wrote them in: a line
/// `Name: value` before the first blank line puts the trimmed, lower-cased
/// name among the parsed headers.
pub proof fn law_header_lines_are_found(raw: Seq<char>, j: int)
    requires
        1 <= j < lines(raw).len(),
        !has_blank(lines(raw).subrange(1, j + 1)),
        split_once(lines(raw)[j], ':') is Some,
    ensures
        request_model(raw) matches Ok(m) ==> m.headers.contains_key(
            header_name_of(lines(raw)[j]),
        ),
{
    let ls = lines(raw).skip(1);
    assert(ls.take(j) =~= lines(raw).subrange(1, j + 1));
    assert(ls[j - 1] == lines(raw)[j]);
    lemma_header_line_kept(ls, j - 1);
}

/// The text of a status line `HTTP/1.1 <code> <words>`.
pub open spec fn status_line(code: u16, ws: Seq<Seq<char>>) -> Seq<char> {
    "HTTP/1.1 "@ + decimal(code as nat) + " "@ + join(ws, seq![' '])
}

/// A status line as a list of words: the version, the code, then `ws`.
pub proof fn lemma_status_line_words(code: u16, ws: Seq<Seq<char>>)
    requires
        ws.len() > 0,
        plain_words(ws),
    ensures
        words(status_line(code, ws)) == seq!["HTTP/1.1"@, decimal(code as nat)] + ws,
        forall|i: int| 0 <= i < status_line(code, ws).len() ==> #[trigger] status_line(code, ws)[i] != '\n',
        parse_u16(decimal(code as nat)) == Some(code),
{
    reveal_strlit("HTTP/1.1 ");
    reveal_strlit("HTTP/1.1");
    reveal_strlit(" ");
    let w0 = "HTTP/1.1"@;
    let dec = decimal(code as nat);
    lemma_decimal(code as nat);
    lemma_parse_decimal(code);
    assert(plain_word(w0));
    assert(plain_word(dec)) by {
        assert forall|i: int| 0 <= i < dec.len() implies !is_ws(#[trigger] dec[i]) by {
            assert(is_digit(dec[i]));
        }
    }
    let rest = seq![dec] + ws;
    let all = seq![w0] + rest;
    assert(all =~= seq![w0, dec] + ws);
    assert(plain_words(all)) by {
        assert forall|i: int| 0 <= i < all.len() implies plain_word(#[trigger] all[i]) by {
            if i >= 2 {
                assert(all[i] == ws[i - 2]);
            }
        }
    }
    lemma_join_prepend(w0, rest, seq![' ']);
    lemma_join_prepend(dec, ws, seq![' ']);
    assert(join(all, seq![' ']) =~= status_line(code, ws));
    lemma_words_of_join(all);
    lemma_join_no_newline(all);
}

/// A status line `HTTP/1.1 <code> <words>` and a blank line parse back to
/// that code and those words, with no header and an empty body.
pub proof fn law_status_line_round_trip(code: u16, ws: Seq<Seq<char>>)
    requires
        ws.len() > 0,
        plain_words(ws),
    ensures
        response_model(status_line(code, ws) + "\r\n\r\n"@) is Ok,
        response_model(status_line(code, ws) + "\r\n\r\n"@)->Ok_0.status_code == code,
        response_model(status_line(code, ws) + "\r\n\r\n"@)->Ok_0.status_text == join(ws, seq![' ']),
        response_model(status_line(code, ws) + "\r\n\r\n"@)->Ok_0.headers == Map::<Seq<char>, Seq<char>>::empty(),
        response_model(status_line(code, ws) + "\r\n\r\n"@)->Ok_0.body == Seq::<char>::empty(),
{
    reveal_strlit("\r\n\r\n");
    let line = status_line(code, ws);
    lemma_status_line_words(code, ws);
    let e = Seq::<char>::empty();
    assert(scan_lines(e) == (Seq::<Seq<char>>::empty(), e));
    lemma_lines_after_crlf(e, line, e);
    assert(e + line =~= line);
    let p = line + seq!['\r', '\n'];
    assert(scan_lines(p) == (seq![line], e));
    assert(lines(p) == seq![line]);
    lemma_lines_after_crlf(p, e, e);
    let raw = line + "\r\n\r\n"@;
    assert(p + e + seq!['\r', '\n'] =~= raw);
    assert(scan_lines(raw) == (seq![line].push(e), e));
    let ls = lines(raw);
    assert(ls =~= seq![line, e]);
    let parts = words(ls[0]);
    assert(parts.len() >= 3);
    assert(parts.skip(2) =~= ws);
    assert(ls.skip(1) =~= seq![e]);
    assert(seq![e].drop_last() =~= Seq::<Seq<char>>::empty());
    assert(trim(e) =~= e);
    assert(scan_head(Seq::<Seq<char>>::empty()) == (
        Map::<Seq<char>, Seq<char>>::empty(),
        Seq::<Seq<char>>::empty(),
        false,
    ));
    assert(scan_head(seq![e]) == (
        Map::<Seq<char>, Seq<char>>::empty(),
        Seq::<Seq<char>>::empty(),
        true,
    ));
    assert(scan_head(ls.skip(1)) == scan_head(seq![e]));
    assert(join(Seq::<Seq<char>>::empty(), seq!['\n']) == e);
}

/// The request line's three words are the method, the path and the
/// version, each whole, whatever characters other than white space they
/// hold (a path keeps its query, for instance), and the raw text is kept.
pub proof fn law_request_line_words(m: Seq<char>, p: Seq<char>, v: Seq<char>, rest: Seq<char>)
    requires
        plain_word(m),
        plain_word(p),
        plain_word(v),
    ensures
        request_model(m + " "@ + p + " "@ + v + "\r\n"@ + rest) is Ok,
        request_model(m + " "@ + p + " "@ + v + "\r\n"@ + rest)->Ok_0.method == m,
        request_model(m + " "@ + p + " "@ + v + "\r\n"@ + rest)->Ok_0.path == p,
        request_model(m + " "@ + p + " "@ + v + "\r\n"@ + rest)->Ok_0.version == v,
        request_model(m + " "@ + p + " "@ + v + "\r\n"@ + rest)->Ok_0.raw == m + " "@ + p + " "@
            + v + "\r\n"@ + rest,
{
    reveal_strlit(" ");
    reveal_strlit("\r\n");
    let ws = seq![m, p, v];
    assert(plain_words(ws)) by {
        assert forall|i: int| 0 <= i < ws.len() implies plain_word(#[trigger] ws[i]) by {
            if i == 0 {
                assert(ws[i] == m);
            } else if i == 1 {
                assert(ws[i] == p);
            } else {
                assert(ws[i] == v);
            }
        }
    }
    lemma_join_prepend(m, seq![p, v], seq![' ']);
    lemma_join_prepend(p, seq![v], seq![' ']);
    assert(seq![m] + seq![p, v] =~= ws);
    assert(seq![p] + seq![v] =~= seq![p, v]);
    assert(join(seq![v], seq![' ']) == v);
    let line = join(ws, seq![' ']);
    assert(line =~= m + " "@ + p + " "@ + v);
    lemma_words_of_join(ws);
    lemma_join_no_newline(ws);
    let e = Seq::<char>::empty();
    assert(scan_lines(e) == (Seq::<Seq<char>>::empty(), e));
    lemma_lines_after_crlf(e, line, rest);
    assert(e + line + seq!['\r', '\n'] + rest =~= m + " "@ + p + " "@ + v + "\r\n"@ + rest);
}

/// A body line: something other than white space, and no CR or LF.
pub open spec fn body_line(l: Seq<char>) -> bool {
    &&& exists|j: int| 0 <= j < l.len() && !is_ws(#[trigger] l[j])
    &&& forall|j: int| 0 <= j < l.len() ==> #[trigger] l[j] != '\n' && l[j] != '\r'
}

proof fn lemma_scan_head_body(pre: Seq<Seq<char>>, ls: Seq<Seq<char>>)
    requires
        scan_head(pre).2,
        forall|i: int| 0 <= i < ls.len() ==> body_line(#[trigger] ls[i]),
    ensures
        scan_head(pre + ls) == (scan_head(pre).0, scan_head(pre).1 + ls, true),
    decreases ls.len(),
{
    if ls.len() == 0 {
        assert(pre + ls =~= pre);
        assert(scan_head(pre).1 + ls =~= scan_head(pre).1);
    } else {
        let d = ls.drop_last();
        assert forall|i: int| 0 <= i < d.len() implies body_line(#[trigger] d[i]) by {
            assert(d[i] == ls[i]);
        }
        lemma_scan_head_body(pre, d);
        assert((pre + ls).drop_last() =~= pre + d);
        let l = ls.last();
        assert(body_line(ls[ls.len() - 1]));
        let j = choose|j: int| 0 <= j < l.len() && !is_ws(#[trigger] l[j]);
        lemma_trim_keeps(l, j);
        assert((scan_head(pre).1 + d).push(l) =~= scan_head(pre).1 + ls);
    }
}

proof fn lemma_lines_with_body(line: Seq<char>, ls: Seq<Seq<char>>)
    requires
        forall|i: int| 0 <= i < line.len() ==> #[trigger] line[i] != '\n',
        ls.len() > 0,
        forall|i: int| 0 <= i < ls.len() ==> body_line(#[trigger] ls[i]),
    ensures
        lines(line + "\r\n\r\n"@ + join(ls, seq!['\n'])) == seq![line, Seq::<char>::empty()] + ls,
{
    reveal_strlit("\r\n\r\n");
    let e = Seq::<char>::empty();
    assert(scan_lines(e) == (Seq::<Seq<char>>::empty(), e));
    lemma_lines_after_crlf(e, line, e);
    assert(e + line =~= line);
    let p = line + seq!['\r', '\n'];
    assert(scan_lines(p) == (seq![line], e));
    assert(lines(p) == seq![line]);
    lemma_lines_after_crlf(p, e, e);
    let p2 = line + "\r\n\r\n"@;
    assert(p + e + seq!['\r', '\n'] =~= p2);
    assert(scan_lines(p2) == (seq![line, e], e));
    assert forall|i: int, j: int| 0 <= i < ls.len() && 0 <= j < ls[i].len() implies #[trigger] ls[i][j]
        != '\n' && ls[i][j] != '\r' by {
        assert(body_line(ls[i]));
    }
    lemma_scan_lines_join(p2, ls);
    let last = ls.last();
    assert(body_line(ls[ls.len() - 1]));
    assert(last.len() > 0);
    assert((seq![line, e] + ls.drop_last()).push(last) =~= seq![line, e] + ls);
}

/// The body of a response is the text after its first blank line, line
/// for line unchanged, when no line of it is blank.
pub proof fn law_response_body_kept(code: u16, ws: Seq<Seq<char>>, ls: Seq<Seq<char>>)
    requires
        ws.len() > 0,
        plain_words(ws),
        ls.len() > 0,
        forall|i: int| 0 <= i < ls.len() ==> body_line(#[trigger] ls[i]),
    ensures
        response_model(status_line(code, ws) + "\r\n\r\n"@ + join(ls, seq!['\n'])) is Ok,
        response_model(status_line(code, ws) + "\r\n\r\n"@ + join(ls, seq!['\n']))->Ok_0.body
            == join(ls, seq!['\n']),
        response_model(status_line(code, ws) + "\r\n\r\n"@ + join(ls, seq!['\n']))->Ok_0.status_code
            == code,
{
    let line = status_line(code, ws);
    lemma_status_line_words(code, ws);
    lemma_lines_with_body(line, ls);
    let e = Seq::<char>::empty();
    let all = seq![line, e] + ls;
    assert(all[0] == line);
    assert(all.skip(1) =~= seq![e] + ls);
    assert(trim(e) =~= e);
    assert(scan_head(Seq::<Seq<char>>::empty()) == (
        Map::<Seq<char>, Seq<char>>::empty(),
        Seq::<Seq<char>>::empty(),
        false,
    ));
    assert(seq![e].drop_last() =~= Seq::<Seq<char>>::empty());
    assert(scan_head(seq![e]).2);
    lemma_scan_head_body(seq![e], ls);
    assert(scan_head(seq![e]).1 =~= Seq::<Seq<char>>::empty());
    assert(Seq::<Seq<char>>::empty() + ls =~= ls);
}

/// The body of a request is the text after its first blank line, line for
/// line unchanged, when no line of it is blank.
pub proof fn law_request_body_kept(m: Seq<char>, p: Seq<char>, v: Seq<char>, ls: Seq<Seq<char>>)
    requires
        plain_word(m),
        plain_word(p),
        plain_word(v),
        ls.len() > 0,
        forall|i: int| 0 <= i < ls.len() ==> body_line(#[trigger] ls[i]),
    ensures
        request_model(m + " "@ + p + " "@ + v + "\r\n\r\n"@ + join(ls, seq!['\n'])) is Ok,
        request_model(m + " "@ + p + " "@ + v + "\r\n\r\n"@ + join(ls, seq!['\n']))->Ok_0.body
            == Some(join(ls, seq!['\n'])),
{
    reveal_strlit(" ");
    reveal_strlit("\r\n");
    reveal_strlit("\r\n\r\n");
    let ws = seq![m, p, v];
    assert(plain_words(ws)) by {
        assert forall|i: int| 0 <= i < ws.len() implies plain_word(#[trigger] ws[i]) by {
            if i == 0 {
                assert(ws[i] == m);
            } else if i == 1 {
                assert(ws[i] == p);
            } else {
                assert(ws[i] == v);
            }
        }
    }
    lemma_join_prepend(m, seq![p, v], seq![' ']);
    lemma_join_prepend(p, seq![v], seq![' ']);
    assert(seq![m] + seq![p, v] =~= ws);
    assert(seq![p] + seq![v] =~= seq![p, v]);
    assert(join(seq![v], seq![' ']) == v);
    let line = join(ws, seq![' ']);
    assert(line =~= m + " "@ + p + " "@ + v);
    lemma_words_of_join(ws);
    lemma_join_no_newline(ws);
    lemma_lines_with_body(line, ls);
    let e = Seq::<char>::empty();
    let all = seq![line, e] + ls;
    assert(line + "\r\n\r\n"@ + join(ls, seq!['\n']) =~= m + " "@ + p + " "@ + v
        + "\r\n\r\n"@ + join(ls, seq!['\n']));
    assert(all[0] == line);
    assert(all.skip(1) =~= seq![e] + ls);
    assert(trim(e) =~= e);
    assert(scan_head(Seq::<Seq<char>>::empty()) == (
        Map::<Seq<char>, Seq<char>>::empty(),
        Seq::<Seq<char>>::empty(),
        false,
    ));
    assert(seq![e].drop_last() =~= Seq::<Seq<char>>::empty());
    assert(scan_head(seq![e]).2);
    lemma_scan_head_body(seq![e], ls);
    assert(scan_head(seq![e]).1 =~= Seq::<Seq<char>>::empty());
    assert(Seq::<Seq<char>>::empty() + ls =~= ls);
}

} // verus!
