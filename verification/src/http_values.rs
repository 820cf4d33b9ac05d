//! Values of hyper's HTTP types, each kept with the text it was parsed
//! from, so that contracts can say what reaches hyper.
use vstd::prelude::*;
use vstd::string::StringSliceAdditionalSpecFns;

verus! {

#[verifier::external_type_specification]
#[verifier::external_body]
pub struct ExMethod(hyper::Method);

#[verifier::external_type_specification]
#[verifier::external_body]
pub struct ExUri(hyper::Uri);

#[verifier::external_type_specification]
#[verifier::external_body]
pub struct ExHeaderName(hyper::header::HeaderName);

#[verifier::external_type_specification]
#[verifier::external_body]
pub struct ExHeaderValue(hyper::header::HeaderValue);

/// A byte that may stand in an HTTP token: a letter, a digit or one of
/// ``!#$%&'*+-.^_`|~``.
pub open spec fn is_token_byte(b: u8) -> bool {
    ||| 48 <= b <= 57
    ||| 65 <= b <= 90
    ||| 97 <= b <= 122
    ||| b == 33 || b == 35 || b == 36 || b == 37 || b == 38 || b == 39
    ||| b == 42 || b == 43 || b == 45 || b == 46
    ||| b == 94 || b == 95 || b == 96 || b == 124 || b == 126
}

/// The UTF-8 bytes of `s` make an HTTP method: one or more token bytes.
pub open spec fn method_ok(s: Seq<char>) -> bool {
    let b = vstd::utf8::encode_utf8(s);
    b.len() > 0 && forall|i: int| 0 <= i < b.len() ==> is_token_byte(#[trigger] b[i])
}

/// The UTF-8 bytes of `s` make a header name: 1 to 65535 token bytes.
pub open spec fn header_name_ok(s: Seq<char>) -> bool {
    let b = vstd::utf8::encode_utf8(s);
    0 < b.len() <= 65535 && forall|i: int| 0 <= i < b.len() ==> is_token_byte(#[trigger] b[i])
}

/// The UTF-8 bytes of `s` make a header value: no control byte but tab.
pub open spec fn header_value_ok(s: Seq<char>) -> bool {
    let b = vstd::utf8::encode_utf8(s);
    forall|i: int| 0 <= i < b.len() ==> (#[trigger] b[i] >= 32 && b[i] != 127) || b[i] == 9
}

/// `hyper::Method::from_bytes`: a method exactly when the bytes are one or
/// more token bytes; the error's text is then `invalid HTTP method`.
#[verifier::external_body]
fn method_from_bytes(bytes: &[u8]) -> (r: Result<hyper::Method, String>)
    ensures
        r is Ok <==> (bytes@.len() > 0 && forall|i: int|
            0 <= i < bytes@.len() ==> is_token_byte(#[trigger] bytes@[i])),
        r matches Err(e) ==> e@ == "invalid HTTP method"@,
{
    match hyper::Method::from_bytes(bytes) {
        Ok(m) => Ok(m),
        Err(e) => Err(e.to_string()),
    }
}

/// What `str::parse::<hyper::Uri>` says of a string: `None` when it is a
/// URI, else the text of the error.
pub uninterp spec fn uri_rejection(s: Seq<char>) -> Option<Seq<char>>;

/// `str::parse::<hyper::Uri>`, the error given as its text.
#[verifier::external_body]
fn parse_uri(s: &str) -> (r: Result<hyper::Uri, String>)
    ensures
        match r {
            Ok(_) => uri_rejection(s@) is None,
            Err(e) => uri_rejection(s@) == Some(e@),
        },
{
    match s.parse::<hyper::Uri>() {
        Ok(u) => Ok(u),
        Err(e) => Err(e.to_string()),
    }
}

/// `hyper::header::HeaderName::from_bytes`: a name exactly when the bytes
/// are 1 to 65535 token bytes.
#[verifier::external_body]
fn header_name_from_bytes(bytes: &[u8]) -> (r: Option<hyper::header::HeaderName>)
    ensures
        r is Some <==> (0 < bytes@.len() <= 65535 && forall|i: int|
            0 <= i < bytes@.len() ==> is_token_byte(#[trigger] bytes@[i])),
{
    match hyper::header::HeaderName::from_bytes(bytes) {
        Ok(n) => Some(n),
        Err(_) => None,
    }
}

/// `hyper::header::HeaderValue::from_str`: a value exactly when no byte of
/// the string is a control byte other than tab.
#[verifier::external_body]
fn header_value_from_str(s: &str) -> (r: Option<hyper::header::HeaderValue>)
    ensures
        r is Some <==> (forall|i: int|
            0 <= i < s.spec_bytes().len() ==> (#[trigger] s.spec_bytes()[i] >= 32
                && s.spec_bytes()[i] != 127) || s.spec_bytes()[i] == 9),
{
    match hyper::header::HeaderValue::from_str(s) {
        Ok(v) => Some(v),
        Err(_) => None,
    }
}

/// A method that hyper parsed, with the text it was parsed from. Only
/// `CheckedMethod::parse` makes one.
pub struct CheckedMethod {
    value: hyper::Method,
    text: Ghost<Seq<char>>,
}

impl CheckedMethod {
    /// The text the method was parsed from.
    pub closed spec fn text(&self) -> Seq<char> {
        self.text@
    }

    /// Parses the UTF-8 bytes of `s` as a method.
    pub fn parse(s: &str) -> (r: Result<CheckedMethod, String>)
        ensures
            match r {
                Ok(m) => method_ok(s@) && m.text() == s@,
                Err(e) => !method_ok(s@) && e@ == "invalid HTTP method"@,
            },
    {
        match method_from_bytes(s.as_bytes()) {
            Ok(value) => Ok(CheckedMethod { value, text: Ghost(s@) }),
            Err(e) => Err(e),
        }
    }

    /// The method hyper made.
    pub fn as_method(&self) -> &hyper::Method {
        &self.value
    }

    /// The method hyper made, taken out.
    pub fn into_inner(self) -> hyper::Method {
        self.value
    }
}

/// A URI that hyper parsed, with the text it was parsed from. Only
/// `CheckedUri::parse` makes one.
pub struct CheckedUri {
    value: hyper::Uri,
    text: Ghost<Seq<char>>,
}

impl CheckedUri {
    /// The text the URI was parsed from.
    pub closed spec fn text(&self) -> Seq<char> {
        self.text@
    }

    /// Parses `s` as a URI; the error is its text.
    pub fn parse(s: &str) -> (r: Result<CheckedUri, String>)
        ensures
            match r {
                Ok(u) => uri_rejection(s@) is None && u.text() == s@,
                Err(e) => uri_rejection(s@) == Some(e@),
            },
    {
        match parse_uri(s) {
            Ok(value) => Ok(CheckedUri { value, text: Ghost(s@) }),
            Err(e) => Err(e),
        }
    }

    /// The URI hyper made.
    pub fn as_uri(&self) -> &hyper::Uri {
        &self.value
    }

    /// The URI hyper made, taken out.
    pub fn into_inner(self) -> hyper::Uri {
        self.value
    }
}

/// A header name and value that hyper parsed, with the texts they were
/// parsed from. Only `CheckedHeader::parse` makes one.
pub struct CheckedHeader {
    name: hyper::header::HeaderName,
    value: hyper::header::HeaderValue,
    name_text: Ghost<Seq<char>>,
    value_text: Ghost<Seq<char>>,
}

impl CheckedHeader {
    /// The text the name was parsed from.
    pub closed spec fn name_text(&self) -> Seq<char> {
        self.name_text@
    }

    /// The text the value was parsed from.
    pub closed spec fn value_text(&self) -> Seq<char> {
        self.value_text@
    }

    /// Parses a header name and value; `None` when hyper refuses either.
    pub fn parse(name: &str, value: &str) -> (r: Option<CheckedHeader>)
        ensures
            r is Some <==> header_name_ok(name@) && header_value_ok(value@),
            r matches Some(h) ==> h.name_text() == name@ && h.value_text() == value@,
    {
        let name_bytes = name.as_bytes();
        assert(name_bytes@ == vstd::utf8::encode_utf8(name@));
        assert(value.spec_bytes() == vstd::utf8::encode_utf8(value@));
        match header_name_from_bytes(name_bytes) {
            Some(n) => match header_value_from_str(value) {
                Some(v) => Some(
                    CheckedHeader {
                        name: n,
                        value: v,
                        name_text: Ghost(name@),
                        value_text: Ghost(value@),
                    },
                ),
                None => None,
            },
            None => None,
        }
    }

    /// The name hyper made.
    pub fn name(&self) -> &hyper::header::HeaderName {
        &self.name
    }

    /// The value hyper made.
    pub fn value(&self) -> &hyper::header::HeaderValue {
        &self.value
    }

    /// The name and value hyper made, taken out.
    pub fn into_parts(self) -> (hyper::header::HeaderName, hyper::header::HeaderValue) {
        (self.name, self.value)
    }
}

/// The texts of a list of headers.
pub open spec fn header_texts(v: Seq<CheckedHeader>) -> Seq<(Seq<char>, Seq<char>)> {
    v.map_values(|h: CheckedHeader| (h.name_text(), h.value_text()))
}

} // verus!
