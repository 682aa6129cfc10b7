//! Outbound HTTP: the requests and responses that cross the transport seam.
//!
//! No HTTP is performed here. A host performs it, and everything a caller may
//! want on top of it, such as form encoding and retries, stays on this side,
//! so that every transport sees identical bytes.
use crate::duration::Duration;
use crate::text;
use bytes::Bytes;
use http::{HeaderMap, HeaderName, HeaderValue, Method};
use vstd::prelude::*;
use vstd::utf8::*;

verus! {

/// `bytes::Bytes`: a run of bytes.
#[verifier::external_type_specification]
#[verifier::external_body]
pub struct ExBytes(bytes::Bytes);

/// `http::Method`: the method of a request.
#[verifier::external_type_specification]
#[verifier::external_body]
pub struct ExMethod(http::Method);

/// `http::HeaderName`: a legal header name, in lower case.
#[verifier::external_type_specification]
#[verifier::external_body]
pub struct ExHeaderName(http::HeaderName);

/// `http::HeaderValue`: a legal header value.
#[verifier::external_type_specification]
#[verifier::external_body]
pub struct ExHeaderValue(http::HeaderValue);

/// `http::HeaderMap`: header names, each with its values in order.
#[verifier::external_type_specification]
#[verifier::external_body]
#[verifier::reject_recursive_types(T)]
pub struct ExHeaderMap<T>(http::HeaderMap<T>);

/// The bytes that a `bytes::Bytes` holds.
pub uninterp spec fn bytes_of(b: &Bytes) -> Seq<u8>;

/// The text of a method.
pub uninterp spec fn method_text(m: &Method) -> Seq<char>;

/// The text of a header name.
pub uninterp spec fn name_text(n: &HeaderName) -> Seq<char>;

/// The bytes of a header value.
pub uninterp spec fn value_bytes(v: &HeaderValue) -> Seq<u8>;

/// The values that each header name has, in order.
pub uninterp spec fn header_values(m: &HeaderMap<HeaderValue>) -> Map<Seq<char>, Seq<Seq<u8>>>;

/// The values of no header at all.
pub open spec fn no_values() -> Map<Seq<char>, Seq<Seq<u8>>> {
    Map::empty()
}

/// `bytes::Bytes::new` holds no bytes.
#[verifier::external_body]
fn no_bytes() -> (r: Bytes)
    ensures
        bytes_of(&r) == Seq::<u8>::empty(),
{
    Bytes::new()
}

/// `<bytes::Bytes as From<String>>::from` holds the bytes of the string.
#[verifier::external_body]
fn bytes_from(s: String) -> (r: Bytes)
    ensures
        bytes_of(&r) == encode_utf8(s@),
{
    Bytes::from(s)
}

/// `http::Method::GET` is the method of that text.
#[verifier::external_body]
fn method_get() -> (r: Method)
    ensures
        method_text(&r) == "GET"@,
{
    Method::GET
}

/// `http::Method::POST` is the method of that text.
#[verifier::external_body]
fn method_post() -> (r: Method)
    ensures
        method_text(&r) == "POST"@,
{
    Method::POST
}

/// `http::HeaderMap::new` holds no header.
#[verifier::external_body]
fn no_headers() -> (r: HeaderMap<HeaderValue>)
    ensures
        header_values(&r) == no_values(),
{
    HeaderMap::new()
}

/// Whether `b` may stand in a header name.
pub open spec fn is_name_byte(b: u8) -> bool {
    ||| 48 <= b <= 57
    ||| 65 <= b <= 90
    ||| 97 <= b <= 122
    ||| b == 33
    ||| 35 <= b <= 39
    ||| b == 42
    ||| b == 43
    ||| b == 45
    ||| b == 46
    ||| 94 <= b <= 96
    ||| b == 124
    ||| b == 126
}

/// The most bytes of a header name.
pub const MAX_NAME_BYTES: usize = 65_535;

/// Whether `s` is a legal header name: from one to [`MAX_NAME_BYTES`] bytes,
/// each a letter, a digit, or one of ``!#$%&'*+-.^_`|~``.
pub open spec fn is_header_name(s: Seq<u8>) -> bool {
    1 <= s.len() <= MAX_NAME_BYTES && forall|i: int| 0 <= i < s.len() ==> is_name_byte(#[trigger] s[i])
}

/// Whether `b` may stand in a header value.
pub open spec fn is_value_byte(b: u8) -> bool {
    (32 <= b && b != 127) || b == 9
}

/// Whether `s` is a legal header value.
pub open spec fn is_header_value(s: Seq<u8>) -> bool {
    forall|i: int| 0 <= i < s.len() ==> is_value_byte(#[trigger] s[i])
}

/// Whether every byte of `s` is visible ASCII, a space or a tab.
pub open spec fn is_visible(s: Seq<u8>) -> bool {
    forall|i: int| 0 <= i < s.len() ==> 32 <= #[trigger] s[i] < 127 || s[i] == 9
}

/// `<http::HeaderName as TryFrom<&str>>::try_from` accepts a legal header name
/// and nothing else, and puts its letters in lower case.
#[verifier::external_body]
fn header_name(name: &str) -> (r: Option<HeaderName>)
    ensures
        r is Some <==> is_header_name(encode_utf8(name@)),
        r is Some ==> name_text(&r->Some_0) == text::ascii_lower(name@),
{
    HeaderName::try_from(name).ok()
}

/// `<http::HeaderValue as TryFrom<&str>>::try_from` accepts a legal header
/// value and nothing else, and keeps its bytes.
#[verifier::external_body]
fn header_value(value: &str) -> (r: Option<HeaderValue>)
    ensures
        r is Some <==> is_header_value(encode_utf8(value@)),
        r is Some ==> value_bytes(&r->Some_0) == encode_utf8(value@),
{
    HeaderValue::try_from(value).ok()
}

/// How many header names a map holds at most before an insertion may find no
/// room: it fails where a fifth of the 32768 places of its largest table is
/// taken and names collide.
pub const HEADER_ROOM: usize = 6_553;

/// `http::HeaderMap::insert` puts one value under a name, in the place of all
/// that were there.
#[verifier::external_body]
fn insert_header(headers: &mut HeaderMap<HeaderValue>, name: HeaderName, value: HeaderValue)
    requires
        header_values(old(headers)).len() <= HEADER_ROOM,
    ensures
        header_values(final(headers)) == header_values(old(headers)).insert(
            name_text(&name),
            seq![value_bytes(&value)],
        ),
{
    headers.insert(name, value);
}

/// `http::HeaderMap::keys_len` counts the names.
#[verifier::external_body]
fn count_headers(headers: &HeaderMap<HeaderValue>) -> (r: usize)
    ensures
        r == header_values(headers).len(),
{
    headers.keys_len()
}

/// `http::HeaderMap::get` gives the first value under a legal name, whatever
/// the case of its letters.
#[verifier::external_body]
fn first_header<'a>(headers: &'a HeaderMap<HeaderValue>, name: &str) -> (r: Option<&'a HeaderValue>)
    requires
        is_header_name(encode_utf8(name@)),
    ensures
        r is Some <==> header_values(headers).contains_key(text::ascii_lower(name@)),
        r is Some ==> header_values(headers)[text::ascii_lower(name@)].len() > 0 && value_bytes(
            r->Some_0,
        ) == header_values(headers)[text::ascii_lower(name@)][0],
{
    headers.get(name)
}

/// `http::HeaderValue::to_str` gives the text of a value that is visible ASCII
/// throughout, and of no other.
#[verifier::external_body]
fn visible_text(value: &HeaderValue) -> (r: Option<&str>)
    ensures
        r is Some <==> is_visible(value_bytes(value)),
        r is Some ==> encode_utf8(r->Some_0@) == value_bytes(value),
{
    value.to_str().ok()
}

/// `<bytes::Bytes as Clone>::clone` holds the same bytes.
#[verifier::external_body]
fn clone_bytes(b: &Bytes) -> (r: Bytes)
    ensures
        bytes_of(&r) == bytes_of(b),
{
    b.clone()
}

/// `<http::Method as Clone>::clone` is the same method.
#[verifier::external_body]
fn clone_method(m: &Method) -> (r: Method)
    ensures
        method_text(&r) == method_text(m),
{
    m.clone()
}

/// `<http::HeaderMap as Clone>::clone` holds the same values under the same
/// names.
#[verifier::external_body]
fn clone_headers(headers: &HeaderMap<HeaderValue>) -> (r: HeaderMap<HeaderValue>)
    ensures
        header_values(&r) == header_values(headers),
{
    headers.clone()
}

/// Default overall deadline of a request, in seconds.
pub const DEFAULT_TIMEOUT_SECS: u64 = 5;

/// Default bound on connecting, in seconds.
pub const DEFAULT_CONNECT_TIMEOUT_SECS: u64 = 2;

/// Default ceiling on a buffered response body, in bytes.
pub const DEFAULT_MAX_RESPONSE_BYTES: usize = 1024 * 1024;

/// Default overall deadline for a request that does not set one.
pub fn default_timeout() -> (r: Duration)
    ensures
        r.nanos == DEFAULT_TIMEOUT_SECS * 1_000_000_000,
{
    Duration::from_secs(DEFAULT_TIMEOUT_SECS)
}

/// Default connect bound for a request that does not set one.
pub fn default_connect_timeout() -> (r: Duration)
    ensures
        r.nanos == DEFAULT_CONNECT_TIMEOUT_SECS * 1_000_000_000,
{
    Duration::from_secs(DEFAULT_CONNECT_TIMEOUT_SECS)
}

/// Why an outbound request did not produce a response.
///
/// Transport-level only. A response with a discouraging status code is a
/// response.
#[non_exhaustive]
#[derive(Debug, Clone, PartialEq, Eq)]
pub enum HttpTransportError {
    /// The request exceeded its deadline.
    Timeout,
    /// The connection could not be established.
    Connect(String),
    /// The connection was established but the exchange failed.
    Io(String),
    /// The request could not be formed: an unparseable URL, an illegal header.
    InvalidRequest(String),
    /// The response body exceeded the request's ceiling.
    ResponseTooLarge {
        /// Bytes seen before the read was abandoned.
        actual: usize,
        /// The ceiling that was exceeded.
        limit: usize,
    },
    /// The host declined to make the request at all.
    Rejected(String),
}

/// Whether the peer may have received and acted on a request that failed so.
pub open spec fn may_be_delivered(e: HttpTransportError) -> bool {
    e is Timeout || e is Io || e is ResponseTooLarge
}

/// What is said of a request that failed.
pub open spec fn transport_message(e: HttpTransportError) -> Seq<char> {
    match e {
        HttpTransportError::Timeout => "request timed out"@,
        HttpTransportError::Connect(m) => "connection failed: "@ + m@,
        HttpTransportError::Io(m) => "transport error: "@ + m@,
        HttpTransportError::InvalidRequest(m) => "malformed request: "@ + m@,
        HttpTransportError::ResponseTooLarge { actual, limit } => "response body exceeded the "@
            + text::decimal(limit as nat) + "-byte ceiling (saw at least "@ + text::decimal(
            actual as nat,
        ) + " bytes)"@,
        HttpTransportError::Rejected(m) => "request refused by the host: "@ + m@,
    }
}

impl HttpTransportError {
    /// Whether the peer may have received and acted on the request.
    ///
    /// `true` means unknown, not certain: a timeout cannot tell a request that
    /// never arrived from a reply that was lost.
    pub fn may_have_reached_peer(&self) -> (r: bool)
        ensures
            r == may_be_delivered(*self),
    {
        match self {
            // Nothing was ever sent.
            HttpTransportError::Connect(_) | HttpTransportError::InvalidRequest(_)
            | HttpTransportError::Rejected(_) => false,
            // Sent, and the outcome is unknown.
            HttpTransportError::Timeout | HttpTransportError::Io(_) => true,
            // Delivered and answered.
            HttpTransportError::ResponseTooLarge { .. } => true,
        }
    }

    /// What is said of the request.
    pub fn message(&self) -> (r: String)
        ensures
            r@ == transport_message(*self),
    {
        match self {
            HttpTransportError::Timeout => "request timed out".to_owned(),
            HttpTransportError::Connect(m) => {
                let mut out = "connection failed: ".to_owned();
                out.append(m.as_str());
                out
            },
            HttpTransportError::Io(m) => {
                let mut out = "transport error: ".to_owned();
                out.append(m.as_str());
                out
            },
            HttpTransportError::InvalidRequest(m) => {
                let mut out = "malformed request: ".to_owned();
                out.append(m.as_str());
                out
            },
            HttpTransportError::ResponseTooLarge { actual, limit } => {
                let mut out = "response body exceeded the ".to_owned();
                out.append(text::decimal_of(*limit as u64).as_str());
                out.append("-byte ceiling (saw at least ");
                out.append(text::decimal_of(*actual as u64).as_str());
                out.append(" bytes)");
                out
            },
            HttpTransportError::Rejected(m) => {
                let mut out = "request refused by the host: ".to_owned();
                out.append(m.as_str());
                out
            },
        }
    }
}

/// One outbound HTTP request.
#[non_exhaustive]
#[derive(Debug)]
pub struct HttpRequest {
    /// Request method.
    pub method: Method,
    /// Absolute request URL, including scheme.
    pub url: String,
    /// Request headers. `Host` is the transport's to set.
    pub headers: HeaderMap<HeaderValue>,
    /// Request body. Empty for a bodyless method.
    pub body: Bytes,
    /// Overall deadline covering connect and I/O.
    pub timeout: Duration,
    /// Bound on connection establishment alone. `None` leaves it to the
    /// transport.
    pub connect_timeout: Option<Duration>,
    /// Ceiling on the buffered response body.
    pub max_response_bytes: usize,
}

impl Clone for HttpRequest {
    fn clone(&self) -> (r: Self)
        ensures
            r.is_same(*self),
    {
        HttpRequest {
            method: clone_method(&self.method),
            url: self.url.clone(),
            headers: clone_headers(&self.headers),
            body: clone_bytes(&self.body),
            timeout: self.timeout,
            connect_timeout: self.connect_timeout,
            max_response_bytes: self.max_response_bytes,
        }
    }
}

impl HttpRequest {
    /// Whether two requests put the same on the wire under the same bounds.
    pub open spec fn is_same(&self, other: HttpRequest) -> bool {
        &&& method_text(&self.method) == method_text(&other.method)
        &&& self.url@ == other.url@
        &&& header_values(&self.headers) == header_values(&other.headers)
        &&& bytes_of(&self.body) == bytes_of(&other.body)
        &&& self.timeout == other.timeout
        &&& self.connect_timeout == other.connect_timeout
        &&& self.max_response_bytes == other.max_response_bytes
    }

    /// Whether this request carries the default bounds, no header and no body.
    pub open spec fn is_bare(&self) -> bool {
        &&& header_values(&self.headers) == no_values()
        &&& bytes_of(&self.body) == Seq::<u8>::empty()
        &&& self.has_default_bounds()
    }

    /// Whether this request carries the default bounds.
    pub open spec fn has_default_bounds(&self) -> bool {
        &&& self.timeout.nanos == DEFAULT_TIMEOUT_SECS * 1_000_000_000
        &&& self.connect_timeout matches Some(t) && t.nanos == DEFAULT_CONNECT_TIMEOUT_SECS
            * 1_000_000_000
        &&& self.max_response_bytes == DEFAULT_MAX_RESPONSE_BYTES
    }

    /// A request with the given method and URL, carrying the default bounds
    /// and no headers or body.
    pub fn new(method: Method, url: &str) -> (r: Self)
        ensures
            r.method == method,
            r.url@ == url@,
            r.is_bare(),
    {
        HttpRequest {
            method,
            url: url.to_owned(),
            headers: no_headers(),
            body: no_bytes(),
            timeout: default_timeout(),
            connect_timeout: Some(default_connect_timeout()),
            max_response_bytes: DEFAULT_MAX_RESPONSE_BYTES,
        }
    }

    /// A `GET` for `url`.
    pub fn get(url: &str) -> (r: Self)
        ensures
            method_text(&r.method) == "GET"@,
            r.url@ == url@,
            r.is_bare(),
    {
        HttpRequest::new(method_get(), url)
    }

    /// A `POST` to `url` carrying `body`.
    pub fn post(url: &str, body: Bytes) -> (r: Self)
        ensures
            method_text(&r.method) == "POST"@,
            r.url@ == url@,
            r.body == body,
            header_values(&r.headers) == no_values(),
            r.has_default_bounds(),
    {
        let mut req = HttpRequest::new(method_post(), url);
        req.body = body;
        req
    }

    /// Whether there is certainly room for one more header.
    pub fn has_room_for_header(&self) -> (r: bool)
        ensures
            r == (header_values(&self.headers).len() <= HEADER_ROOM),
    {
        count_headers(&self.headers) <= HEADER_ROOM
    }

    /// Set a header, replacing any existing value for that name.
    ///
    /// The error is [`HttpTransportError::InvalidRequest`] when the name or
    /// the value is not a legal header: both can come from configuration.
    pub fn header(self, name: &str, value: &str) -> (r: Result<Self, HttpTransportError>)
        requires
            header_values(&self.headers).len() <= HEADER_ROOM,
        ensures
            r is Ok <==> is_header_name(encode_utf8(name@)) && is_header_value(encode_utf8(value@)),
            r matches Ok(req) ==> {
                &&& header_values(&req.headers) == header_values(&self.headers).insert(
                    text::ascii_lower(name@),
                    seq![encode_utf8(value@)],
                )
                &&& req.method == self.method
                &&& req.url == self.url
                &&& req.body == self.body
                &&& req.timeout == self.timeout
                &&& req.connect_timeout == self.connect_timeout
                &&& req.max_response_bytes == self.max_response_bytes
            },
            r matches Err(e) ==> e matches HttpTransportError::InvalidRequest(m) && m@ == (
            if is_header_name(encode_utf8(name@)) {
                "header value: failed to parse header value"@
            } else {
                "header name: invalid HTTP header name"@
            }),
    {
        let name = match header_name(name) {
            Some(n) => n,
            None => {
                return Err(
                    HttpTransportError::InvalidRequest(
                        "header name: invalid HTTP header name".to_owned(),
                    ),
                );
            },
        };
        let value = match header_value(value) {
            Some(v) => v,
            None => {
                return Err(
                    HttpTransportError::InvalidRequest(
                        "header value: failed to parse header value".to_owned(),
                    ),
                );
            },
        };
        let mut req = self;
        insert_header(&mut req.headers, name, value);
        Ok(req)
    }

    /// Replace the request body.
    #[must_use]
    pub fn body(self, body: Bytes) -> (r: Self)
        ensures
            r == (HttpRequest { body, ..self }),
    {
        HttpRequest { body, ..self }
    }

    /// Set the overall deadline.
    #[must_use]
    pub fn timeout(self, timeout: Duration) -> (r: Self)
        ensures
            r == (HttpRequest { timeout, ..self }),
    {
        HttpRequest { timeout, ..self }
    }

    /// Set the connect bound.
    #[must_use]
    pub fn connect_timeout(self, timeout: Duration) -> (r: Self)
        ensures
            r == (HttpRequest { connect_timeout: Some(timeout), ..self }),
    {
        HttpRequest { connect_timeout: Some(timeout), ..self }
    }

    /// Set the response body ceiling.
    #[must_use]
    pub fn max_response_bytes(self, max: usize) -> (r: Self)
        ensures
            r == (HttpRequest { max_response_bytes: max, ..self }),
    {
        HttpRequest { max_response_bytes: max, ..self }
    }
}

/// Whether a byte passes through form encoding as it is: a letter, a digit,
/// or one of `*-._`.
pub open spec fn is_unreserved(b: u8) -> bool {
    ||| 65 <= b <= 90
    ||| 97 <= b <= 122
    ||| 48 <= b <= 57
    ||| b == 42
    ||| b == 45
    ||| b == 46
    ||| b == 95
}

/// One byte form-encoded: itself, `+` for a space, or a percent sign and two
/// upper-case hexadecimal digits.
pub open spec fn form_byte(b: u8) -> Seq<char> {
    if is_unreserved(b) {
        seq![b as char]
    } else if b == 32 {
        seq!['+']
    } else {
        seq!['%', text::hex_upper((b / 16) as nat), text::hex_upper((b % 16) as nat)]
    }
}

/// Bytes form-encoded, one after the other.
pub open spec fn form_part(bytes: Seq<u8>) -> Seq<char>
    decreases bytes.len(),
{
    if bytes.len() == 0 {
        Seq::empty()
    } else {
        form_part(bytes.drop_last()) + form_byte(bytes.last())
    }
}

/// One pair form-encoded: name, `=`, value.
pub open spec fn form_pair(name: Seq<char>, value: Seq<char>) -> Seq<char> {
    form_part(encode_utf8(name)).push('=') + form_part(encode_utf8(value))
}

/// Pairs form-encoded, `&` between them.
pub open spec fn form_text(pairs: Seq<(Seq<char>, Seq<char>)>) -> Seq<char>
    decreases pairs.len(),
{
    if pairs.len() == 0 {
        Seq::empty()
    } else if pairs.len() == 1 {
        form_pair(pairs[0].0, pairs[0].1)
    } else {
        form_text(pairs.drop_last()).push('&') + form_pair(pairs.last().0, pairs.last().1)
    }
}

/// The texts of `pairs`.
pub open spec fn pair_texts(pairs: Seq<(&str, &str)>) -> Seq<(Seq<char>, Seq<char>)> {
    Seq::new(pairs.len(), |i: int| (pairs[i].0@, pairs[i].1@))
}

/// Encode `raw` behind `out`.
fn encode_into(out: &mut String, raw: &str)
    ensures
        final(out)@ == old(out)@ + form_part(encode_utf8(raw@)),
{
    let bytes = raw.as_bytes();
    let mut i: usize = 0;
    assert(bytes@.take(0) =~= Seq::<u8>::empty());
    assert(out@ =~= old(out)@ + form_part(bytes@.take(0)));
    while i < bytes.len()
        invariant
            i <= bytes@.len(),
            bytes@ == encode_utf8(raw@),
            out@ == old(out)@ + form_part(bytes@.take(i as int)),
        decreases bytes@.len() - i,
    {
        let b = bytes[i];
        let ghost head = out@;
        assert(bytes@.take(i + 1).drop_last() =~= bytes@.take(i as int));
        if (65 <= b && b <= 90) || (97 <= b && b <= 122) || (48 <= b && b <= 57) || b == 42 || b == 45
            || b == 46 || b == 95 {
            out.push(b as char);
        } else if b == 32 {
            out.push('+');
        } else {
            out.push('%');
            out.push(text::hex_upper_of(b / 16));
            out.push(text::hex_upper_of(b % 16));
        }
        assert(out@ =~= head + form_byte(b));
        assert(out@ =~= old(out)@ + form_part(bytes@.take(i + 1)));
        i += 1;
    }
    assert(bytes@.take(bytes@.len() as int) =~= bytes@);
}

/// Encode `pairs` as an `application/x-www-form-urlencoded` body.
///
/// Unreserved characters pass through, a space becomes `+`, and everything
/// else is percent-encoded. The caller still sets the `Content-Type`.
pub fn form_urlencode(pairs: &[(&str, &str)]) -> (r: Bytes)
    ensures
        bytes_of(&r) == encode_utf8(form_text(pair_texts(pairs@))),
{
    let mut out = String::new();
    let ghost all = pair_texts(pairs@);
    let mut i: usize = 0;
    assert(all.take(0) =~= Seq::<(Seq<char>, Seq<char>)>::empty());
    while i < pairs.len()
        invariant
            i <= pairs@.len(),
            all == pair_texts(pairs@),
            out@ == form_text(all.take(i as int)),
        decreases pairs@.len() - i,
    {
        let (key, value) = pairs[i];
        let ghost more = all.take(i + 1);
        assert(more.drop_last() =~= all.take(i as int));
        assert(more.last() == (key@, value@));
        if i > 0 {
            out.push('&');
        }
        encode_into(&mut out, key);
        out.push('=');
        encode_into(&mut out, value);
        assert(out@ =~= form_text(more));
        i += 1;
    }
    assert(all.take(all.len() as int) =~= all);
    bytes_from(out)
}

/// A buffered HTTP response.
#[non_exhaustive]
#[derive(Debug)]
pub struct HttpResponse {
    /// Response status code.
    pub status: u16,
    /// Response headers.
    pub headers: HeaderMap<HeaderValue>,
    /// Response body.
    pub body: Bytes,
}

/// The text of the first value of the header `name`, where it is visible
/// ASCII.
pub open spec fn is_header_text(
    values: Map<Seq<char>, Seq<Seq<u8>>>,
    name: Seq<char>,
    s: Option<Seq<char>>,
) -> bool {
    match s {
        Some(t) => values.contains_key(name) && is_visible(values[name][0]) && encode_utf8(t)
            == values[name][0],
        None => values.contains_key(name) ==> !is_visible(values[name][0]),
    }
}

/// The directives of a `Cache-Control` header, without the white space around
/// them.
pub open spec fn directives(raw: Seq<char>) -> Seq<Seq<char>> {
    text::split(raw, ',').map_values(|d: Seq<char>| text::trim(d))
}

/// Whether a directive asks that nothing be held.
pub open spec fn forbids_caching(d: Seq<char>) -> bool {
    text::ascii_lower(d) == text::ascii_lower("no-store"@) || text::ascii_lower(d)
        == text::ascii_lower("no-cache"@)
}

/// Whether a directive is a `max-age` with a value.
pub open spec fn is_max_age(d: Seq<char>) -> bool {
    d.contains('=') && text::ascii_lower(text::trim(text::before(d, '='))) == text::ascii_lower(
        "max-age"@,
    )
}

/// The seconds that the last `max-age` of `ds` states; none where there is
/// none or it is no number.
pub open spec fn last_max_age(ds: Seq<Seq<char>>) -> Option<u64>
    decreases ds.len(),
{
    if ds.len() == 0 {
        None
    } else if is_max_age(ds.last()) {
        text::parsed_u64(text::trim(text::behind(ds.last(), '=')))
    } else {
        last_max_age(ds.drop_last())
    }
}

/// The seconds for which a `Cache-Control` header lets a response be held.
pub open spec fn max_age(raw: Seq<char>) -> Option<u64> {
    if exists|i: int| 0 <= i < directives(raw).len() && forbids_caching(#[trigger] directives(raw)[i]) {
        None
    } else {
        last_max_age(directives(raw))
    }
}

/// The seconds for which a `Cache-Control` header lets a response be held.
///
/// A `no-store` or a `no-cache` anywhere beats any `max-age`, and of several
/// `max-age` the last one counts, even where it is no number.
pub fn max_age_of(raw: &str) -> (r: Option<u64>)
    ensures
        r == max_age(raw@),
{
    let v = text::chars_of(raw);
    let len = v.len();
    let ghost whole = raw@;
    let ghost all = directives(whole);
    let mut found: Option<u64> = None;
    let mut start: usize = 0;
    let mut done = false;
    proof {
        assert(whole.take(0) =~= Seq::<char>::empty());
        assert(all.take(0) =~= Seq::<Seq<char>>::empty());
        text::lemma_split_len(whole, ',');
        text::lemma_split_prefix(whole, ',', 0);
    }
    let ghost mut k: int = 0;
    while !done
        invariant
            len == v@.len(),
            v@ == whole,
            whole == raw@,
            all == directives(whole),
            0 <= start <= len,
            done || start == 0 || whole[start - 1] == ',',
            0 <= k <= all.len(),
            !done ==> k == text::split(whole.take(start as int), ',').len() - 1,
            done ==> k == all.len(),
            forall|i: int| 0 <= i < k ==> !forbids_caching(#[trigger] all[i]),
            found == last_max_age(all.take(k)),
        decreases len - start, (if done { 0int } else { 1int }),
    {
        let end = text::find(&v, ',', start, len);
        let a = text::skip_space(&v, start, end);
        let b = text::drop_space(&v, a, end);
        let ghost d = v@.subrange(a as int, b as int);
        proof {
            text::lemma_split_piece(whole, ',', start as int, end as int);
            text::lemma_split_prefix(whole, ',', end as int);
            let now = text::split(whole.take(end as int), ',');
            assert(now.last() == whole.subrange(start as int, end as int));
            assert(text::split(whole, ',')[k] == now.last());
            assert(all[k] == d);
            assert(all.take(k + 1).drop_last() =~= all.take(k));
            assert(all.take(k + 1).last() == d);
        }
        if text::same_ignoring_case(&v, a, b, "no-store") || text::same_ignoring_case(
            &v,
            a,
            b,
            "no-cache",
        ) {
            assert(forbids_caching(all[k]));
            return None;
        }
        let eq = text::find(&v, '=', a, b);
        if eq < b {
            let ka = text::skip_space(&v, a, eq);
            let kb = text::drop_space(&v, ka, eq);
            assert(text::before(d, '=') =~= v@.subrange(a as int, eq as int));
            if text::same_ignoring_case(&v, ka, kb, "max-age") {
                let va = text::skip_space(&v, eq + 1, b);
                let vb = text::drop_space(&v, va, b);
                assert(text::behind(d, '=') =~= v@.subrange(eq + 1, b as int));
                found = text::parse_u64(&v, va, vb);
            }
        }
        proof {
            k = k + 1;
        }
        if end < len {
            proof {
                text::lemma_split_sep(whole, ',', end as int);
                text::lemma_split_prefix(whole, ',', end + 1);
            }
            start = end + 1;
        } else {
            assert(whole.take(end as int) =~= whole);
            start = len;
            done = true;
        }
    }
    assert(all.take(k) =~= all);
    found
}

impl Clone for HttpResponse {
    fn clone(&self) -> (r: Self)
        ensures
            r.status == self.status,
            header_values(&r.headers) == header_values(&self.headers),
            bytes_of(&r.body) == bytes_of(&self.body),
    {
        HttpResponse {
            status: self.status,
            headers: clone_headers(&self.headers),
            body: clone_bytes(&self.body),
        }
    }
}

impl HttpResponse {
    /// A response with the given status and body and no headers.
    pub fn new(status: u16, body: Bytes) -> (r: Self)
        ensures
            r.status == status,
            r.body == body,
            header_values(&r.headers) == no_values(),
    {
        HttpResponse { status, headers: no_headers(), body }
    }

    /// Attach response headers.
    #[must_use]
    pub fn with_headers(self, headers: HeaderMap<HeaderValue>) -> (r: Self)
        ensures
            r == (HttpResponse { headers, ..self }),
    {
        HttpResponse { headers, ..self }
    }

    /// Whether the status is in the 2xx range. False for `304 Not Modified`.
    pub fn is_success(&self) -> (r: bool)
        ensures
            r == (200 <= self.status < 300),
    {
        200 <= self.status && self.status < 300
    }

    /// Whether the peer answered `304 Not Modified`.
    pub fn is_not_modified(&self) -> (r: bool)
        ensures
            r == (self.status == 304),
    {
        self.status == 304
    }

    /// The first value of a header, where it is visible ASCII.
    fn header_text(&self, name: &str) -> (r: Option<&str>)
        requires
            is_header_name(encode_utf8(name@)),
        ensures
            is_header_text(
                header_values(&self.headers),
                text::ascii_lower(name@),
                match r {
                    Some(s) => Some(s@),
                    None => None,
                },
            ),
    {
        match first_header(&self.headers, name) {
            Some(value) => visible_text(value),
            None => None,
        }
    }

    /// The `ETag` header, when the peer sent a valid one.
    pub fn etag(&self) -> (r: Option<&str>)
        ensures
            is_header_text(
                header_values(&self.headers),
                "etag"@,
                match r {
                    Some(s) => Some(s@),
                    None => None,
                },
            ),
    {
        proof {
            lemma_etag_name();
        }
        self.header_text("etag")
    }

    /// The `max-age` directive from `Cache-Control`.
    ///
    /// Absent, unparseable, or `no-store`/`no-cache` all yield `None`, so the
    /// caller falls back to its configured default.
    pub fn cache_max_age(&self) -> (r: Option<Duration>)
        ensures
            exists|raw: Option<Seq<char>>| #[trigger]
                is_header_text(header_values(&self.headers), "cache-control"@, raw) && (match raw {
                    None => r is None,
                    Some(s) => match max_age(s) {
                        None => r is None,
                        Some(secs) => r matches Some(d) && d.nanos == secs * 1_000_000_000,
                    },
                }),
    {
        proof {
            lemma_cache_control_name();
        }
        match self.header_text("cache-control") {
            None => {
                assert(is_header_text(header_values(&self.headers), "cache-control"@, None));
                None
            },
            Some(raw) => {
                assert(is_header_text(header_values(&self.headers), "cache-control"@, Some(raw@)));
                match max_age_of(raw) {
                    None => None,
                    Some(secs) => Some(Duration::from_secs(secs)),
                }
            },
        }
    }
}

/// `etag` is a legal header name, in lower case.
proof fn lemma_etag_name()
    ensures
        is_header_name(encode_utf8("etag"@)),
        text::ascii_lower("etag"@) == "etag"@,
{
    reveal_strlit("etag");
    is_ascii_chars_encode_utf8("etag"@);
    assert(text::ascii_lower("etag"@) =~= "etag"@);
}

/// `cache-control` is a legal header name, in lower case.
proof fn lemma_cache_control_name()
    ensures
        is_header_name(encode_utf8("cache-control"@)),
        text::ascii_lower("cache-control"@) == "cache-control"@,
{
    reveal_strlit("cache-control");
    is_ascii_chars_encode_utf8("cache-control"@);
    assert(text::ascii_lower("cache-control"@) =~= "cache-control"@);
}

/// Form-encoded bytes hold no separator, and close every escape they open.
pub proof fn law_encoded_text_holds_no_separator(bytes: Seq<u8>)
    ensures
        !form_part(bytes).contains('&'),
        !form_part(bytes).contains('='),
        forall|i: int|
            0 <= i < form_part(bytes).len() && #[trigger] form_part(bytes)[i] == '%' ==> i + 2
                < form_part(bytes).len(),
    decreases bytes.len(),
{
    let out = form_part(bytes);
    if bytes.len() > 0 {
        law_encoded_text_holds_no_separator(bytes.drop_last());
        let head = form_part(bytes.drop_last());
        let tail = form_byte(bytes.last());
        let n = head.len() as int;
        assert forall|i: int| 0 <= i < out.len() implies #[trigger] out[i] != '&' && out[i] != '=' by {
            if i < n {
                assert(out[i] == head[i]);
            } else {
                assert(out[i] == tail[i - n]);
            }
        }
        assert forall|i: int| 0 <= i < out.len() && #[trigger] out[i] == '%' implies i + 2 < out.len() by {
            if i < n {
                assert(out[i] == head[i]);
            } else {
                assert(out[i] == tail[i - n]);
            }
        }
    }
}

/// One byte is read back from its encoding.
proof fn lemma_form_byte(a: u8, b: u8)
    requires
        form_byte(a) == form_byte(b),
    ensures
        a == b,
{
    let x = form_byte(a);
    let y = form_byte(b);
    assert(x.len() == y.len());
    if x.len() == 1 {
        let ca = if is_unreserved(a) { a as char } else { '+' };
        let cb = if is_unreserved(b) { b as char } else { '+' };
        assert(x[0] == ca && y[0] == cb);
        assert(ca as int == if is_unreserved(a) { a as int } else { 43 });
        assert(cb as int == if is_unreserved(b) { b as int } else { 43 });
    } else {
        assert(x[1] == y[1] && x[2] == y[2]);
        assert(a / 16 == b / 16 && a % 16 == b % 16);
        assert(a == 16 * (a / 16) + a % 16);
        assert(b == 16 * (b / 16) + b % 16);
    }
}

/// Bytes are read back from their encoding: two runs of bytes with one
/// encoding are the same.
pub proof fn law_encoding_can_be_read_back(a: Seq<u8>, b: Seq<u8>)
    requires
        form_part(a) == form_part(b),
    ensures
        a == b,
    decreases a.len(),
{
    let s = form_part(a);
    if a.len() == 0 || b.len() == 0 {
        if a.len() > 0 {
            assert(form_byte(a.last()).len() > 0);
        }
        if b.len() > 0 {
            assert(form_byte(b.last()).len() > 0);
        }
        assert(a =~= b);
    } else {
        let ha = form_part(a.drop_last());
        let hb = form_part(b.drop_last());
        let ta = form_byte(a.last());
        let tb = form_byte(b.last());
        law_encoded_text_holds_no_separator(a.drop_last());
        law_encoded_text_holds_no_separator(b.drop_last());
        let n = s.len() as int;
        // An escape ends the text exactly where a percent sign stands third
        // from the end.
        if ta.len() == 3 && tb.len() == 1 {
            assert(s[n - 3] == '%');
            assert(hb[n - 3] == s[n - 3]);
        }
        if tb.len() == 3 && ta.len() == 1 {
            assert(s[n - 3] == '%');
            assert(ha[n - 3] == s[n - 3]);
        }
        assert(ta.len() == tb.len());
        assert(ha =~= s.take(ha.len() as int));
        assert(hb =~= s.take(hb.len() as int));
        assert(ta =~= s.skip(ha.len() as int));
        assert(tb =~= s.skip(hb.len() as int));
        lemma_form_byte(a.last(), b.last());
        law_encoding_can_be_read_back(a.drop_last(), b.drop_last());
        assert(a =~= a.drop_last().push(a.last()));
        assert(b =~= b.drop_last().push(b.last()));
    }
}

/// What stands before and behind the `=` of an encoded pair.
proof fn lemma_form_pair(name: Seq<char>, value: Seq<char>)
    ensures
        !form_pair(name, value).contains('&'),
        text::before(form_pair(name, value), '=') == form_part(encode_utf8(name)),
        text::behind(form_pair(name, value), '=') == form_part(encode_utf8(value)),
{
    let n = form_part(encode_utf8(name));
    let v = form_part(encode_utf8(value));
    let p = form_pair(name, value);
    law_encoded_text_holds_no_separator(encode_utf8(name));
    law_encoded_text_holds_no_separator(encode_utf8(value));
    assert forall|i: int| 0 <= i < p.len() implies #[trigger] p[i] != '&' by {
        if i < n.len() {
            assert(p[i] == n[i]);
        } else if i > n.len() {
            assert(p[i] == v[i - n.len() - 1]);
        }
    }
    assert forall|i: int| 0 <= i < n.len() implies #[trigger] p[i] != '=' by {
        assert(p[i] == n[i]);
    }
    text::lemma_first_index(p, '=', n.len() as int);
    assert(text::before(p, '=') =~= n);
    assert(text::behind(p, '=') =~= v);
}

/// Between its `&`, an encoded body holds each pair and nothing else: no name
/// and no value adds a parameter.
pub proof fn law_pairs_are_kept_apart(pairs: Seq<(Seq<char>, Seq<char>)>)
    requires
        pairs.len() > 0,
    ensures
        text::split(form_text(pairs), '&') == pairs.map_values(
            |p: (Seq<char>, Seq<char>)| form_pair(p.0, p.1),
        ),
    decreases pairs.len(),
{
    let last = pairs.last();
    lemma_form_pair(last.0, last.1);
    let all = pairs.map_values(|p: (Seq<char>, Seq<char>)| form_pair(p.0, p.1));
    if pairs.len() == 1 {
        text::lemma_split_alone(form_text(pairs), '&');
        assert(all =~= seq![form_text(pairs)]);
    } else {
        let head = pairs.drop_last();
        law_pairs_are_kept_apart(head);
        text::lemma_split_append(form_text(head), form_pair(last.0, last.1), '&');
        assert(head.map_values(|p: (Seq<char>, Seq<char>)| form_pair(p.0, p.1)).push(
            form_pair(last.0, last.1),
        ) =~= all);
    }
}

/// Two lists of pairs with one encoding are the same list.
pub proof fn law_an_encoded_form_is_unambiguous(
    p: Seq<(Seq<char>, Seq<char>)>,
    q: Seq<(Seq<char>, Seq<char>)>,
)
    requires
        form_text(p) == form_text(q),
    ensures
        p == q,
{
    lemma_form_text_len(p);
    lemma_form_text_len(q);
    if p.len() > 0 && q.len() > 0 {
        law_pairs_are_kept_apart(p);
        law_pairs_are_kept_apart(q);
        let f = |p: (Seq<char>, Seq<char>)| form_pair(p.0, p.1);
        assert(p.map_values(f).len() == q.map_values(f).len());
        assert forall|i: int| 0 <= i < p.len() implies p[i] == q[i] by {
            assert(p.map_values(f)[i] == q.map_values(f)[i]);
            lemma_form_pair(p[i].0, p[i].1);
            lemma_form_pair(q[i].0, q[i].1);
            law_encoding_can_be_read_back(encode_utf8(p[i].0), encode_utf8(q[i].0));
            law_encoding_can_be_read_back(encode_utf8(p[i].1), encode_utf8(q[i].1));
            encode_utf8_decode_utf8(p[i].0);
            encode_utf8_decode_utf8(q[i].0);
            encode_utf8_decode_utf8(p[i].1);
            encode_utf8_decode_utf8(q[i].1);
        }
    }
    assert(p =~= q);
}

/// Only an empty list encodes to nothing.
proof fn lemma_form_text_len(pairs: Seq<(Seq<char>, Seq<char>)>)
    ensures
        form_text(pairs).len() == 0 <==> pairs.len() == 0,
{
    if pairs.len() > 0 {
        assert(form_pair(pairs.last().0, pairs.last().1).len() > 0);
    }
}

/// A `no-store` or a `no-cache` beats every `max-age`, wherever it stands.
pub proof fn law_a_ban_on_caching_beats_any_lifetime(raw: Seq<char>, i: int)
    requires
        0 <= i < directives(raw).len(),
        forbids_caching(directives(raw)[i]),
    ensures
        max_age(raw) is None,
{
}

/// A request that never left cannot have been delivered; one that left and timed out,
/// broke off, or was answered with too much may have been.
pub proof fn law_which_failures_may_have_been_delivered(m: String, actual: usize, limit: usize)
    ensures
        !may_be_delivered(HttpTransportError::Connect(m)),
        !may_be_delivered(HttpTransportError::InvalidRequest(m)),
        !may_be_delivered(HttpTransportError::Rejected(m)),
        may_be_delivered(HttpTransportError::Timeout),
        may_be_delivered(HttpTransportError::Io(m)),
        may_be_delivered(HttpTransportError::ResponseTooLarge { actual, limit }),
{
}

/// What is said of each failure.
pub proof fn law_what_is_said_of_a_failure(m: String, actual: usize, limit: usize)
    ensures
        transport_message(HttpTransportError::Timeout) == "request timed out"@,
        transport_message(HttpTransportError::Connect(m)) == "connection failed: "@ + m@,
        transport_message(HttpTransportError::Io(m)) == "transport error: "@ + m@,
        transport_message(HttpTransportError::InvalidRequest(m)) == "malformed request: "@ + m@,
        transport_message(HttpTransportError::Rejected(m)) == "request refused by the host: "@
            + m@,
        transport_message(HttpTransportError::ResponseTooLarge { actual, limit })
            == "response body exceeded the "@ + text::decimal(limit as nat)
            + "-byte ceiling (saw at least "@ + text::decimal(actual as nat) + " bytes)"@,
{
}

/// The value of the upper-case hexadecimal digit `c`, where it is one.
pub open spec fn hex_value(c: char) -> Option<int> {
    match c {
        '0' => Some(0),
        '1' => Some(1),
        '2' => Some(2),
        '3' => Some(3),
        '4' => Some(4),
        '5' => Some(5),
        '6' => Some(6),
        '7' => Some(7),
        '8' => Some(8),
        '9' => Some(9),
        'A' => Some(10),
        'B' => Some(11),
        'C' => Some(12),
        'D' => Some(13),
        'E' => Some(14),
        'F' => Some(15),
        _ => None,
    }
}

/// Whether a byte is a letter, a digit, an asterisk, a hyphen, a full stop or an
/// underscore, told by the characters.
pub open spec fn is_kept(b: u8) -> bool {
    let c = b as char;
    ||| 'A' <= c <= 'Z'
    ||| 'a' <= c <= 'z'
    ||| '0' <= c <= '9'
    ||| c == '*' || c == '-' || c == '.' || c == '_'
}

/// How a byte is written in a form: one that is kept, as itself; a space, as a plus sign;
/// any other as a percent sign and two upper-case hexadecimal digits that spell it.
pub proof fn law_how_a_byte_is_written_in_a_form(b: u8)
    ensures
        is_kept(b) ==> form_byte(b) == seq![b as char],
        b == 32 ==> form_byte(b) == seq!['+'],
        !is_kept(b) && b != 32 ==> {
            let s = form_byte(b);
            &&& s.len() == 3
            &&& s[0] == '%'
            &&& hex_value(s[1]) is Some
            &&& hex_value(s[2]) is Some
            &&& 16 * hex_value(s[1])->Some_0 + hex_value(s[2])->Some_0 == b
        },
{
}

/// Bytes are written one behind the other, each by itself.
pub proof fn law_bytes_are_written_one_by_one(a: Seq<u8>, b: Seq<u8>, c: u8)
    ensures
        form_part(Seq::empty()) == Seq::<char>::empty(),
        form_part(seq![c]) == form_byte(c),
        form_part(a + b) == form_part(a) + form_part(b),
    decreases b.len(),
{
    assert(seq![c].drop_last() =~= Seq::<u8>::empty());
    assert(form_part(seq![c].drop_last()) =~= Seq::<char>::empty());
    assert(seq![c].last() == c);
    assert(form_part(seq![c]) =~= form_byte(c));
    if b.len() == 0 {
        assert(a + b =~= a);
        assert(form_part(a) + form_part(b) =~= form_part(a));
    } else {
        law_bytes_are_written_one_by_one(a, b.drop_last(), c);
        assert((a + b).drop_last() =~= a + b.drop_last());
        assert(form_part(a) + form_part(b.drop_last()) + form_byte(b.last()) =~= form_part(a)
            + form_part(b));
    }
}

/// A pair is written as its name, an equals sign and its value, and pairs one behind the
/// other with an ampersand between them.
pub proof fn law_pairs_are_written_one_by_one(
    pairs: Seq<(Seq<char>, Seq<char>)>,
    name: Seq<char>,
    value: Seq<char>,
)
    ensures
        form_pair(name, value) == form_part(encode_utf8(name)) + seq!['='] + form_part(
            encode_utf8(value),
        ),
        form_text(Seq::empty()) == Seq::<char>::empty(),
        pairs.len() == 0 ==> form_text(pairs.push((name, value))) == form_pair(name, value),
        pairs.len() > 0 ==> form_text(pairs.push((name, value))) == form_text(pairs) + seq!['&']
            + form_pair(name, value),
{
    let all = pairs.push((name, value));
    assert(all.drop_last() =~= pairs);
    assert(form_pair(name, value) =~= form_part(encode_utf8(name)) + seq!['='] + form_part(
        encode_utf8(value),
    ));
    if pairs.len() > 0 {
        assert(form_text(all) =~= form_text(pairs) + seq!['&'] + form_pair(name, value));
    }
}

/// Whether the directive `d` is the word `word`, letters of either case being alike.
pub open spec fn is_word(d: Seq<char>, word: Seq<char>) -> bool {
    d.len() == word.len() && forall|i: int|
        0 <= i < d.len() ==> text::lower_char(#[trigger] d[i]) == word[i]
}

/// Two texts are alike in lower case exactly where the one is the other as a word, where
/// that is in lower case itself.
proof fn lemma_is_word(d: Seq<char>, word: Seq<char>)
    requires
        text::ascii_lower(word) == word,
    ensures
        is_word(d, word) <==> text::ascii_lower(d) == text::ascii_lower(word),
{
    let low = text::ascii_lower(d);
    if is_word(d, word) {
        assert(low =~= word);
    }
    if low == word {
        assert forall|i: int| 0 <= i < d.len() implies text::lower_char(#[trigger] d[i])
            == word[i] by {
            assert(low[i] == text::lower_char(d[i]));
        }
    }
}

/// Which directives of a header count: `no-store` and `no-cache` forbid to hold a
/// response, in letters of either case; and `max-age`, in letters of either case and with
/// white space around it, names a lifetime where an equals sign is behind it.
pub proof fn law_which_directives_count(d: Seq<char>)
    ensures
        forbids_caching(d) <==> is_word(d, "no-store"@) || is_word(d, "no-cache"@),
        is_max_age(d) <==> d.contains('=') && is_word(
            text::trim(text::before(d, '=')),
            "max-age"@,
        ),
{
    reveal_strlit("no-store");
    reveal_strlit("no-cache");
    reveal_strlit("max-age");
    assert(text::ascii_lower("no-store"@) =~= "no-store"@);
    assert(text::ascii_lower("no-cache"@) =~= "no-cache"@);
    assert(text::ascii_lower("max-age"@) =~= "max-age"@);
    lemma_is_word(d, "no-store"@);
    lemma_is_word(d, "no-cache"@);
    lemma_is_word(text::trim(text::before(d, '=')), "max-age"@);
}

/// Directives stand between commas, without the white space around them.
pub proof fn law_directives_stand_between_commas(raw: Seq<char>, i: int)
    requires
        0 <= i < text::split(raw, ',').len(),
    ensures
        directives(raw).len() == text::split(raw, ',').len(),
        directives(raw)[i] == text::trim(text::split(raw, ',')[i]),
{
}

/// Of several lifetimes the last counts, whether it is a number or not; where none is
/// named there is none.
pub proof fn law_the_last_lifetime_counts(raw: Seq<char>, i: int)
    requires
        0 <= i < directives(raw).len(),
        forall|j: int|
            0 <= j < directives(raw).len() ==> !forbids_caching(#[trigger] directives(raw)[j]),
        forall|j: int|
            i < j < directives(raw).len() ==> !is_max_age(#[trigger] directives(raw)[j]),
    ensures
        is_max_age(directives(raw)[i]) ==> max_age(raw) == text::parsed_u64(
            text::trim(text::behind(directives(raw)[i], '=')),
        ),
        i == 0 && !is_max_age(directives(raw)[0]) ==> max_age(raw) is None,
{
    lemma_last_max_age(directives(raw), i);
}

/// The last lifetime among `ds`, where none stands behind `i`.
proof fn lemma_last_max_age(ds: Seq<Seq<char>>, i: int)
    requires
        0 <= i < ds.len(),
        forall|j: int| i < j < ds.len() ==> !is_max_age(#[trigger] ds[j]),
    ensures
        is_max_age(ds[i]) ==> last_max_age(ds) == text::parsed_u64(
            text::trim(text::behind(ds[i], '=')),
        ),
        i == 0 && !is_max_age(ds[0]) ==> last_max_age(ds) is None,
    decreases ds.len(),
{
    if i < ds.len() - 1 {
        assert(!is_max_age(ds[ds.len() - 1]));
        let shorter = ds.drop_last();
        assert forall|j: int| i < j < shorter.len() implies !is_max_age(#[trigger] shorter[j]) by {
            assert(shorter[j] == ds[j]);
        }
        lemma_last_max_age(shorter, i);
    } else if i == 0 && !is_max_age(ds[0]) {
        assert(ds.drop_last() =~= Seq::<Seq<char>>::empty());
        assert(last_max_age(ds.drop_last()) is None);
    }
}

/// A request is the same as another exactly where every part is.
pub proof fn law_a_request_is_the_same_in_every_part(a: HttpRequest, b: HttpRequest)
    requires
        a.is_same(b),
    ensures
        method_text(&a.method) == method_text(&b.method),
        a.url@ == b.url@,
        header_values(&a.headers) == header_values(&b.headers),
        bytes_of(&a.body) == bytes_of(&b.body),
        a.timeout.nanos == b.timeout.nanos,
        a.connect_timeout == b.connect_timeout,
        a.max_response_bytes == b.max_response_bytes,
{
}

/// A bare request has no header and no body; it may take five seconds, two of them to
/// connect, and be answered with a mebibyte.
pub proof fn law_what_a_bare_request_is(r: HttpRequest, name: Seq<char>)
    requires
        r.is_bare(),
    ensures
        !header_values(&r.headers).contains_key(name),
        bytes_of(&r.body).len() == 0,
        r.timeout.nanos == 5_000_000_000,
        r.connect_timeout matches Some(t) && t.nanos == 2_000_000_000,
        r.max_response_bytes == 1_048_576,
{
}

/// The text of a header is the first of its values, where that is printable; there is
/// none where the header is not there or its first value is not.
pub proof fn law_the_text_of_a_header(
    values: Map<Seq<char>, Seq<Seq<u8>>>,
    name: Seq<char>,
    s: Option<Seq<char>>,
)
    requires
        is_header_text(values, name, s),
    ensures
        s is Some <==> values.contains_key(name) && forall|i: int|
            0 <= i < values[name][0].len() ==> #[trigger] values[name][0][i] == 9 || 32
                <= values[name][0][i] <= 126,
        s matches Some(t) ==> encode_utf8(t) == values[name][0],
{
}

/// Whether a byte is a character that a header's name is made of: a letter, a digit, or one
/// of fifteen marks.
pub open spec fn is_name_character(b: u8) -> bool {
    let c = b as char;
    ||| 'A' <= c <= 'Z'
    ||| 'a' <= c <= 'z'
    ||| '0' <= c <= '9'
    ||| c == '!' || c == '#' || c == '$' || c == '%' || c == '&'
    ||| c == '\'' || c == '*' || c == '+' || c == '-' || c == '.'
    ||| c == '^' || c == '_' || c == '`' || c == '|' || c == '~'
}

/// What a header's name and value are made of. A name is at least one such character and
/// no more than 65535; a value is of any bytes but control characters, of which a tab is
/// none; and what is printable of it are the tab and the characters from the space to the
/// tilde.
pub proof fn law_what_a_header_is_made_of(s: Seq<u8>)
    ensures
        is_header_name(s) <==> 0 < s.len() < 65536 && forall|i: int|
            0 <= i < s.len() ==> is_name_character(#[trigger] s[i]),
        is_header_value(s) <==> forall|i: int|
            0 <= i < s.len() ==> !(#[trigger] s[i] < 9 || 9 < s[i] < 32 || s[i] == 127),
        is_visible(s) <==> forall|i: int|
            0 <= i < s.len() ==> !(#[trigger] s[i] < 9 || 9 < s[i] < 32 || 126 < s[i]),
{
    assert forall|b: u8| #[trigger] is_name_byte(b) <==> is_name_character(b) by {}
    assert forall|b: u8| #[trigger] is_value_byte(b) <==> !(b < 9 || 9 < b < 32 || b == 127) by {}
    if forall|i: int| 0 <= i < s.len() ==> is_name_character(#[trigger] s[i]) {
        assert forall|i: int| 0 <= i < s.len() implies is_name_byte(#[trigger] s[i]) by {
            assert(is_name_character(s[i]));
        }
    }
    if forall|i: int| 0 <= i < s.len() ==> is_name_byte(#[trigger] s[i]) {
        assert forall|i: int| 0 <= i < s.len() implies is_name_character(#[trigger] s[i]) by {
            assert(is_name_byte(s[i]));
        }
    }
    if forall|i: int|
        0 <= i < s.len() ==> !(#[trigger] s[i] < 9 || 9 < s[i] < 32 || s[i] == 127) {
        assert forall|i: int| 0 <= i < s.len() implies is_value_byte(#[trigger] s[i]) by {}
    }
    if is_header_value(s) {
        assert forall|i: int| 0 <= i < s.len() implies !(#[trigger] s[i] < 9 || 9 < s[i] < 32
            || s[i] == 127) by {
            assert(is_value_byte(s[i]));
        }
    }
}

} // verus!
