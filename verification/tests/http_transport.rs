//! Outbound requests, and what a response says of itself.
use bytes::Bytes;
use http::{HeaderMap, Method};
use ppe_core::duration::Duration;
use ppe_core::http_transport::{
    default_connect_timeout, default_timeout, form_urlencode, max_age_of, HttpRequest,
    HttpResponse, HttpTransportError, DEFAULT_MAX_RESPONSE_BYTES,
};

#[test]
fn form_encoding_matches_what_an_idp_expects() {
    assert_eq!(
        &*form_urlencode(&[("grant_type", "client_credentials")]),
        b"grant_type=client_credentials"
    );
    assert_eq!(&*form_urlencode(&[("a", "1"), ("b", "2")]), b"a=1&b=2");
    assert_eq!(
        &*form_urlencode(&[("scope", "read write")]),
        b"scope=read+write"
    );
    assert_eq!(
        &*form_urlencode(&[("scope", "read:users")]),
        b"scope=read%3Ausers"
    );
    assert_eq!(&*form_urlencode(&[("k", "a*-._z")]), b"k=a*-._z");
    assert_eq!(
        &*form_urlencode(&[("client_assertion", "aB-_9.xY=")]),
        b"client_assertion=aB-_9.xY%3D"
    );
    assert!(form_urlencode(&[]).is_empty());
}

#[test]
fn form_encoding_escapes_the_separators_it_uses() {
    assert_eq!(&*form_urlencode(&[("x", "a&b=c")]), b"x=a%26b%3Dc");
}

fn resp_with(status: u16, headers: &[(&str, &str)]) -> HttpResponse {
    let mut map = HeaderMap::new();
    for (k, v) in headers {
        map.insert(
            http::header::HeaderName::from_bytes(k.as_bytes()).unwrap(),
            http::header::HeaderValue::from_str(v).unwrap(),
        );
    }
    HttpResponse::new(status, Bytes::new()).with_headers(map)
}

#[test]
fn a_revalidation_is_recognized_as_one() {
    assert!(resp_with(304, &[]).is_not_modified());
    assert!(!resp_with(304, &[]).is_success());
    assert!(!resp_with(200, &[]).is_not_modified());
    assert!(!resp_with(404, &[]).is_not_modified());
}

#[test]
fn an_etag_is_returned_only_when_the_peer_sent_a_usable_one() {
    assert_eq!(resp_with(200, &[("etag", "\"v1\"")]).etag(), Some("\"v1\""));
    assert_eq!(
        resp_with(200, &[("etag", "W/\"weak\"")]).etag(),
        Some("W/\"weak\"")
    );
    assert_eq!(resp_with(200, &[]).etag(), None);
}

#[test]
fn max_age_is_read_from_cache_control() {
    assert_eq!(
        resp_with(200, &[("cache-control", "max-age=300")]).cache_max_age(),
        Some(Duration::from_secs(300))
    );
    assert_eq!(
        resp_with(200, &[("cache-control", "public, max-age=600")]).cache_max_age(),
        Some(Duration::from_secs(600))
    );
    assert_eq!(
        resp_with(200, &[("cache-control", "max-age=600, must-revalidate")]).cache_max_age(),
        Some(Duration::from_secs(600))
    );
    assert_eq!(
        resp_with(200, &[("cache-control", "Max-Age=42")]).cache_max_age(),
        Some(Duration::from_secs(42))
    );
    assert_eq!(
        resp_with(200, &[("cache-control", "max-age=0")]).cache_max_age(),
        Some(Duration::zero())
    );
}

#[test]
fn no_store_and_no_cache_beat_a_max_age_in_the_same_header() {
    for raw in [
        "no-store",
        "no-cache",
        "no-store, max-age=300",
        "max-age=300, no-store",
        "max-age=300, no-cache",
        "public, No-Cache, max-age=300",
    ] {
        assert_eq!(
            resp_with(200, &[("cache-control", raw)]).cache_max_age(),
            None,
            "`{raw}` must not yield a cacheable lifetime"
        );
    }
}

#[test]
fn an_unusable_cache_control_yields_no_lifetime() {
    for raw in [
        "",
        "max-age",
        "max-age=",
        "max-age=abc",
        "max-age=-1",
        "max-age=99999999999999999999999",
        "s-maxage=600",
        "public",
    ] {
        assert_eq!(
            resp_with(200, &[("cache-control", raw)]).cache_max_age(),
            None,
            "`{raw}` must not yield a lifetime"
        );
    }
    assert_eq!(resp_with(200, &[]).cache_max_age(), None);
}

#[test]
fn an_unparseable_max_age_does_not_leave_an_earlier_one_standing() {
    assert_eq!(
        resp_with(200, &[("cache-control", "max-age=300, max-age=abc")]).cache_max_age(),
        None
    );
    assert_eq!(
        resp_with(200, &[("cache-control", "max-age=abc, max-age=300")]).cache_max_age(),
        Some(Duration::from_secs(300))
    );
}

#[test]
fn a_qualified_no_cache_is_not_treated_as_a_bare_one() {
    assert_eq!(
        resp_with(
            200,
            &[("cache-control", "no-cache=\"set-cookie\", max-age=300")]
        )
        .cache_max_age(),
        Some(Duration::from_secs(300))
    );
}

#[test]
fn a_new_request_carries_the_default_bounds() {
    let req = HttpRequest::get("https://idp.example.com/jwks");
    assert_eq!(req.method, Method::GET);
    assert_eq!(req.timeout, default_timeout());
    assert_eq!(req.connect_timeout, Some(default_connect_timeout()));
    assert_eq!(req.max_response_bytes, DEFAULT_MAX_RESPONSE_BYTES);
    assert!(req.body.is_empty());
}

#[test]
fn builders_override_the_defaults() {
    let req = HttpRequest::post("https://idp.example.com/token", Bytes::from_static(b"a=1"))
        .timeout(Duration::from_secs(30))
        .connect_timeout(Duration::from_secs(1))
        .max_response_bytes(64);
    assert_eq!(req.method, Method::POST);
    assert_eq!(req.timeout, Duration::from_secs(30));
    assert_eq!(req.connect_timeout, Some(Duration::from_secs(1)));
    assert_eq!(req.max_response_bytes, 64);
    assert_eq!(&*req.body, b"a=1");
}

#[test]
fn an_illegal_header_is_an_error_rather_than_a_panic() {
    let err = HttpRequest::get("https://example.com")
        .header("not a header name", "v")
        .expect_err("a header name with a space is not legal");
    assert!(matches!(err, HttpTransportError::InvalidRequest(_)));

    let err = HttpRequest::get("https://example.com")
        .header("x-ok", "bad\nvalue")
        .expect_err("a header value with a newline is not legal");
    assert!(matches!(err, HttpTransportError::InvalidRequest(_)));
}

#[test]
fn a_non_success_status_is_not_a_transport_error() {
    let resp = HttpResponse::new(404, Bytes::new());
    assert!(!resp.is_success());
    let resp = HttpResponse::new(204, Bytes::new());
    assert!(resp.is_success());
}

#[test]
fn rejected_and_connect_render_differently() {
    let rejected = HttpTransportError::Rejected("egress policy".to_owned()).message();
    let connect = HttpTransportError::Connect("refused".to_owned()).message();
    assert!(rejected.contains("refused by the host"), "{rejected}");
    assert!(connect.contains("connection failed"), "{connect}");
    assert_ne!(rejected, connect);
}

#[test]
fn delivery_is_reported_separately_from_failure() {
    assert!(!HttpTransportError::Connect("refused".to_owned()).may_have_reached_peer());
    assert!(!HttpTransportError::InvalidRequest("bad url".to_owned()).may_have_reached_peer());
    assert!(!HttpTransportError::Rejected("egress".to_owned()).may_have_reached_peer());

    assert!(
        HttpTransportError::Timeout.may_have_reached_peer(),
        "a timeout cannot distinguish 'never arrived' from 'the reply was lost', \
         so it must read as indeterminate rather than failed"
    );
    assert!(HttpTransportError::Io("reset".to_owned()).may_have_reached_peer());
    assert!(
        HttpTransportError::ResponseTooLarge {
            actual: 2,
            limit: 1
        }
        .may_have_reached_peer(),
        "the peer answered; we declined to buffer the answer"
    );
}

#[test]
fn response_too_large_names_both_numbers() {
    let msg = HttpTransportError::ResponseTooLarge {
        actual: 2048,
        limit: 1024,
    }
    .message();
    assert!(msg.contains("1024"), "{msg}");
    assert!(msg.contains("2048"), "{msg}");
}

#[test]
fn a_header_is_put_on_the_request() {
    let req = HttpRequest::get("https://example.com")
        .header("X-Trace", "a")
        .unwrap()
        .header("x-trace", "b")
        .unwrap()
        .header("accept", "*/*")
        .unwrap();
    assert_eq!(req.headers.get("x-trace").unwrap(), "b");
    assert_eq!(req.headers.get("accept").unwrap(), "*/*");
    assert_eq!(req.headers.len(), 2);
    assert!(req.has_room_for_header());
    assert_eq!(req.url, "https://example.com");
    let copy = req.clone();
    assert_eq!(copy.headers.get("accept").unwrap(), "*/*");
    assert_eq!(copy.method, Method::GET);
    assert_eq!(copy.url, "https://example.com");
}

#[test]
fn a_name_too_long_for_the_wire_is_refused() {
    let err = HttpRequest::get("https://example.com")
        .header(&"x".repeat(65_536), "v")
        .unwrap_err();
    assert!(matches!(err, HttpTransportError::InvalidRequest(_)));
}

#[test]
fn a_body_can_be_replaced() {
    let req = HttpRequest::new(Method::PUT, "https://example.com").body(Bytes::from_static(b"x"));
    assert_eq!(req.method, Method::PUT);
    assert_eq!(&*req.body, b"x");
    assert_eq!(&*req.clone().body, b"x");
}

#[test]
fn form_encoding_spells_every_byte_that_is_not_plain() {
    assert_eq!(&*form_urlencode(&[("\u{e9}", "\u{1f600}")]), b"%C3%A9=%F0%9F%98%80");
    assert_eq!(&*form_urlencode(&[("", "")]), b"=");
    assert_eq!(&*form_urlencode(&[("a+b", "~")]), b"a%2Bb=%7E");
}

#[test]
fn an_etag_that_is_no_text_is_not_handed_out() {
    let mut map = HeaderMap::new();
    map.insert("etag", http::header::HeaderValue::from_bytes(b"\xff").unwrap());
    let resp = HttpResponse::new(200, Bytes::from_static(b"doc")).with_headers(map);
    assert_eq!(resp.etag(), None);
    assert_eq!(resp.cache_max_age(), None);
    assert_eq!(resp.status, 200);
    assert_eq!(&*resp.clone().body, b"doc");
}

#[test]
fn the_bounds_of_success_are_as_http_has_them() {
    assert!(!resp_with(199, &[]).is_success());
    assert!(resp_with(200, &[]).is_success());
    assert!(resp_with(299, &[]).is_success());
    assert!(!resp_with(300, &[]).is_success());
}

#[test]
fn a_lifetime_is_read_off_the_text_of_the_header() {
    assert_eq!(max_age_of("public , MAX-AGE=+7"), Some(7));
    assert_eq!(max_age_of("max-age=18446744073709551615"), Some(u64::MAX));
    assert_eq!(max_age_of("max-age=18446744073709551616"), None);
    assert_eq!(max_age_of("max-age=3, no-store"), None);
}

#[test]
fn every_failure_says_what_it_is() {
    assert!(HttpTransportError::Timeout.message().contains("timed out"));
    assert!(HttpTransportError::Io("reset".to_owned()).message().contains("reset"));
    assert!(HttpTransportError::InvalidRequest("bad".to_owned()).message().contains("bad"));
}
