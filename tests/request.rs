use rust_http_parse::{HeaderMap, HttpBody, HttpMethod, HttpRequest, HttpRequestBuilder};
use std::str::FromStr;

#[test]
fn method_from_str_accepts_canonical_spellings_only() {
    assert_eq!(Ok(HttpMethod::OPTIONS), HttpMethod::from_str("OPTIONS"));
    assert_eq!(Err(()), HttpMethod::from_str("get"));
    assert_eq!(Err(()), HttpMethod::from_str("GETS"));
    assert_eq!(Some(HttpMethod::TRACE), HttpMethod::from_bytes(b"TRACE"));
    assert_eq!(None, HttpMethod::from_bytes(b""));
    assert_eq!(b"PATCH".to_vec(), HttpMethod::PATCH.keyword());
}

#[test]
fn builder_builds_what_it_was_given() {
    let mut builder = HttpRequestBuilder::new();
    builder
        .with_method(HttpMethod::PUT)
        .with_path("/a/b")
        .with_header("K", "v1");
    builder.with_header("K", "v2").with_body(&b"payload".to_vec());
    let request = builder.build();
    assert_eq!(HttpMethod::PUT, request.method);
    assert_eq!("/a/b", request.path);
    assert_eq!(Some(&"v2".to_string()), request.header("K"));
    assert_eq!("payload", request.body_as_string());
}

#[test]
fn builder_defaults() {
    let request = HttpRequestBuilder::new().build();
    assert_eq!(HttpMethod::GET, request.method);
    assert_eq!("", request.path);
    assert_eq!(None, request.header("K"));
    assert!(request.body().is_empty());
}

#[test]
fn request_set_header_replaces() {
    let mut request = HttpRequest::new(HttpMethod::GET, "/");
    request.set_header("Host", "a");
    request.set_header("host", "b");
    request.set_header("Host", "c");
    assert_eq!(Some(&"c".to_string()), request.header("Host"));
    assert_eq!(Some(&"b".to_string()), request.header("host"));
    assert_eq!("", request.body_as_string());
}

#[test]
fn body_conversions() {
    let body = HttpBody::from_content(&vec![104, 105, 0xc3]);
    assert_eq!("hi\u{fffd}", body.as_str());
    assert_eq!(&[104, 105, 0xc3], body.bytes());
    assert_eq!("", HttpBody::new().as_str());
}

#[test]
fn header_map_insert_and_get() {
    let mut map = HeaderMap::new();
    assert_eq!(None, map.get(&"a".to_string()));
    map.insert("a".to_string(), "1".to_string());
    map.insert("b".to_string(), "2".to_string());
    map.insert("a".to_string(), "3".to_string());
    assert_eq!(Some(&"3".to_string()), map.get(&"a".to_string()));
    assert_eq!(Some(&"2".to_string()), map.get(&"b".to_string()));
    assert_eq!(None, map.get(&"A".to_string()));
}

#[test]
fn request_getters_match_fields() {
    let request = HttpRequest::new(HttpMethod::OPTIONS, "/x");
    assert_eq!(request.method, request.method());
    assert_eq!(&request.path, request.path());
}
