use tinyweb::http::HTTPMethod;
use tinyweb::request::{attach_body, decode_head, DecodeError};

fn lines(v: &[&str]) -> Vec<String> {
    v.iter().map(|s| s.to_string()).collect()
}

fn err_of<T>(r: Result<T, DecodeError>) -> DecodeError {
    match r {
        Err(e) => e,
        Ok(_) => panic!("expected an error"),
    }
}

#[test]
fn a_plain_get_request_decodes() {
    let h = decode_head(&lines(&["GET /hello?a=1&b=two HTTP/1.1", "Host: example"])).unwrap();
    assert_eq!(h.method, HTTPMethod::GET);
    assert_eq!(h.uri.as_str(), "/hello?a=1&b=two");
    assert_eq!(h.path.as_str(), "/hello");
    assert_eq!(h.query.get("a").unwrap().as_str(), "1");
    assert_eq!(h.query.get("b").unwrap().as_str(), "two");
    assert_eq!(h.headers.get("Host").unwrap().as_str(), "example");
    assert_eq!(h.content_length, 0);
}

#[test]
fn unrecognized_method_is_rejected_not_defaulted() {
    let e = err_of(decode_head(&lines(&["BREW /pot HTTP/1.1"])));
    assert_eq!(e, DecodeError::MalformedRequestLine);
    let e = err_of(decode_head(&lines(&[])));
    assert_eq!(e, DecodeError::MalformedRequestLine);
    let e = err_of(decode_head(&lines(&["GET"])));
    assert_eq!(e, DecodeError::MalformedRequestLine);
}

#[test]
fn missing_content_length_on_post_fails() {
    let e = err_of(decode_head(&lines(&["POST /submit HTTP/1.1", "Host: x"])));
    assert_eq!(e, DecodeError::MissingContentLength);
    // GET without the header is fine: the body is empty
    assert!(decode_head(&lines(&["GET /x HTTP/1.1"])).is_ok());
    // and a POST that declares one is fine
    let h = decode_head(&lines(&["POST /submit HTTP/1.1", "Content-Length: 5"])).unwrap();
    assert_eq!(h.content_length, 5);
}

#[test]
fn header_without_colon_is_invalid() {
    let e = err_of(decode_head(&lines(&["GET /x HTTP/1.1", "NoColonHere"])));
    assert_eq!(e, DecodeError::InvalidHeaderSyntax);
    let e = err_of(decode_head(&lines(&["GET /x HTTP/1.1", "Content-Length: ten"])));
    assert_eq!(e, DecodeError::InvalidHeaderSyntax);
}

#[test]
fn duplicate_headers_last_wins() {
    let h = decode_head(&lines(&["GET /x HTTP/1.1", "X-A: first", "X-A: second"])).unwrap();
    assert_eq!(h.headers.get("X-A").unwrap().as_str(), "second");
}

#[test]
fn header_value_keeps_colons_after_the_first() {
    let h = decode_head(&lines(&["GET /x HTTP/1.1", "Host: example.com:8080"])).unwrap();
    assert_eq!(h.headers.get("Host").unwrap().as_str(), "example.com:8080");
}

#[test]
fn cookie_header_is_split_and_trimmed() {
    let h = decode_head(
        &lines(&["GET /x HTTP/1.1", "Cookie: session_id=abc; theme = dark ; =skipped"]),
    ).unwrap();
    assert_eq!(h.cookies.get("session_id").unwrap().as_str(), "abc");
    assert_eq!(h.cookies.get("theme").unwrap().as_str(), "dark");
    assert_eq!(h.cookies.count(), 2);
}

#[test]
fn query_pairs_without_equals_or_key_are_dropped() {
    let h = decode_head(&lines(&["GET /p?lonely&=v&ok=1&empty= HTTP/1.1"])).unwrap();
    assert!(h.query.get("lonely").is_none());
    assert!(h.query.get("").is_none());
    assert_eq!(h.query.get("ok").unwrap().as_str(), "1");
    assert_eq!(h.query.get("empty").unwrap().as_str(), "");
}

#[test]
fn short_body_is_truncated_body() {
    let h = decode_head(&lines(&["POST /x HTTP/1.1", "Content-Length: 5"])).unwrap();
    let e = err_of(attach_body(h, vec![1, 2, 3]));
    assert_eq!(e, DecodeError::TruncatedBody);
}

#[test]
fn exact_body_is_attached_and_params_start_empty() {
    let h = decode_head(&lines(&["POST /x HTTP/1.1", "Content-Length: 3"])).unwrap();
    let req = attach_body(h, vec![9, 8, 7]).unwrap();
    assert_eq!(req.body, vec![9, 8, 7]);
    assert_eq!(req.route_params.count(), 0);
    assert_eq!(req.method, HTTPMethod::POST);
}
