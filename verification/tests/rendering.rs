use tinyweb::cookie::Cookie;
use tinyweb::http::{HTTPMethod, HTTPStatus};
use tinyweb::response::{content_type_for_ext, Response};

#[test]
fn status_text_and_code_agree_with_the_wire() {
    assert_eq!(HTTPStatus::SUCCESS.status_code(), 200);
    assert_eq!(HTTPStatus::SUCCESS.status_text(), "OK");
    assert_eq!(HTTPStatus::NOT_FOUND.status_code(), 404);
    assert_eq!(HTTPStatus::NOT_FOUND.status_text(), "Not Found");
    assert_eq!(HTTPStatus::BAD_REQUEST.status_code(), 400);
    assert_eq!(HTTPStatus::UNAUTHORIZED.status_code(), 401);
    assert_eq!(HTTPStatus::FORBIDDEN.status_code(), 403);
    assert_eq!(HTTPStatus::INTERNAL_SERVER_ERROR.status_code(), 500);
    assert_eq!(HTTPStatus::BAD_GATEWAY.status_code(), 502);
    assert_eq!(HTTPStatus::SERVICE_UNAVAILABLE.status_code(), 503);
    assert_eq!(HTTPStatus::REDIRECT.status_code(), 302);
}

#[test]
fn methods_that_carry_a_body() {
    assert!(HTTPMethod::POST.carries_body());
    assert!(HTTPMethod::PUT.carries_body());
    assert!(HTTPMethod::PATCH.carries_body());
    assert!(!HTTPMethod::GET.carries_body());
    assert!(!HTTPMethod::DELETE.carries_body());
}

#[test]
fn a_text_message_renders_the_full_wire_format() {
    let mut r = Response::new();
    r.with_header(String::from("X-One"), String::from("1"));
    let msg = r.text("hello");
    assert_eq!(
        msg,
        "HTTP/1.1 200 OK\r\nX-One: 1\r\nConnection: close\r\nContent-Length: 5\r\nContent-Type: text/plain\r\n\r\nhello"
    );
}

#[test]
fn content_length_counts_bytes_not_characters() {
    let body = "h\u{e9}llo";
    assert_eq!(body.chars().count(), 5);
    assert_eq!(body.len(), 6);
    let r = Response::new();
    let msg = r.text(body);
    assert!(msg.contains("Content-Length: 6\r\n"));
    let msg = r.json(body);
    assert!(msg.contains("Content-Length: 6\r\n"));
}

#[test]
fn redirect_keeps_staged_cookies() {
    let mut r = Response::new();
    r.with_cookie(Cookie::new(String::from("k"), String::from("v")));
    let msg = r.redirect("/away");
    assert!(msg.contains("Set-Cookie: k=v; Path=/\r\n"));
    assert_eq!(r.cookies.len(), 1);
}

#[test]
fn not_found_renders_an_empty_404() {
    let mut r = Response::new();
    let msg = r.not_found();
    assert!(msg.starts_with("HTTP/1.1 404 Not Found\r\n"));
    assert!(msg.contains("Content-Length: 0\r\n"));
    assert_eq!(r.status, HTTPStatus::NOT_FOUND);
}

#[test]
fn redirect_carries_a_location_header() {
    let mut r = Response::new();
    let msg = r.redirect("/login");
    assert!(msg.starts_with("HTTP/1.1 302 Found\r\n"));
    assert!(msg.contains("Location: /login\r\n"));
}

#[test]
fn cookies_become_set_cookie_lines() {
    let mut r = Response::new();
    r.with_cookie(Cookie::new(String::from("session_id"), String::from("abc")));
    let msg = r.json("{}");
    assert!(msg.contains("Set-Cookie: session_id=abc; Path=/\r\n"));
    assert!(msg.contains("Content-Type: application/json\r\n"));
}

#[test]
fn a_full_cookie_renders_every_attribute() {
    let c = Cookie::new(String::from("k"), String::from("v"))
        .with_expires(String::from("Wed, 01 Jan 2031 00:00:00 GMT"))
        .secure()
        .with_max_age(3600)
        .http_only()
        .with_path(String::from("/app"));
    assert_eq!(
        c.to_header_string(),
        "k=v; Expires=Wed, 01 Jan 2031 00:00:00 GMT; Secure; Max-Age=3600; HttpOnly; Path=/app"
    );
}

#[test]
fn cookie_flag_setters_agree() {
    let c = Cookie::new(String::from("a"), String::from("b"))
        .with_secure(true)
        .with_http_only(true);
    assert_eq!(c.to_header_string(), "a=b; Secure; HttpOnly; Path=/");
}

#[test]
fn static_file_content_types() {
    assert_eq!(content_type_for_ext("html"), "text/html");
    assert_eq!(content_type_for_ext("css"), "text/css");
    assert_eq!(content_type_for_ext("js"), "application/javascript");
    assert_eq!(content_type_for_ext("json"), "application/json");
    assert_eq!(content_type_for_ext("png"), "image/png");
    assert_eq!(content_type_for_ext("jpg"), "image/jpeg");
    assert_eq!(content_type_for_ext("jpeg"), "image/jpeg");
    assert_eq!(content_type_for_ext("pdf"), "application/pdf");
    assert_eq!(content_type_for_ext("exe"), "application/octet-stream");
}
