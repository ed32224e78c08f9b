use ocastaproxy::headers::{
    content_type, get_headers, handshake_request_headers, is_image, response_plan, strip_response_headers, ResponsePlan,
};

fn h(name: &str, value: &str) -> (String, Vec<u8>) {
    (name.to_string(), value.as_bytes().to_vec())
}

#[test]
fn request_headers_are_filtered() {
    let input = vec![
        h("host", "proxy"),
        h("accept", "*/*"),
        h("origin", "http://localhost"),
        h("referer", "http://localhost/plain/x"),
        h("x-real-ip", "1.2.3.4"),
        h("accept", "text/html"),
    ];
    assert_eq!(
        get_headers(&input, "https://example.com"),
        vec![h("accept", "text/html"), h("origin", "https://example.com"), h("referer", "https://example.com")]
    );
}

#[test]
fn invalid_origin_is_left_out() {
    let input = vec![h("origin", "x"), h("cookie", "a=1")];
    assert_eq!(get_headers(&input, "https://e\u{7f}.com"), vec![h("cookie", "a=1")]);
}

#[test]
fn response_headers_are_stripped() {
    let input = vec![
        h("content-type", "text/html"),
        h("content-length", "10"),
        h("x-frame-options", "DENY"),
        h("set-cookie", "a"),
        h("content-security-policy", "x"),
        h("set-cookie", "b"),
    ];
    assert_eq!(
        strip_response_headers(input),
        vec![h("content-type", "text/html"), h("set-cookie", "a"), h("set-cookie", "b")]
    );
}

#[test]
fn content_type_text() {
    assert_eq!(content_type(&vec![h("a", "b"), h("content-type", "image/png")]), Some("image/png".to_string()));
    assert_eq!(content_type(&vec![h("a", "b")]), None);
    assert_eq!(content_type(&vec![("content-type".to_string(), vec![0xc3, 0xa9])]), Some(String::new()));
    assert!(is_image("image/png"));
    assert!(!is_image("text/html"));
}

#[test]
fn handshake_headers_name_origin_and_host() {
    let input = vec![h("origin", "http://localhost:8080"), h("host", "localhost:8080"), h("sec-websocket-key", "abc")];
    assert_eq!(
        handshake_request_headers(&input, "https://o.org", "echo.example.com"),
        vec![h("origin", "https://o.org"), h("host", "echo.example.com"), h("sec-websocket-key", "abc")]
    );
    assert_eq!(
        handshake_request_headers(&vec![h("origin", "x")], "bad\nvalue", ""),
        vec![h("origin", "")]
    );
}

#[test]
fn response_plan_follows_content_type() {
    assert_eq!(response_plan(&vec![h("server", "x")]), ResponsePlan::BadRequest);
    assert_eq!(response_plan(&vec![h("content-type", "image/png")]), ResponsePlan::PassBytes);
    assert_eq!(
        response_plan(&vec![h("server", "x"), h("content-type", "text/html; charset=utf-8")]),
        ResponsePlan::Rewrite("text/html; charset=utf-8".to_string())
    );
}
