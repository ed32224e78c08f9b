use ocastaproxy::client::{
    decode, encode, needs_browser, proxied_location, unwrap_text, url_unwrap, url_wrap, websocket_address_exec,
    websocket_url, wrap_address,
};

fn s(x: &str) -> String {
    x.to_string()
}

#[test]
fn wrap_relative_links() {
    assert_eq!(url_wrap(s("./../img.png"), s("https://a.com"), s("plain"), None), "/plain/https://a.com/img.png");
    assert_eq!(url_wrap(s("api/x"), s("https://a.com/"), s("plain"), None), "/plain/https://a.com/api/x");
    assert_eq!(url_wrap(s("//cdn.org/a"), s("https://a.com"), s("plain"), None), "/plain/https://cdn.org/a");
}

#[test]
fn wrap_keeps_websocket_addresses_absolute() {
    assert_eq!(url_wrap(s("ws://x.com/s"), s("https://a.com"), s("plain"), None), "/plain/ws://x.com/s");
    assert_eq!(url_wrap(s("wss://x.com/s"), s("https://a.com"), s("plain"), None), "/plain/wss://x.com/s");
}

#[test]
fn wrap_keeps_special_and_proxied() {
    assert_eq!(url_wrap(s("blob:abc"), s("https://a.com"), s("plain"), None), "blob:abc");
    assert_eq!(url_wrap(s("../plain/x"), s("https://a.com"), s("plain"), None), "/plain/https://a.com/plain/x");
    assert_eq!(url_wrap(s("/plain/https://x.org"), s("https://a.com"), s("plain"), None), "/plain/https://x.org");
}

#[test]
fn wrap_is_idempotent() {
    for link in ["img.png", "./a", "../b", "//c.org", "https://d.org/x", "data:x"] {
        let once = url_wrap(s(link), s("https://a.com"), s("plain"), None);
        let twice = url_wrap(once.clone(), s("https://a.com"), s("plain"), None);
        assert_eq!(once, twice);
    }
}

#[test]
fn unwrap_reverses_wrap() {
    assert_eq!(url_unwrap(s("/plain/https://a.com/x"), s("plain"), None), "https://a.com/x");
    assert_eq!(url_unwrap(s("https://a.com/x"), s("plain"), None), "https://a.com/x");
    let wrapped = url_wrap(s("img.png"), s("https://a.com"), s("plain"), None);
    assert_eq!(url_unwrap(wrapped, s("plain"), None), "https://a.com/img.png");
}

#[test]
fn plain_encoding_is_identity() {
    assert_eq!(encode(s("https://a.com/x"), s("plain"), None), "https://a.com/x");
    assert_eq!(decode(s("https://a.com/x"), s("plain"), None), "https://a.com/x");
}

#[test]
fn location_is_split() {
    let (enc, url) = proxied_location("http://localhost:8080/plain/https://example.com/a/b");
    assert_eq!(enc, "plain");
    assert_eq!(url, "https://example.com/a/b");
    let (enc, url) = proxied_location("http://localhost:8080/b64/aHR0cHM6Ly9leGFtcGxlLmNvbQ");
    assert_eq!(enc, "b64");
    assert_eq!(url, "aHR0cHM6Ly9leGFtcGxlLmNvbQ");
    let (enc, url) = proxied_location("http://localhost");
    assert_eq!(enc, "");
    assert_eq!(url, "");
}

#[test]
fn websocket_address_is_proxied() {
    assert_eq!(
        websocket_url(s("wss://echo.ws.org/socket"), s("https://a.com"), s("plain"), None),
        "/ws/plain/wss://echo.ws.org/socket?origin=https://a.com"
    );
}

#[test]
fn websocket_address_swaps_first_occurrences_only() {
    assert_eq!(
        websocket_url(s("wss://example.com/?u=http://a"), s("https://example.com"), s("none"), None),
        "/ws/none/wss://example.com/?u=http://a?origin=https://example.com"
    );
    assert_eq!(websocket_address_exec("wss://x.org/?u=ws://a"), "https://x.org/?u=ws://a");
}

#[test]
fn b64_takes_what_the_browser_gave() {
    assert!(needs_browser("b64"));
    assert!(!needs_browser("plain"));
    assert_eq!(encode(s("abc"), s("b64"), Some(s("YWJj"))), "YWJj");
    assert_eq!(encode(s("abc"), s("b64"), None), "");
    assert_eq!(decode(s("YWJj"), s("b64"), Some(s("abc"))), "abc");
    assert_eq!(decode(s("%%"), s("b64"), None), "");
    assert_eq!(encode(s("abc"), s("plain"), Some(s("ignored"))), "abc");
}

#[test]
fn b64_wrapping_hands_the_address_to_the_browser() {
    assert_eq!(
        wrap_address("img.png", "https://a.com", "b64"),
        Some(s("https://a.com/img.png"))
    );
    assert_eq!(wrap_address("blob:abc", "https://a.com", "b64"), None);
    assert_eq!(
        url_wrap(s("img.png"), s("https://a.com"), s("b64"), Some(s("aHR0cHM6Ly9hLmNvbS9pbWcucG5n"))),
        "/b64/aHR0cHM6Ly9hLmNvbS9pbWcucG5n"
    );
    assert_eq!(unwrap_text("/b64/aHR0cHM6Ly9hLmNvbQ==", "b64"), "aHR0cHM6Ly9hLmNvbQ==");
    assert_eq!(
        url_unwrap(s("/b64/aHR0cHM6Ly9hLmNvbQ=="), s("b64"), Some(s("https://a.com"))),
        "https://a.com"
    );
}
