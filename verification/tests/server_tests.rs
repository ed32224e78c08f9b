use ocastaproxy::server::{gateway, gateway_location, get_url, upstream};
use ocastaproxy::websocket::ProxyData;

fn none() -> ProxyData {
    ProxyData::new(vec![])
}

fn s(x: &str) -> String {
    x.to_string()
}

#[test]
fn gateway_adds_https() {
    assert_eq!(gateway_location(s("example.com"), s("plain")), "/plain/https://example.com");
    assert_eq!(gateway_location(s("http://example.com"), s("plain")), "/plain/http://example.com");
}

#[test]
fn gateway_b64_is_url_safe_without_padding() {
    assert_eq!(gateway_location(s("example.com"), s("b64")), "/b64/aHR0cHM6Ly9leGFtcGxlLmNvbQ");
}

#[test]
fn target_of_b64_path_with_query() {
    let q = vec![(s("q"), s("1")), (s("flag"), s(""))];
    assert_eq!(get_url(s("aHR0cHM6Ly9leGFtcGxlLmNvbS9h"), s("b64"), &ProxyData::new(q)), "https://example.com/a?q=1&flag");
}

#[test]
fn target_of_plain_path() {
    assert_eq!(get_url(s("https://example.com"), s("plain"), &none()), "https://example.com/");
}

#[test]
fn target_errors_are_empty() {
    assert_eq!(get_url(s("not a url"), s("plain"), &none()), "");
    assert_eq!(get_url(s("!!!"), s("b64"), &none()), "");
    assert_eq!(get_url(s("_w"), s("b64"), &none()), "");
}

#[test]
fn gateway_and_target_agree() {
    let path = gateway_location(s("example.com/a"), s("b64"));
    let rest = path.strip_prefix("/b64/").unwrap().to_string();
    assert_eq!(get_url(rest, s("b64"), &none()), "https://example.com/a");
}

#[test]
fn upstream_has_origin() {
    let u = upstream(s("https://example.com:8443/x"), s("plain"), &none()).unwrap();
    assert_eq!(u.url, "https://example.com:8443/x");
    assert_eq!(u.origin, "https://example.com:8443");
    assert!(upstream(s("nope"), s("plain"), &none()).is_none());
}

#[test]
fn gateway_refuses_invalid_location() {
    assert_eq!(gateway(s("example.com"), s("plain")), Some(s("/plain/https://example.com")));
    assert_eq!(gateway(s("example.com\n"), s("plain")), None);
    assert_eq!(gateway(s("example.com\n"), s("b64")), Some(s("/b64/aHR0cHM6Ly9leGFtcGxlLmNvbQo")));
}

#[test]
fn a_repeated_query_key_keeps_its_last_value() {
    let q = vec![(s("q"), s("1")), (s("r"), s("2")), (s("q"), s("3"))];
    assert_eq!(get_url(s("https://example.com/a"), s("plain"), &ProxyData::new(q)), "https://example.com/a?q=3&r=2");
}

#[test]
fn b64_gateway_always_redirects() {
    assert_eq!(gateway(s("https://example.com/"), s("b64")), Some(s("/b64/aHR0cHM6Ly9leGFtcGxlLmNvbS8")));
    assert_eq!(gateway(s("example.com"), s("b64")), Some(s("/b64/aHR0cHM6Ly9leGFtcGxlLmNvbQ")));
}
