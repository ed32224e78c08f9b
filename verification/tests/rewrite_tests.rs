use ocastaproxy::rewrite::{
    get_url, head_script, html, is_security_policy, page, rewrite_srcset, rewritecss, rewritejs,
};

fn s(x: &str) -> String {
    x.to_string()
}

#[test]
fn special_schemes_are_kept() {
    for link in ["data:image/png;base64,AA", "about:blank", "javascript:void(0)", "blob:x", "mailto:a@b.c"] {
        assert_eq!(get_url(s(link), s("https://a.com"), s("plain")), link);
    }
}

#[test]
fn relative_link_goes_under_origin() {
    assert_eq!(
        get_url(s("./img/a.png"), s("https://a.com"), s("plain")),
        "/plain/https://a.com/img/a.png"
    );
    assert_eq!(get_url(s("/path"), s("https://a.com"), s("plain")), "/plain/https://a.com/path");
    assert_eq!(get_url(s("img.png"), s("https://a.com/"), s("plain")), "/plain/https://a.com/img.png");
}

#[test]
fn scheme_relative_link_gets_https() {
    assert_eq!(
        get_url(s("//cdn.com/x.js"), s("https://a.com"), s("plain")),
        "/plain/https://cdn.com/x.js"
    );
}

#[test]
fn proxied_link_is_kept() {
    assert_eq!(get_url(s("/plain/https://x.org/"), s("https://a.com"), s("plain")), "/plain/https://x.org/");
    assert_eq!(
        get_url(s("./plain/https://x.org/"), s("https://a.com"), s("plain")),
        "/plain/https://a.com/plain/https://x.org/"
    );
}

#[test]
fn b64_link_is_base64_standard() {
    assert_eq!(get_url(s("http://b.org/p"), s("https://a.com"), s("b64")), "/b64/aHR0cDovL2Iub3JnL3A=");
}

#[test]
fn get_url_is_idempotent() {
    for link in ["img.png", "//c.org/x", "data:x", "./a/b", "https://q.org/?a=1"] {
        for enc in ["plain", "b64"] {
            let once = get_url(s(link), s("https://a.com"), s(enc));
            let twice = get_url(once.clone(), s("https://a.com"), s(enc));
            assert_eq!(once, twice);
        }
    }
}

#[test]
fn css_urls_are_rewritten() {
    assert_eq!(
        rewritecss(s("a{background:url(img.png)} b{c:url('x')}"), s("plain"), s("https://a.com")),
        "a{background:url(/plain/https://a.com/img.png)} b{c:url(/plain/https://a.com/'x')}"
    );
}

#[test]
fn css_url_across_line_break_is_kept() {
    let css = "a{b:url(x\ny)}";
    assert_eq!(rewritecss(s(css), s("plain"), s("https://a.com")), css);
}

#[test]
fn css_without_urls_is_unchanged() {
    let css = "body { color: red; }";
    assert_eq!(rewritecss(s(css), s("plain"), s("https://a.com")), css);
}

#[test]
fn script_location_is_proxied() {
    assert_eq!(
        rewritejs("https://x.com/app.js", s("var a = window.location.href;")),
        "var a = window.$Ocasta.location.href;"
    );
    assert_eq!(rewritejs("https://x.com/app.js", s("f(document.location)")), "f(document.$Ocasta.location)");
    assert_eq!(rewritejs("https://x.com/app.js", s("x=document.location;")), "x=document.location;");
}

#[test]
fn script_matches_do_not_overlap() {
    assert_eq!(
        rewritejs("https://x.com/app.js", s("(window.location,window.location)")),
        "(window.$Ocasta.location,window.location)"
    );
}

#[test]
fn tag_manager_location_is_proxied() {
    assert_eq!(
        rewritejs("https://www.googletagmanager.com/gtm.js?id=1", s("t.location=1")),
        "t.$Ocasta.location=1"
    );
    assert_eq!(rewritejs("https://x.com/gtm.js", s("t.location=1")), "t.location=1");
}

#[test]
fn srcset_candidates_are_rewritten() {
    assert_eq!(
        rewrite_srcset(s("a.png 1x, b.png 2x"), s("https://a.com"), s("plain")),
        "/plain/https://a.com/a.png 1x, /plain/https://a.com/b.png 2x, "
    );
}

#[test]
fn page_dispatches_on_content_type() {
    assert_eq!(
        page(s("<p>"), "https://a.com/", s("plain"), s("text/html; charset=utf-8"), s("https://a.com"), ""),
        Some(s("<p>"))
    );
    assert_eq!(
        page(s("x{y:url(a)}"), "https://a.com/", s("plain"), s("text/css"), s("https://a.com"), ""),
        Some(s("x{y:url(/plain/https://a.com/a)}"))
    );
    assert_eq!(
        page(s(" window.location."), "https://a.com/", s("plain"), s("application/javascript"), s("https://a.com"), ""),
        Some(s(" window.$Ocasta.location."))
    );
    assert_eq!(
        page(s("{\"a\":1}"), "https://a.com/", s("plain"), s("application/json"), s("https://a.com"), ""),
        Some(s("{\"a\":1}"))
    );
}

#[test]
fn html_rewrites_srcset_candidates() {
    assert_eq!(
        html(r#"<img srcset="a.png 1x, b.png 2x">"#, "https://e.com/p", "none", "https://e.com", ""),
        Some(s(r#"<img srcset="/none/https://e.com/a.png 1x, /none/https://e.com/b.png 2x, ">"#))
    );
}

#[test]
fn html_rewrites_links_styles_and_scripts() {
    let out = html(
        r#"<html><head><title>t</title></head><body><a href="/x" integrity="abc" nonce="n">l</a><style>p{b:url(i.png)}</style><script> window.location.href</script></body></html>"#,
        "https://e.com/p",
        "none",
        "https://e.com",
        "var c;",
    )
    .unwrap();
    assert_eq!(
        out,
        r#"<html><head><script>var c;</script><title>t</title></head><body><a href="/none/https://e.com/x">l</a><style>p{b:url(/none/https://e.com/i.png)}</style><script> window.$Ocasta.location.href</script></body></html>"#
    );
}

#[test]
fn html_drops_security_policy_meta() {
    assert_eq!(
        html(
            r#"<meta http-equiv="content-security-policy" content="x"><meta http-equiv="refresh" content="1">"#,
            "https://e.com/",
            "none",
            "https://e.com",
            "",
        ),
        Some(s(r#"<meta http-equiv="refresh" content="1">"#))
    );
}

#[test]
fn html_page_goes_through_the_rewriter() {
    assert_eq!(
        page(s(r#"<img src="a.png">"#), "https://e.com/", s("none"), s("text/html"), s("https://e.com"), ""),
        Some(s(r#"<img src="/none/https://e.com/a.png">"#))
    );
}

#[test]
fn security_policy_meta_is_found() {
    assert!(is_security_policy("content-security-policy"));
    assert!(!is_security_policy("refresh"));
    assert_eq!(head_script("var x;"), "<script>var x;</script>");
}

#[test]
fn css_rewrite_is_idempotent() {
    for css in ["a{b:url(x.png)}", "p{q:url(\nr)} url(s) url(", "url(url(a)) url(/plain/https://a.com/y)"] {
        let once = rewritecss(css.to_string(), "plain".to_string(), "https://a.com".to_string());
        let twice = rewritecss(once.clone(), "plain".to_string(), "https://a.com".to_string());
        assert_eq!(once, twice);
    }
    let once = rewritecss("a{b:url(x.png)}".to_string(), "b64".to_string(), "https://a.com".to_string());
    assert_eq!(once, "a{b:url(/b64/aHR0cHM6Ly9hLmNvbS94LnBuZw==)}");
    assert_eq!(rewritecss(once.clone(), "b64".to_string(), "https://a.com".to_string()), once);
}
