use ocastaproxy::html::{attribute_action, AttributeAction};

fn s(x: &str) -> String {
    x.to_string()
}

#[test]
fn security_policy_removes_the_element() {
    assert_eq!(
        attribute_action("http-equiv", s("content-security-policy"), "https://e.com/", "none", "https://e.com"),
        AttributeAction::RemoveElement
    );
    assert_eq!(
        attribute_action("http-equiv", s("refresh"), "https://e.com/", "none", "https://e.com"),
        AttributeAction::Keep
    );
}

#[test]
fn integrity_nonce_and_marker_are_removed() {
    for name in ["integrity", "nonce", "data-jsarwt"] {
        assert_eq!(attribute_action(name, s("x"), "https://e.com/", "none", "https://e.com"), AttributeAction::Remove);
    }
}

#[test]
fn links_are_rewritten() {
    for name in ["src", "href", "action"] {
        assert_eq!(
            attribute_action(name, s("a.png"), "https://e.com/", "none", "https://e.com"),
            AttributeAction::SetTo(s("/none/https://e.com/a.png"))
        );
    }
    assert_eq!(
        attribute_action("srcset", s("a.png 1x"), "https://e.com/", "none", "https://e.com"),
        AttributeAction::SetTo(s("/none/https://e.com/a.png 1x, "))
    );
}

#[test]
fn styles_and_handlers_are_rewritten() {
    assert_eq!(
        attribute_action("style", s("b:url(i.png)"), "https://e.com/", "none", "https://e.com"),
        AttributeAction::SetTo(s("b:url(/none/https://e.com/i.png)"))
    );
    assert_eq!(
        attribute_action("onclick", s("(window.location)"), "https://e.com/", "none", "https://e.com"),
        AttributeAction::SetTo(s("(window.$Ocasta.location)"))
    );
}

#[test]
fn other_attributes_stay() {
    assert_eq!(attribute_action("class", s("a.png"), "https://e.com/", "none", "https://e.com"), AttributeAction::Keep);
}
