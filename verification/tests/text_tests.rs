use ocastaproxy::text::{chars_of, contains_exec, is_white_space, join, replace, replace_first, split, string_of, trim};

fn c(x: &str) -> Vec<char> {
    x.chars().collect()
}

#[test]
fn chars_round_trip() {
    assert_eq!(chars_of("héllo"), c("héllo"));
    assert_eq!(string_of(&c("héllo")), "héllo");
}

#[test]
fn replace_is_left_to_right_without_overlap() {
    assert_eq!(replace(&c("aaaa"), &c("aa"), &c("b")), c("bb"));
    assert_eq!(replace(&c("xwsy"), &c("ws"), &c("http")), c("xhttpy"));
    assert_eq!(replace(&c("abc"), &c("zz"), &c("y")), c("abc"));
}

#[test]
fn trim_removes_unicode_white_space() {
    assert_eq!(trim(&c(" \t a b \n\u{A0}")), c("a b"));
    assert_eq!(trim(&c("   ")), c(""));
}

#[test]
fn split_keeps_empty_pieces() {
    assert_eq!(split(&c(""), ','), vec![c("")]);
    assert_eq!(split(&c("a,,b,"), ','), vec![c("a"), c(""), c("b"), c("")]);
}

#[test]
fn join_from_a_position() {
    let pieces = vec![c("a"), c("b"), c("c")];
    assert_eq!(join(&pieces, 1, &c("/")), c("b/c"));
    assert_eq!(join(&pieces, 3, &c("/")), c(""));
}

#[test]
fn contains_finds_substrings() {
    assert!(contains_exec(&c("x content-security-policy y"), &c("content-security-policy")));
    assert!(!contains_exec(&c("abc"), &c("abd")));
    assert!(contains_exec(&c("abc"), &c("")));
}

#[test]
fn replace_first_changes_one_occurrence() {
    assert_eq!(replace_first(&c("ws://a/?u=ws://b"), &c("ws"), &c("http")), c("http://a/?u=ws://b"));
    assert_eq!(replace_first(&c("abc"), &c("zz"), &c("y")), c("abc"));
}

#[test]
fn white_space_is_the_unicode_set() {
    for ch in ['\t', '\n', '\u{B}', '\u{C}', '\r', ' ', '\u{85}', '\u{A0}', '\u{1680}', '\u{2000}', '\u{200A}', '\u{2028}', '\u{2029}', '\u{202F}', '\u{205F}', '\u{3000}'] {
        assert!(is_white_space(ch), "{:?}", ch);
        assert_eq!(is_white_space(ch), ch.is_whitespace());
    }
    for ch in ['a', '\u{8}', '\u{E}', '\u{200B}', '\u{FEFF}', '越'] {
        assert!(!is_white_space(ch), "{:?}", ch);
        assert_eq!(is_white_space(ch), ch.is_whitespace());
    }
}

#[test]
fn white_space_agrees_with_std_on_every_char() {
    for i in 0u32..0x110000 {
        if let Some(ch) = char::from_u32(i) {
            assert_eq!(is_white_space(ch), ch.is_whitespace(), "{:?}", ch);
        }
    }
}
