//! Rewriting of proxied pages: links, CSS and scripts are made to point back
//! through the proxy under `/{encoding}/...`.

use vstd::prelude::*;
use crate::text::{chars_of, concat, ends_with, equals, has_prefix, has_suffix, starts_with, string_of};
use vstd::slice::slice_to_vec;
use crate::bindings::{base64_standard, encode_base64_standard, rewrite_html, rewritten_html};

verus! {

/// A link with one of these schemes is never sent through the proxy.
pub open spec fn special_scheme(s: Seq<char>) -> bool {
    ||| starts_with(s, "data:"@)
    ||| starts_with(s, "about:"@)
    ||| starts_with(s, "javascript:"@)
    ||| starts_with(s, "blob:"@)
    ||| starts_with(s, "mailto:"@)
}

/// The path prefix under which the proxy serves pages: `/{encoding}/`.
pub open spec fn proxy_prefix(encoding: Seq<char>) -> Seq<char> {
    "/"@ + encoding + "/"@
}

/// A link with a leading `./` removed.
pub open spec fn without_dot_slash(s: Seq<char>) -> Seq<char> {
    if starts_with(s, "./"@) {
        s.skip(2)
    } else {
        s
    }
}

/// The absolute address that the server makes of a link found on a page of
/// `origin`: scheme-relative links get `https:`, and links without a scheme
/// are put under `origin`.
pub open spec fn absolute_link(a: Seq<char>, origin: Seq<char>) -> Seq<char> {
    let a1 = if starts_with(a, "//"@) {
        "https:"@ + a
    } else {
        a
    };
    let valid_protocol = starts_with(a1, "http://"@) || starts_with(a1, "https://"@);
    let a2 = if !ends_with(origin, "/"@) && !starts_with(a1, "/"@) && !starts_with(a1, "http:"@)
        && !starts_with(a1, "https:"@) {
        "/"@ + a1
    } else {
        a1
    };
    if valid_protocol {
        a2
    } else {
        origin + a2
    }
}

/// The address as it stands in a proxied path: base64 (standard alphabet,
/// padded) for the `b64` encoding, unchanged for any other.
pub open spec fn encoded_link(target: Seq<char>, encoding: Seq<char>) -> Seq<char> {
    if encoding == "b64"@ {
        base64_standard(target)
    } else {
        target
    }
}

/// The link that the server writes in place of `el` on a page of `origin`.
pub open spec fn rewritten_link(el: Seq<char>, origin: Seq<char>, encoding: Seq<char>) -> Seq<char> {
    if special_scheme(el) {
        el
    } else {
        let a = without_dot_slash(el);
        if starts_with(a, proxy_prefix(encoding)) {
            a
        } else {
            proxy_prefix(encoding) + encoded_link(absolute_link(a, origin), encoding)
        }
    }
}

/// Whether a link has a scheme that is never proxied.
pub fn is_special_scheme(s: &[char]) -> (r: bool)
    ensures
        r == special_scheme(s@),
{
    has_prefix(s, &chars_of("data:")) || has_prefix(s, &chars_of("about:")) || has_prefix(
        s,
        &chars_of("javascript:"),
    ) || has_prefix(s, &chars_of("blob:")) || has_prefix(s, &chars_of("mailto:"))
}

/// `/{encoding}/`.
pub fn proxy_prefix_exec(encoding: &[char]) -> (r: Vec<char>)
    ensures
        r@ == proxy_prefix(encoding@),
{
    let slash = chars_of("/");
    let a = concat(&slash, encoding);
    concat(&a, &slash)
}

fn absolute_link_exec(a: Vec<char>, origin: &[char]) -> (r: Vec<char>)
    ensures
        r@ == absolute_link(a@, origin@),
{
    let a1 = if has_prefix(&a, &chars_of("//")) {
        concat(&chars_of("https:"), &a)
    } else {
        a
    };
    let valid_protocol = has_prefix(&a1, &chars_of("http://")) || has_prefix(
        &a1,
        &chars_of("https://"),
    );
    let a2 = if !has_suffix(origin, &chars_of("/")) && !has_prefix(&a1, &chars_of("/"))
        && !has_prefix(&a1, &chars_of("http:")) && !has_prefix(&a1, &chars_of("https:")) {
        concat(&chars_of("/"), &a1)
    } else {
        a1
    };
    if valid_protocol {
        a2
    } else {
        concat(origin, &a2)
    }
}

/// The link that replaces `el`, on characters.
pub fn rewrite_link(el: Vec<char>, origin: &[char], encoding: &[char]) -> (r: Vec<char>)
    ensures
        r@ == rewritten_link(el@, origin@, encoding@),
{
    if is_special_scheme(&el) {
        return el;
    }
    proof {
        reveal_strlit("./");
    }
    let a = if has_prefix(&el, &chars_of("./")) {
        crate::text::skip(&el, 2)
    } else {
        el
    };
    let prefix = proxy_prefix_exec(encoding);
    if has_prefix(&a, &prefix) {
        return a;
    }
    let target = absolute_link_exec(a, origin);
    let encoded = if equals(encoding, &chars_of("b64")) {
        let t = string_of(&target);
        let e = encode_base64_standard(t.as_str());
        chars_of(e.as_str())
    } else {
        target
    };
    concat(&prefix, &encoded)
}

/// The link that the proxy writes in place of the link `el` found on a page
/// whose origin is `origin`, for pages served under `/{encoding}/`.
pub fn get_url(el: String, origin: String, encoding: String) -> (res: String)
    ensures
        res@ == rewritten_link(el@, origin@, encoding@),
{
    let el = chars_of(el.as_str());
    let origin = chars_of(origin.as_str());
    let encoding = chars_of(encoding.as_str());
    let r = rewrite_link(el, &origin, &encoding);
    string_of(&r)
}

/// Every rewritten link is the link itself (a special scheme) or a proxied
/// path under `/{encoding}/`.
pub proof fn lemma_rewritten_link_shape(el: Seq<char>, origin: Seq<char>, encoding: Seq<char>)
    ensures
        special_scheme(el) && rewritten_link(el, origin, encoding) == el
            || starts_with(rewritten_link(el, origin, encoding), proxy_prefix(encoding)),
{
    let p = proxy_prefix(encoding);
    if !special_scheme(el) {
        let a = without_dot_slash(el);
        if !starts_with(a, p) {
            let r = p + encoded_link(absolute_link(a, origin), encoding);
            assert(r.subrange(0, p.len() as int) =~= p);
        }
    }
}

/// A prefix fixes the first character.
pub proof fn lemma_prefix_first(s: Seq<char>, p: Seq<char>)
    requires
        starts_with(s, p),
        p.len() > 0,
    ensures
        s[0] == p[0],
{
    assert(s.subrange(0, p.len() as int)[0] == s[0]);
}

/// A text that starts with `/` has no special scheme and no leading `./`.
pub proof fn lemma_slash_start(s: Seq<char>)
    requires
        s.len() > 0,
        s[0] == '/',
    ensures
        !special_scheme(s),
        without_dot_slash(s) == s,
{
    reveal_strlit("data:");
    reveal_strlit("about:");
    reveal_strlit("javascript:");
    reveal_strlit("blob:");
    reveal_strlit("mailto:");
    reveal_strlit("./");
    if starts_with(s, "data:"@) { lemma_prefix_first(s, "data:"@); }
    if starts_with(s, "about:"@) { lemma_prefix_first(s, "about:"@); }
    if starts_with(s, "javascript:"@) { lemma_prefix_first(s, "javascript:"@); }
    if starts_with(s, "blob:"@) { lemma_prefix_first(s, "blob:"@); }
    if starts_with(s, "mailto:"@) { lemma_prefix_first(s, "mailto:"@); }
    if starts_with(s, "./"@) { lemma_prefix_first(s, "./"@); }
}

/// Where the server sends each kind of link on a page of `origin`: a link
/// with a scheme that is never proxied stays as it is, and so does a proxy
/// path; an `http:` or `https:` address goes through the proxy as it is; a
/// scheme-relative `//host/...` link gets `https:`; a site-relative `/path`
/// goes under the origin; and a relative link (no scheme, no leading `/` or
/// `.`) goes under the origin after a `/`, where the origin has no trailing
/// `/`.
pub proof fn lemma_link_kinds(el: Seq<char>, origin: Seq<char>, encoding: Seq<char>)
    ensures
        starts_with(el, "data:"@) || starts_with(el, "about:"@) || starts_with(el, "javascript:"@)
            || starts_with(el, "blob:"@) || starts_with(el, "mailto:"@) ==> rewritten_link(el, origin, encoding)
            == el,
        starts_with(el, proxy_prefix(encoding)) ==> rewritten_link(el, origin, encoding) == el,
        (starts_with(el, "http://"@) || starts_with(el, "https://"@)) && !starts_with(el, proxy_prefix(encoding))
            ==> rewritten_link(el, origin, encoding) == proxy_prefix(encoding) + encoded_link(el, encoding),
        starts_with(el, "//"@) && !starts_with(el, proxy_prefix(encoding)) ==> rewritten_link(el, origin, encoding)
            == proxy_prefix(encoding) + encoded_link("https:"@ + el, encoding),
        starts_with(el, "/"@) && !starts_with(el, "//"@) && !starts_with(el, proxy_prefix(encoding))
            ==> rewritten_link(el, origin, encoding) == proxy_prefix(encoding) + encoded_link(origin + el, encoding),
        el.len() > 0 && el[0] != '/' && el[0] != '.' && !starts_with(el, "http:"@) && !starts_with(el, "https:"@)
            && !(starts_with(el, "data:"@) || starts_with(el, "about:"@) || starts_with(el, "javascript:"@)
            || starts_with(el, "blob:"@) || starts_with(el, "mailto:"@)) && !ends_with(origin, "/"@)
            ==> rewritten_link(el, origin, encoding) == proxy_prefix(encoding) + encoded_link(
            origin + "/"@ + el,
            encoding,
        ),
{
    reveal_strlit("/");
    reveal_strlit("//");
    reveal_strlit("./");
    reveal_strlit("http://");
    reveal_strlit("https://");
    reveal_strlit("http:");
    reveal_strlit("https:");
    reveal_strlit("data:");
    reveal_strlit("about:");
    reveal_strlit("javascript:");
    reveal_strlit("blob:");
    reveal_strlit("mailto:");
    let p = proxy_prefix(encoding);
    assert(p[0] == '/');
    if starts_with(el, p) {
        lemma_prefix_first(el, p);
        lemma_slash_start(el);
    }
    if starts_with(el, "//"@) {
        lemma_prefix_first(el, "//"@);
        assert(el.subrange(0, 1) =~= "/"@);
    }
    if starts_with(el, "/"@) {
        lemma_prefix_first(el, "/"@);
        lemma_slash_start(el);
        if starts_with(el, "http://"@) { lemma_prefix_first(el, "http://"@); }
        if starts_with(el, "https://"@) { lemma_prefix_first(el, "https://"@); }
        if starts_with(el, "http:"@) { lemma_prefix_first(el, "http:"@); }
        if starts_with(el, "https:"@) { lemma_prefix_first(el, "https:"@); }
        if starts_with(el, "//"@) {
            let a1 = "https:"@ + el;
            assert(a1.subrange(0, 8) =~= "https://"@) by {
                assert(el.subrange(0, 2) =~= "//"@);
                assert forall|k: int| 0 <= k < 8 implies a1.subrange(0, 8)[k] == "https://"@[k] by {
                    if k >= 6 {
                        assert(a1[k] == el[k - 6]);
                        assert(el.subrange(0, 2)[k - 6] == el[k - 6]);
                    }
                }
            }
            assert(starts_with(a1, "https://"@));
            assert(starts_with(a1, "https:"@)) by {
                assert(a1.subrange(0, 6) =~= "https:"@);
            }
        }
    }
    if (starts_with(el, "http://"@) || starts_with(el, "https://"@)) {
        if starts_with(el, "http://"@) { lemma_prefix_first(el, "http://"@); }
        if starts_with(el, "https://"@) { lemma_prefix_first(el, "https://"@); }
        assert(el[0] == 'h');
        if starts_with(el, "data:"@) { lemma_prefix_first(el, "data:"@); }
        if starts_with(el, "about:"@) { lemma_prefix_first(el, "about:"@); }
        if starts_with(el, "javascript:"@) { lemma_prefix_first(el, "javascript:"@); }
        if starts_with(el, "blob:"@) { lemma_prefix_first(el, "blob:"@); }
        if starts_with(el, "mailto:"@) { lemma_prefix_first(el, "mailto:"@); }
        if starts_with(el, "./"@) { lemma_prefix_first(el, "./"@); }
        if starts_with(el, "//"@) { lemma_prefix_first(el, "//"@); }
        if starts_with(el, "https://"@) {
            assert(el.subrange(0, 6) =~= el.subrange(0, 8).subrange(0, 6));
            assert("https://"@.subrange(0, 6) =~= "https:"@);
            assert(starts_with(el, "https:"@));
        }
        if starts_with(el, "http://"@) {
            assert(el.subrange(0, 5) =~= el.subrange(0, 7).subrange(0, 5));
            assert("http://"@.subrange(0, 5) =~= "http:"@);
            assert(starts_with(el, "http:"@));
        }
    }
    if el.len() > 0 && el[0] != '/' && el[0] != '.' {
        if starts_with(el, "./"@) { lemma_prefix_first(el, "./"@); }
        if starts_with(el, "//"@) { lemma_prefix_first(el, "//"@); }
        if starts_with(el, "/"@) { lemma_prefix_first(el, "/"@); }
        if starts_with(el, p) { lemma_prefix_first(el, p); }
        if starts_with(el, "http://"@) {
            assert(el.subrange(0, 5) =~= el.subrange(0, 7).subrange(0, 5));
        }
        if starts_with(el, "https://"@) {
            assert(el.subrange(0, 6) =~= el.subrange(0, 8).subrange(0, 6));
        }
        if starts_with(el, "http://"@) {
            assert("http://"@.subrange(0, 5) =~= "http:"@);
        }
        if starts_with(el, "https://"@) {
            assert("https://"@.subrange(0, 6) =~= "https:"@);
        }
        assert(without_dot_slash(el) == el);
        assert(origin + ("/"@ + el) =~= origin + "/"@ + el);
    }
}

/// Rewriting a link twice gives the same as rewriting it once: a rewritten
/// link is left alone by the server.
pub proof fn lemma_get_url_idempotent(el: Seq<char>, origin: Seq<char>, encoding: Seq<char>)
    ensures
        rewritten_link(rewritten_link(el, origin, encoding), origin, encoding) == rewritten_link(
            el,
            origin,
            encoding,
        ),
{
    let r = rewritten_link(el, origin, encoding);
    let p = proxy_prefix(encoding);
    lemma_rewritten_link_shape(el, origin, encoding);
    if !(special_scheme(el) && r == el) {
        reveal_strlit("/");
        assert(p[0] == '/');
        lemma_prefix_first(r, p);
        lemma_slash_start(r);
    }
}

/// The position of the first `)` at or after `j`, provided no line break
/// comes before it.
pub open spec fn close_paren_from(s: Seq<char>, j: nat) -> Option<nat>
    decreases s.len() - j,
{
    if j >= s.len() {
        None
    } else if s[j as int] == ')' {
        Some(j)
    } else if s[j as int] == '\n' {
        None
    } else {
        close_paren_from(s, j + 1)
    }
}

/// A close parenthesis found from `j` lies at or after `j`, inside `s`.
pub proof fn lemma_close_paren_range(s: Seq<char>, j: nat)
    ensures
        close_paren_from(s, j) matches Some(k) ==> j <= k < s.len() && s[k as int] == ')'
            && forall|m: int| j <= m < k ==> s[m] != '\n' && s[m] != ')',
    decreases s.len() - j,
{
    if j < s.len() && s[j as int] != ')' && s[j as int] != '\n' {
        lemma_close_paren_range(s, j + 1);
    }
}

/// The end of a CSS `url(...)` reference starting at `i`: the first `)` after
/// `url(` on the same line. This is the leftmost, shortest match of the
/// pattern `url\((.*?)\)`.
pub open spec fn css_url_close(s: Seq<char>, i: nat) -> Option<nat> {
    if crate::text::occurs_at(s, "url("@, i as int) {
        close_paren_from(s, i + 4)
    } else {
        None
    }
}

/// CSS from position `i` on, with the address inside every `url(...)`
/// replaced by the proxied link.
pub open spec fn rewritten_css_from(s: Seq<char>, i: nat, origin: Seq<char>, encoding: Seq<char>) -> Seq<char>
    decreases s.len() - i,
{
    if i >= s.len() {
        Seq::empty()
    } else {
        match css_url_close(s, i) {
            Some(k) => {
                proof {
                    lemma_close_paren_range(s, i + 4);
                }
                "url("@ + rewritten_link(s.subrange((i + 4) as int, k as int), origin, encoding) + ")"@
                    + rewritten_css_from(s, k + 1, origin, encoding)
            },
            None => seq![s[i as int]] + rewritten_css_from(s, i + 1, origin, encoding),
        }
    }
}

/// A style sheet with every `url(...)` reference sent through the proxy.
pub open spec fn rewritten_css(text: Seq<char>, origin: Seq<char>, encoding: Seq<char>) -> Seq<char> {
    rewritten_css_from(text, 0, origin, encoding)
}

fn find_close_paren(s: &[char], j: usize) -> (r: Option<usize>)
    ensures
        r matches Some(k) ==> close_paren_from(s@, j as nat) == Some(k as nat),
        r is None ==> close_paren_from(s@, j as nat) is None,
{
    let mut m: usize = j;
    while m < s.len()
        invariant
            j <= m,
            close_paren_from(s@, j as nat) == close_paren_from(s@, m as nat),
        decreases s@.len() - m,
    {
        if s[m] == ')' {
            return Some(m);
        }
        if s[m] == '\n' {
            return None;
        }
        m = m + 1;
    }
    None
}

/// Sends every `url(...)` reference of a style sheet through the proxy.
pub fn rewrite_css_chars(s: &[char], origin: &[char], encoding: &[char]) -> (r: Vec<char>)
    ensures
        r@ == rewritten_css(s@, origin@, encoding@),
{
    let opener = chars_of("url(");
    let closer = chars_of(")");
    proof {
        reveal_strlit("url(");
    }
    let mut out: Vec<char> = Vec::new();
    let mut i: usize = 0;
    while i < s.len()
        invariant
            i <= s@.len(),
            opener@ == "url("@,
            opener@.len() == 4,
            closer@ == ")"@,
            out@ + rewritten_css_from(s@, i as nat, origin@, encoding@) == rewritten_css(
                s@,
                origin@,
                encoding@,
            ),
        decreases s@.len() - i,
    {
        let ghost before = out@;
        let found = if crate::text::occurs_at_exec(s, &opener, i) {
            find_close_paren(s, i + 4)
        } else {
            None
        };
        match found {
            Some(k) => {
                proof {
                    lemma_close_paren_range(s@, (i + 4) as nat);
                }
                let inner = slice_to_vec(vstd::slice::slice_subrange(s, i + 4, k));
                let link = rewrite_link(inner, origin, encoding);
                let piece = concat(&opener, &link);
                let piece = concat(&piece, &closer);
                assert(rewritten_css_from(s@, i as nat, origin@, encoding@) == piece@
                    + rewritten_css_from(s@, (k + 1) as nat, origin@, encoding@));
                crate::text::append(&mut out, &piece);
                assert(before + rewritten_css_from(s@, i as nat, origin@, encoding@) =~= out@
                    + rewritten_css_from(s@, (k + 1) as nat, origin@, encoding@));
                i = k + 1;
            },
            None => {
                assert(rewritten_css_from(s@, i as nat, origin@, encoding@) == seq![s@[i as int]]
                    + rewritten_css_from(s@, (i + 1) as nat, origin@, encoding@));
                out.push(s[i]);
                assert(before + rewritten_css_from(s@, i as nat, origin@, encoding@) =~= out@
                    + rewritten_css_from(s@, (i + 1) as nat, origin@, encoding@));
                i = i + 1;
            },
        }
    }
    out
}

/// Rewrites a style sheet so that every `url(...)` reference goes through
/// the proxy.
pub fn rewritecss(text: String, encoding: String, origin: String) -> (res: String)
    ensures
        res@ == rewritten_css(text@, origin@, encoding@),
{
    let t = chars_of(text.as_str());
    let o = chars_of(origin.as_str());
    let e = chars_of(encoding.as_str());
    let r = rewrite_css_chars(&t, &o, &e);
    string_of(&r)
}

/// A character that may come right before `window.location` or
/// `document.location` for the reference to be rewritten.
pub open spec fn js_lead(c: char) -> bool {
    c == ',' || c == ' ' || c == '=' || c == '('
}

/// A character that may come right after the reference.
pub open spec fn js_trail(c: char) -> bool {
    c == ',' || c == ' ' || c == '=' || c == ')' || c == '.'
}

/// `name`, then any character but a line break, then `location`, at `j`.
pub open spec fn location_ref_at(s: Seq<char>, j: int, name: Seq<char>) -> bool {
    &&& crate::text::occurs_at(s, name, j)
    &&& j + name.len() < s.len()
    &&& s[j + name.len()] != '\n'
    &&& crate::text::occurs_at(s, "location"@, j + name.len() + 1)
}

/// The length of a script location reference starting at `i`, as the pattern
/// `(,| |=|\()(window.location|document.location)(,| |=|\)|\.)` matches it.
pub open spec fn js_ref_len(s: Seq<char>, i: int) -> Option<nat> {
    if 0 <= i < s.len() && js_lead(s[i]) {
        if location_ref_at(s, i + 1, "window"@) && i + 16 < s.len() && js_trail(s[i + 16]) {
            Some(17)
        } else if location_ref_at(s, i + 1, "document"@) && i + 18 < s.len() && js_trail(s[i + 18]) {
            Some(19)
        } else {
            None
        }
    } else {
        None
    }
}

/// A script from position `i` on, with every location reference made to read
/// the proxied location `$Ocasta.location`.
pub open spec fn rewritten_js_from(s: Seq<char>, i: nat) -> Seq<char>
    decreases s.len() - i,
{
    if i >= s.len() {
        Seq::empty()
    } else {
        match js_ref_len(s, i as int) {
            Some(n) => crate::text::replace_all(
                s.subrange(i as int, (i + n) as int),
                ".location"@,
                ".$Ocasta.location"@,
            ) + rewritten_js_from(s, i + n),
            None => seq![s[i as int]] + rewritten_js_from(s, i + 1),
        }
    }
}

/// The address of the Google Tag Manager script, which reads `t.location`.
pub open spec fn tag_manager_url() -> Seq<char> {
    "https://www.googletagmanager.com/gtm.js"@
}

/// A script loaded from `url` as the proxy serves it.
pub open spec fn rewritten_js(url: Seq<char>, text: Seq<char>) -> Seq<char> {
    let t = if starts_with(url, tag_manager_url()) {
        crate::text::replace_all(text, "t.location"@, "t.$Ocasta.location"@)
    } else {
        text
    };
    rewritten_js_from(t, 0)
}

/// Replacing leaves a character that cannot start the pattern in front.
proof fn lemma_replace_step(p: Seq<char>, rest: Seq<char>, from: Seq<char>, to: Seq<char>)
    requires
        from.len() > 0,
        forall|k: int| 0 <= k < p.len() ==> p[k] != from[0],
    ensures
        crate::text::replace_all(p + rest, from, to) == p + crate::text::replace_all(rest, from, to),
    decreases p.len(),
{
    if p.len() > 0 {
        let s = p + rest;
        assert(p.skip(1) + rest =~= s.skip(1));
        lemma_replace_step(p.skip(1), rest, from, to);
        if s.len() >= from.len() {
            assert(s.subrange(0, from.len() as int)[0] == s[0]);
        } else {
            crate::text::lemma_replace_short(rest, from, to);
        }
        assert(s =~= seq![p[0]] + (p.skip(1) + rest));
        assert(p =~= seq![p[0]] + p.skip(1));
    }
}

/// An occurrence of the pattern at the start is replaced.
proof fn lemma_replace_match(rest: Seq<char>, from: Seq<char>, to: Seq<char>)
    requires
        from.len() > 0,
    ensures
        crate::text::replace_all(from + rest, from, to) == to + crate::text::replace_all(rest, from, to),
{
    assert((from + rest).subrange(0, from.len() as int) =~= from);
    assert((from + rest).skip(from.len() as int) =~= rest);
}

/// A location reference is rewritten where the scan meets it: at a position
/// holding `,`, a space, `=` or `(`, followed by `window.location` or
/// `document.location` and then by `,`, a space, `=`, `)` or `.`, the script
/// reads `$Ocasta.location` in its place, the characters around it kept, and
/// the scan goes on after the trailing character.
pub proof fn lemma_location_ref_rewritten(s: Seq<char>, i: nat, name: Seq<char>)
    requires
        name == "window"@ || name == "document"@,
        s[i as int] == ',' || s[i as int] == ' ' || s[i as int] == '=' || s[i as int] == '(',
        crate::text::occurs_at(s, name + ".location"@, i + 1 as int),
        i + name.len() + 10 < s.len(),
        ({
            let e = s[(i + name.len() + 10) as int];
            e == ',' || e == ' ' || e == '=' || e == ')' || e == '.'
        }),
    ensures
        rewritten_js_from(s, i) == seq![s[i as int]] + name + ".$Ocasta.location"@ + seq![s[(i + name.len() + 10) as int]]
            + rewritten_js_from(s, i + name.len() + 11),
{
    reveal_strlit("window");
    reveal_strlit("document");
    reveal_strlit(".location");
    reveal_strlit("location");
    reveal_strlit(".$Ocasta.location");
    let ii = i as int;
    let n = name.len() as int;
    let w = s.subrange(ii + 1, ii + 1 + n + 9);
    assert(w =~= name + ".location"@);
    assert(s.subrange(ii + 1, ii + 1 + n) =~= w.subrange(0, n));
    assert(w.subrange(0, n) =~= name);
    assert(s[ii + 1 + n] == w[n]);
    assert(w[n] == '.');
    assert(s.subrange(ii + 2 + n, ii + 10 + n) =~= w.subrange(n + 1, n + 9));
    assert(w.subrange(n + 1, n + 9) =~= "location"@);
    assert(location_ref_at(s, ii + 1, name));
    if name == "document"@ {
        assert(s[ii + 1] == w[0]);
        if crate::text::occurs_at(s, "window"@, ii + 1) {
            assert(s.subrange(ii + 1, ii + 7)[0] == s[ii + 1]);
        }
        assert(!location_ref_at(s, ii + 1, "window"@));
    }
    assert(js_ref_len(s, ii) == Some((n + 11) as nat));
    let c = s[ii];
    let e = s[ii + n + 10];
    let x = s.subrange(ii, ii + n + 11);
    assert(x.subrange(1, n + 10) =~= w);
    assert(x =~= seq![c] + x.subrange(1, n + 10) + seq![e]);
    assert(x =~= (seq![c] + name) + (".location"@ + seq![e]));
    assert forall|k: int| 0 <= k < (seq![c] + name).len() implies #[trigger] (seq![c] + name)[k] != ".location"@[0] by {
        if k > 0 {
            assert((seq![c] + name)[k] == name[k - 1]);
        }
    }
    lemma_replace_step(seq![c] + name, ".location"@ + seq![e], ".location"@, ".$Ocasta.location"@);
    lemma_replace_match(seq![e], ".location"@, ".$Ocasta.location"@);
    crate::text::lemma_replace_short(seq![e], ".location"@, ".$Ocasta.location"@);
}

/// Characters that cannot come right before a location reference are passed
/// on as they are.
proof fn lemma_js_plain_prefix(s: Seq<char>, j: nat, i: nat)
    requires
        j <= i <= s.len(),
        forall|k: int| j <= k < i ==> !(s[k] == ',' || s[k] == ' ' || s[k] == '=' || s[k] == '('),
    ensures
        rewritten_js_from(s, j) == s.subrange(j as int, i as int) + rewritten_js_from(s, i),
    decreases i - j,
{
    if j < i {
        lemma_js_plain_prefix(s, j + 1, i);
        assert(s.subrange(j as int, i as int) =~= seq![s[j as int]] + s.subrange((j + 1) as int, i as int));
    } else {
        assert(s.subrange(j as int, i as int) =~= Seq::<char>::empty());
    }
}

/// In a script loaded from any address but the tag manager's, the first
/// location reference is rewritten to the proxied location: where no `,`,
/// space, `=` or `(` comes before position `i`, and `i` holds one of them
/// followed by `window.location` or `document.location` and then by `,`, a
/// space, `=`, `)` or `.`, the rewritten script is the text before `i`, that
/// character, `window.$Ocasta.location` or `document.$Ocasta.location`, the
/// trailing character, and the rest rewritten.
pub proof fn lemma_script_location_rewritten(url: Seq<char>, s: Seq<char>, i: nat, name: Seq<char>)
    requires
        !starts_with(url, tag_manager_url()),
        name == "window"@ || name == "document"@,
        forall|k: int| 0 <= k < i ==> !(s[k] == ',' || s[k] == ' ' || s[k] == '=' || s[k] == '('),
        s[i as int] == ',' || s[i as int] == ' ' || s[i as int] == '=' || s[i as int] == '(',
        crate::text::occurs_at(s, name + ".location"@, i + 1 as int),
        i + name.len() + 10 < s.len(),
        ({
            let e = s[(i + name.len() + 10) as int];
            e == ',' || e == ' ' || e == '=' || e == ')' || e == '.'
        }),
    ensures
        rewritten_js(url, s) == s.subrange(0, i as int) + seq![s[i as int]] + name + ".$Ocasta.location"@
            + seq![s[(i + name.len() + 10) as int]] + rewritten_js_from(s, i + name.len() + 11),
{
    lemma_js_plain_prefix(s, 0, i);
    lemma_location_ref_rewritten(s, i, name);
}

fn location_ref_at_exec(s: &[char], j: usize, name: &[char], location: &[char]) -> (r: bool)
    requires
        location@ == "location"@,
    ensures
        r == location_ref_at(s@, j as int, name@),
{
    let len = s.len();
    if !crate::text::occurs_at_exec(s, name, j) {
        return false;
    }
    let after = j + name.len();
    if after >= s.len() {
        return false;
    }
    if s[after] == '\n' {
        return false;
    }
    crate::text::occurs_at_exec(s, location, after + 1)
}

fn js_ref_len_exec(s: &[char], i: usize, window: &[char], document: &[char], location: &[char]) -> (r: Option<usize>)
    requires
        i < s@.len(),
        window@ == "window"@,
        document@ == "document"@,
        location@ == "location"@,
    ensures
        r matches Some(n) ==> js_ref_len(s@, i as int) == Some(n as nat),
        r is None ==> js_ref_len(s@, i as int) is None,
{
    let c = s[i];
    if !(c == ',' || c == ' ' || c == '=' || c == '(') {
        return None;
    }
    proof {
        reveal_strlit("window");
        reveal_strlit("document");
    }
    if i + 1 < s.len() && location_ref_at_exec(s, i + 1, window, location) && s.len() - i > 16 {
        let t = s[i + 16];
        if t == ',' || t == ' ' || t == '=' || t == ')' || t == '.' {
            return Some(17);
        }
    }
    if i + 1 < s.len() && location_ref_at_exec(s, i + 1, document, location) && s.len() - i > 18 {
        let t = s[i + 18];
        if t == ',' || t == ' ' || t == '=' || t == ')' || t == '.' {
            return Some(19);
        }
    }
    None
}

/// Makes every location reference of a script read `$Ocasta.location`.
pub fn rewrite_js_refs(s: &[char]) -> (r: Vec<char>)
    ensures
        r@ == rewritten_js_from(s@, 0),
{
    let window = chars_of("window");
    let document = chars_of("document");
    let location = chars_of("location");
    let from = chars_of(".location");
    let to = chars_of(".$Ocasta.location");
    proof {
        reveal_strlit(".location");
    }
    let mut out: Vec<char> = Vec::new();
    let mut i: usize = 0;
    while i < s.len()
        invariant
            i <= s@.len(),
            window@ == "window"@,
            document@ == "document"@,
            location@ == "location"@,
            from@ == ".location"@,
            from@.len() > 0,
            to@ == ".$Ocasta.location"@,
            out@ + rewritten_js_from(s@, i as nat) == rewritten_js_from(s@, 0),
        decreases s@.len() - i,
    {
        let ghost before = out@;
        match js_ref_len_exec(s, i, &window, &document, &location) {
            Some(n) => {
                proof {
                    reveal_strlit("window");
                    reveal_strlit("document");
                    reveal_strlit("location");
                }
                assert(i + n <= s@.len());
                let m = vstd::slice::slice_subrange(s, i, i + n);
                let piece = crate::text::replace(m, &from, &to);
                assert(rewritten_js_from(s@, i as nat) == piece@ + rewritten_js_from(
                    s@,
                    (i + n) as nat,
                ));
                crate::text::append(&mut out, &piece);
                assert(before + rewritten_js_from(s@, i as nat) =~= out@ + rewritten_js_from(
                    s@,
                    (i + n) as nat,
                ));
                i = i + n;
            },
            None => {
                assert(rewritten_js_from(s@, i as nat) == seq![s@[i as int]] + rewritten_js_from(
                    s@,
                    (i + 1) as nat,
                ));
                out.push(s[i]);
                assert(before + rewritten_js_from(s@, i as nat) =~= out@ + rewritten_js_from(
                    s@,
                    (i + 1) as nat,
                ));
                i = i + 1;
            },
        }
    }
    out
}

/// Rewrites a script loaded from `url` so that it reads the proxied location.
pub fn rewritejs(url: &str, text: String) -> (res: String)
    ensures
        res@ == rewritten_js(url@, text@),
{
    let u = chars_of(url);
    let t = chars_of(text.as_str());
    let t = if has_prefix(&u, &chars_of("https://www.googletagmanager.com/gtm.js")) {
        proof {
            reveal_strlit("t.location");
        }
        crate::text::replace(&t, &chars_of("t.location"), &chars_of("t.$Ocasta.location"))
    } else {
        t
    };
    let r = rewrite_js_refs(&t);
    string_of(&r)
}

/// The rewritten form of the candidates of a `srcset` attribute: each piece
/// trimmed, sent through the proxy, and followed by `, `.
pub open spec fn rewritten_candidates(pieces: Seq<Seq<char>>, origin: Seq<char>, encoding: Seq<char>) -> Seq<char>
    decreases pieces.len(),
{
    if pieces.len() == 0 {
        Seq::empty()
    } else {
        rewritten_candidates(pieces.drop_last(), origin, encoding) + rewritten_link(
            crate::text::trimmed(pieces.last()),
            origin,
            encoding,
        ) + ", "@
    }
}

/// A `srcset` attribute with each comma-separated candidate sent through the
/// proxy.
pub open spec fn rewritten_srcset(attribute: Seq<char>, origin: Seq<char>, encoding: Seq<char>) -> Seq<char> {
    rewritten_candidates(crate::text::split_on(attribute, ','), origin, encoding)
}

/// Rewrites a `srcset` attribute: every comma-separated candidate is trimmed
/// and sent through the proxy, and each is followed by `, `.
pub fn rewrite_srcset(attribute: String, origin: String, encoding: String) -> (res: String)
    ensures
        res@ == rewritten_srcset(attribute@, origin@, encoding@),
{
    let a = chars_of(attribute.as_str());
    let o = chars_of(origin.as_str());
    let e = chars_of(encoding.as_str());
    let sep = chars_of(", ");
    let pieces = crate::text::split(&a, ',');
    let ghost all = crate::text::split_on(a@, ',');
    let mut out: Vec<char> = Vec::new();
    let mut k: usize = 0;
    while k < pieces.len()
        invariant
            k <= pieces@.len(),
            pieces@.len() == all.len(),
            forall|j: int| 0 <= j < pieces@.len() ==> #[trigger] pieces@[j]@ == all[j],
            sep@ == ", "@,
            out@ == rewritten_candidates(all.take(k as int), o@, e@),
        decreases pieces@.len() - k,
    {
        let t = crate::text::trim(&pieces[k]);
        let link = rewrite_link(t, &o, &e);
        let piece = concat(&link, &sep);
        assert(all.take(k + 1).drop_last() =~= all.take(k as int));
        assert(all.take(k + 1).last() == all[k as int]);
        crate::text::append(&mut out, &piece);
        k = k + 1;
    }
    assert(all.take(k as int) =~= all);
    string_of(&out)
}

/// Whether an `http-equiv` meta element is a content security policy, which
/// the proxy removes from pages.
pub fn is_security_policy(http_equiv: &str) -> (r: bool)
    ensures
        r == crate::text::contains(http_equiv@, "content-security-policy"@),
{
    crate::text::contains_exec(&chars_of(http_equiv), &chars_of("content-security-policy"))
}

/// The script element that the proxy puts first in every `head`.
pub fn head_script(client_js: &str) -> (res: String)
    ensures
        res@ == "<script>"@ + client_js@ + "</script>"@,
{
    let a = concat(&chars_of("<script>"), &chars_of(client_js));
    string_of(&concat(&a, &chars_of("</script>")))
}

/// The kinds of body that the proxy rewrites, by `Content-Type`.
pub open spec fn is_html(content_type: Seq<char>) -> bool {
    starts_with(content_type, "text/html"@)
}

pub open spec fn is_css(content_type: Seq<char>) -> bool {
    starts_with(content_type, "text/css"@)
}

pub open spec fn is_script(content_type: Seq<char>) -> bool {
    starts_with(content_type, "text/javascript"@) || starts_with(content_type, "application/javascript"@)
}

/// The HTML rewriter's output for a page loaded from `url`: every element
/// edited by `html::edit_element` (the client script first into `head`, its
/// links, `srcset`, inline style and `onclick` rewritten, blocking attributes
/// and policies removed), and the text of `style` and `script` elements
/// rewritten as CSS and as script. `None` where lol_html reports an error.
pub open spec fn html_rewritten(
    page: Seq<char>,
    url: Seq<char>,
    encoding: Seq<char>,
    origin: Seq<char>,
    client_js: Seq<char>,
) -> Option<Seq<char>> {
    rewritten_html(page, url, encoding, origin, client_js, "*"@, "style"@, "script"@)
}

/// Rewrites an HTML page loaded from `url` as `html_rewritten` says.
pub fn html(page: &str, url: &str, encoding: &str, origin: &str, client_js: &str) -> (res: Option<String>)
    ensures
        res matches Some(r) ==> html_rewritten(page@, url@, encoding@, origin@, client_js@) == Some(r@),
        res is None ==> html_rewritten(page@, url@, encoding@, origin@, client_js@) is None,
{
    rewrite_html(page, url, encoding, origin, client_js, "*", "style", "script")
}

/// Each body is rewritten by its content type: one that starts with
/// `text/html` as HTML, `text/css` as CSS, `text/javascript` or
/// `application/javascript` as a script, and any other is passed on.
pub proof fn lemma_content_types(ct: Seq<char>)
    ensures
        starts_with(ct, "text/javascript"@) ==> !is_html(ct) && !is_css(ct) && is_script(ct),
        starts_with(ct, "application/javascript"@) ==> !is_html(ct) && !is_css(ct) && is_script(ct),
        starts_with(ct, "text/css"@) ==> !is_html(ct) && is_css(ct),
        starts_with(ct, "text/html"@) ==> is_html(ct),
        !starts_with(ct, "text/html"@) && !starts_with(ct, "text/css"@) && !starts_with(ct, "text/javascript"@)
            && !starts_with(ct, "application/javascript"@) ==> !is_html(ct) && !is_css(ct) && !is_script(ct),
{
    reveal_strlit("text/javascript");
    reveal_strlit("application/javascript");
    reveal_strlit("text/html");
    reveal_strlit("text/css");
    if starts_with(ct, "text/javascript"@) {
        assert(ct.subrange(0, 15)[5] == ct[5]);
        assert(ct[5] == 'j');
        if is_html(ct) {
            assert(ct.subrange(0, 9)[5] == ct[5]);
        }
        if is_css(ct) {
            assert(ct.subrange(0, 8)[5] == ct[5]);
        }
    }
    if starts_with(ct, "application/javascript"@) {
        assert(ct.subrange(0, 22)[0] == ct[0]);
        if is_html(ct) {
            assert(ct.subrange(0, 9)[0] == ct[0]);
        }
        if is_css(ct) {
            assert(ct.subrange(0, 8)[0] == ct[0]);
        }
    }
    if starts_with(ct, "text/css"@) {
        assert(ct.subrange(0, 8)[5] == ct[5]);
        if is_html(ct) {
            assert(ct.subrange(0, 9)[5] == ct[5]);
        }
    }
}

/// Rewrites a response body loaded from `url` by its content type: HTML by
/// `html`, CSS and scripts by their rewriters; anything else is passed on
/// unchanged. `None` only where the HTML rewriter fails.
pub fn page(
    body: String,
    url: &str,
    encoding: String,
    content_type: String,
    origin: String,
    client_js: &str,
) -> (res: Option<String>)
    ensures
        is_html(content_type@) ==> (match html_rewritten(body@, url@, encoding@, origin@, client_js@) {
            Some(h) => res matches Some(b) && b@ == h,
            None => res is None,
        }),
        !is_html(content_type@) && is_css(content_type@) ==> (res matches Some(b)
            && b@ == rewritten_css(body@, origin@, encoding@)),
        !is_html(content_type@) && !is_css(content_type@) && is_script(content_type@)
            ==> (res matches Some(b) && b@ == rewritten_js(url@, body@)),
        !is_html(content_type@) && !is_css(content_type@) && !is_script(content_type@)
            ==> res == Some(body),
        starts_with(content_type@, "text/javascript"@) || starts_with(content_type@, "application/javascript"@)
            ==> (res matches Some(b) && b@ == rewritten_js(url@, body@)),
        starts_with(content_type@, "text/css"@) ==> (res matches Some(b) && b@ == rewritten_css(
            body@,
            origin@,
            encoding@,
        )),
        starts_with(content_type@, "text/html"@) ==> (match html_rewritten(body@, url@, encoding@, origin@, client_js@) {
            Some(h) => res matches Some(b) && b@ == h,
            None => res is None,
        }),
        !starts_with(content_type@, "text/html"@) && !starts_with(content_type@, "text/css"@) && !starts_with(
            content_type@,
            "text/javascript"@,
        ) && !starts_with(content_type@, "application/javascript"@) ==> res == Some(body),
{
    proof {
        lemma_content_types(content_type@);
    }
    let ct = chars_of(content_type.as_str());
    if has_prefix(&ct, &chars_of("text/html")) {
        html(body.as_str(), url, encoding.as_str(), origin.as_str(), client_js)
    } else if has_prefix(&ct, &chars_of("text/css")) {
        Some(rewritecss(body, encoding, origin))
    } else if has_prefix(&ct, &chars_of("text/javascript")) || has_prefix(
        &ct,
        &chars_of("application/javascript"),
    ) {
        Some(rewritejs(url, body))
    } else {
        Some(body)
    }
}

/// A style sheet without `url(` has nothing to rewrite from `i` on.
proof fn lemma_css_unchanged_from(s: Seq<char>, i: nat, origin: Seq<char>, encoding: Seq<char>)
    requires
        !crate::text::contains(s, "url("@),
        i <= s.len(),
    ensures
        rewritten_css_from(s, i, origin, encoding) == s.skip(i as int),
    decreases s.len() - i,
{
    if i < s.len() {
        assert(!crate::text::occurs_at(s, "url("@, i as int));
        lemma_css_unchanged_from(s, i + 1, origin, encoding);
        assert(s.skip(i as int) =~= seq![s[i as int]] + s.skip((i + 1) as int));
    } else {
        assert(s.skip(i as int) =~= Seq::<char>::empty());
    }
}

/// A style sheet without any `url(` passes through unchanged.
pub proof fn lemma_css_without_urls_unchanged(s: Seq<char>, origin: Seq<char>, encoding: Seq<char>)
    requires
        !crate::text::contains(s, "url("@),
    ensures
        rewritten_css(s, origin, encoding) == s,
{
    lemma_css_unchanged_from(s, 0, origin, encoding);
    assert(s.skip(0) =~= s);
}

/// A script in which no location reference occurs has nothing to rewrite from
/// `i` on.
proof fn lemma_js_unchanged_from(s: Seq<char>, i: nat)
    requires
        forall|j: int| 0 <= j < s.len() ==> #[trigger] js_ref_len(s, j) is None,
        i <= s.len(),
    ensures
        rewritten_js_from(s, i) == s.skip(i as int),
    decreases s.len() - i,
{
    if i < s.len() {
        assert(js_ref_len(s, i as int) is None);
        lemma_js_unchanged_from(s, i + 1);
        assert(s.skip(i as int) =~= seq![s[i as int]] + s.skip((i + 1) as int));
    } else {
        assert(s.skip(i as int) =~= Seq::<char>::empty());
    }
}

/// A script that is not the tag manager's and holds no `window.location` or
/// `document.location` reference passes through unchanged.
pub proof fn lemma_js_without_refs_unchanged(url: Seq<char>, s: Seq<char>)
    requires
        !starts_with(url, tag_manager_url()),
        forall|j: int| 0 <= j < s.len() ==> #[trigger] js_ref_len(s, j) is None,
    ensures
        rewritten_js(url, s) == s,
{
    lemma_js_unchanged_from(s, 0);
    assert(s.skip(0) =~= s);
}

} // verus!
