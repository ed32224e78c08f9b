//! The URL rules of the browser client: addresses that a proxied page asks
//! for are wrapped into proxy paths, and proxy paths are unwrapped back.
//!
//! The `b64` encoding uses the browser's `btoa` and `atob`. Those calls are
//! made by the caller, in the browser; the functions here take what they gave
//! (`None` where the call threw) and are exact for every such value.

use vstd::prelude::*;
use crate::text::{chars_of, concat, ends_with, equals, has_prefix, has_suffix, replace_first, starts_with, string_of};
use crate::rewrite::{lemma_prefix_first, proxy_prefix, proxy_prefix_exec, special_scheme, without_dot_slash};

verus! {

/// A text as a sequence of characters, where there is one.
pub open spec fn opt_view(o: Option<String>) -> Option<Seq<char>> {
    match o {
        Some(s) => Some(s@),
        None => None,
    }
}

/// The encoding whose texts go through the browser's `btoa` and `atob`.
pub open spec fn browser_encoding(encoding: Seq<char>) -> bool {
    encoding == "b64"@
}

/// Whether texts of this encoding go through the browser's `btoa` and
/// `atob`.
pub fn needs_browser(encoding: &str) -> (r: bool)
    ensures
        r == browser_encoding(encoding@),
{
    equals(&chars_of(encoding), &chars_of("b64"))
}

/// A text in the given encoding: for `b64` what the browser gave
/// (`unwrap_or_default` of it), for any other encoding the text itself.
pub open spec fn coded(text: Seq<char>, encoding: Seq<char>, browser: Option<Seq<char>>) -> Seq<char> {
    if browser_encoding(encoding) {
        match browser {
            Some(r) => r,
            None => Seq::empty(),
        }
    } else {
        text
    }
}

/// Encodes a text for a proxy path. For `b64`, `btoa` is what the browser's
/// `btoa` gave for `text` (`None` where it threw).
pub fn encode(text: String, encoding: String, btoa: Option<String>) -> (res: String)
    ensures
        res@ == coded(text@, encoding@, opt_view(btoa)),
{
    if needs_browser(encoding.as_str()) {
        match btoa {
            Some(r) => r,
            None => String::new(),
        }
    } else {
        text
    }
}

/// Decodes a text of a proxy path. For `b64`, `atob` is what the browser's
/// `atob` gave for `text` (`None` where it threw).
pub fn decode(text: String, encoding: String, atob: Option<String>) -> (res: String)
    ensures
        res@ == coded(text@, encoding@, opt_view(atob)),
{
    if needs_browser(encoding.as_str()) {
        match atob {
            Some(r) => r,
            None => String::new(),
        }
    } else {
        text
    }
}

/// For any encoding but `b64`, decoding an encoded text gives it back; for
/// `b64`, decoding hands the browser exactly what `btoa` gave, and gives back
/// the text wherever `atob` undid that.
pub proof fn lemma_decode_encode(text: Seq<char>, encoding: Seq<char>, btoa: Option<Seq<char>>, atob: Option<Seq<char>>)
    requires
        browser_encoding(encoding) ==> atob == Some(text),
    ensures
        coded(coded(text, encoding, btoa), encoding, atob) == text,
{
}

/// A link with a leading `./`, then a leading `../`, removed.
pub open spec fn without_relative(s: Seq<char>) -> Seq<char> {
    let a = without_dot_slash(s);
    if starts_with(a, "../"@) {
        a.skip(3)
    } else {
        a
    }
}

/// Whether a link names its scheme as the client sees it.
pub open spec fn client_valid_protocol(u: Seq<char>) -> bool {
    ||| starts_with(u, "http://"@)
    ||| starts_with(u, "https://"@)
    ||| starts_with(u, "ws://"@)
    ||| starts_with(u, "wss://"@)
}

/// The absolute address that the client makes of a link on a page of
/// `origin`.
pub open spec fn client_absolute(u: Seq<char>, origin: Seq<char>) -> Seq<char> {
    let u1 = if starts_with(u, "//"@) {
        "https:"@ + u
    } else {
        u
    };
    let valid = client_valid_protocol(u1);
    let u2 = if !ends_with(origin, "/"@) && !starts_with(u1, "/"@) && !valid {
        "/"@ + u1
    } else {
        u1
    };
    if valid {
        u2
    } else {
        origin + u2
    }
}

/// The address that `url_wrap` encodes for `url`, or `None` where it keeps
/// the link (a special scheme, or a proxy path already).
pub open spec fn address_to_encode(url: Seq<char>, origin: Seq<char>, encoding: Seq<char>) -> Option<Seq<char>> {
    let a = without_relative(url);
    if special_scheme(url) || starts_with(a, proxy_prefix(encoding)) {
        None
    } else {
        Some(client_absolute(a, origin))
    }
}

/// The proxy path that the client makes of `url`: the link itself for a
/// special scheme, the link (without `./` and `../`) where it is a proxy path
/// already, and otherwise `/{encoding}/` followed by the encoded absolute
/// address, `btoa` being the browser's `btoa` of that address.
pub open spec fn wrapped(url: Seq<char>, origin: Seq<char>, encoding: Seq<char>, btoa: Option<Seq<char>>) -> Seq<char> {
    let p = proxy_prefix(encoding);
    let a = without_relative(url);
    if special_scheme(url) {
        url
    } else if starts_with(a, p) {
        a
    } else {
        p + coded(client_absolute(a, origin), encoding, btoa)
    }
}

/// The proxy path with the `/{encoding}/` prefix removed, where it has one.
pub open spec fn without_proxy_prefix(url: Seq<char>, encoding: Seq<char>) -> Seq<char> {
    let p = proxy_prefix(encoding);
    if starts_with(url, p) {
        url.skip(p.len() as int)
    } else {
        url
    }
}

/// The address that a proxy path stands for, `atob` being the browser's
/// `atob` of the path without its prefix.
pub open spec fn unwrapped(url: Seq<char>, encoding: Seq<char>, atob: Option<Seq<char>>) -> Seq<char> {
    coded(without_proxy_prefix(url, encoding), encoding, atob)
}

fn is_client_valid_protocol(u: &[char]) -> (r: bool)
    ensures
        r == client_valid_protocol(u@),
{
    has_prefix(u, &chars_of("http://")) || has_prefix(u, &chars_of("https://")) || has_prefix(
        u,
        &chars_of("ws://"),
    ) || has_prefix(u, &chars_of("wss://"))
}

fn client_absolute_exec(u: Vec<char>, origin: &[char]) -> (r: Vec<char>)
    ensures
        r@ == client_absolute(u@, origin@),
{
    let u1 = if has_prefix(&u, &chars_of("//")) {
        concat(&chars_of("https:"), &u)
    } else {
        u
    };
    let valid = is_client_valid_protocol(&u1);
    let u2 = if !has_suffix(origin, &chars_of("/")) && !has_prefix(&u1, &chars_of("/")) && !valid {
        concat(&chars_of("/"), &u1)
    } else {
        u1
    };
    if valid {
        u2
    } else {
        concat(origin, &u2)
    }
}

fn without_relative_exec(url: &str) -> (r: Vec<char>)
    ensures
        r@ == without_relative(url@),
{
    proof {
        reveal_strlit("./");
        reveal_strlit("../");
    }
    let u = chars_of(url);
    let u = if has_prefix(&u, &chars_of("./")) {
        crate::text::skip(&u, 2)
    } else {
        u
    };
    if has_prefix(&u, &chars_of("../")) {
        crate::text::skip(&u, 3)
    } else {
        u
    }
}

/// The address that `url_wrap` will encode for `url`, which for `b64` goes to
/// the browser's `btoa` first; `None` where the link is kept as it is.
pub fn wrap_address(url: &str, origin: &str, encoding: &str) -> (res: Option<String>)
    ensures
        opt_view(res) == address_to_encode(url@, origin@, encoding@),
{
    if crate::rewrite::is_special_scheme(&chars_of(url)) {
        return None;
    }
    let u = without_relative_exec(url);
    if has_prefix(&u, &proxy_prefix_exec(&chars_of(encoding))) {
        return None;
    }
    Some(string_of(&client_absolute_exec(u, &chars_of(origin))))
}

/// Wraps an address that a proxied page asks for into a proxy path. For
/// `b64`, `btoa` is what the browser's `btoa` gave for the address that
/// `wrap_address` names.
pub fn url_wrap(url: String, origin: String, encoding: String, btoa: Option<String>) -> (res: String)
    ensures
        res@ == wrapped(url@, origin@, encoding@, opt_view(btoa)),
        (starts_with(url@, "http://"@) || starts_with(url@, "https://"@) || starts_with(url@, "ws://"@)
            || starts_with(url@, "wss://"@)) && !starts_with(url@, proxy_prefix(encoding@))
            ==> res@ == proxy_prefix(encoding@) + coded(url@, encoding@, opt_view(btoa)),
{
    proof {
        if (starts_with(url@, "http://"@) || starts_with(url@, "https://"@) || starts_with(url@, "ws://"@)
            || starts_with(url@, "wss://"@)) && !starts_with(url@, proxy_prefix(encoding@)) {
            lemma_absolute_address_kept(url@, origin@, encoding@, opt_view(btoa));
        }
    }
    if crate::rewrite::is_special_scheme(&chars_of(url.as_str())) {
        return url;
    }
    let u = without_relative_exec(url.as_str());
    let prefix = proxy_prefix_exec(&chars_of(encoding.as_str()));
    if has_prefix(&u, &prefix) {
        return string_of(&u);
    }
    let target = client_absolute_exec(u, &chars_of(origin.as_str()));
    let encoded = encode(string_of(&target), encoding, btoa);
    string_of(&concat(&prefix, &chars_of(encoded.as_str())))
}

/// The text of a proxy path that `url_unwrap` decodes, which for `b64` goes
/// to the browser's `atob` first.
pub fn unwrap_text(url: &str, encoding: &str) -> (res: String)
    ensures
        res@ == without_proxy_prefix(url@, encoding@),
{
    let u = chars_of(url);
    let prefix = proxy_prefix_exec(&chars_of(encoding));
    if has_prefix(&u, &prefix) {
        string_of(&crate::text::skip(&u, prefix.len()))
    } else {
        string_of(&u)
    }
}

/// Unwraps a proxy path back into the address it stands for. For `b64`,
/// `atob` is what the browser's `atob` gave for the text that `unwrap_text`
/// names.
pub fn url_unwrap(url: String, encoding: String, atob: Option<String>) -> (res: String)
    ensures
        res@ == unwrapped(url@, encoding@, opt_view(atob)),
{
    let stripped = unwrap_text(url.as_str(), encoding.as_str());
    decode(stripped, encoding, atob)
}

/// A text that starts with `/` is not changed by the removal of `./` and
/// `../`.
proof fn lemma_slash_no_relative(s: Seq<char>)
    requires
        s.len() > 0,
        s[0] == '/',
    ensures
        !special_scheme(s),
        without_relative(s) == s,
{
    crate::rewrite::lemma_slash_start(s);
    reveal_strlit("../");
    if starts_with(s, "../"@) {
        lemma_prefix_first(s, "../"@);
    }
}

/// Wrapping an address that `url_wrap` already wrapped leaves it as it is,
/// whatever the encoding and whatever the browser gave.
pub proof fn lemma_url_wrap_idempotent(
    url: Seq<char>,
    origin: Seq<char>,
    encoding: Seq<char>,
    first: Option<Seq<char>>,
    second: Option<Seq<char>>,
)
    ensures
        wrapped(wrapped(url, origin, encoding, first), origin, encoding, second) == wrapped(
            url,
            origin,
            encoding,
            first,
        ),
{
    let p = proxy_prefix(encoding);
    let once = wrapped(url, origin, encoding, first);
    reveal_strlit("/");
    assert(p[0] == '/');
    if !special_scheme(url) {
        let a = without_relative(url);
        if starts_with(a, p) {
            lemma_prefix_first(a, p);
            lemma_slash_no_relative(a);
        } else {
            assert(once.subrange(0, p.len() as int) =~= p);
            lemma_prefix_first(once, p);
            lemma_slash_no_relative(once);
        }
    }
}

/// Unwrapping a wrapped address gives back the address that was wrapped:
/// the link itself for a special scheme, the part after `/{encoding}/` for a
/// proxy path, and otherwise the absolute address, for `b64` wherever the
/// browser's `atob` gives back that address from what `btoa` gave.
pub proof fn lemma_unwrap_wrap(
    url: Seq<char>,
    origin: Seq<char>,
    encoding: Seq<char>,
    btoa: Option<Seq<char>>,
    atob: Option<Seq<char>>,
)
    requires
        browser_encoding(encoding) && address_to_encode(url, origin, encoding) is Some ==> atob
            == address_to_encode(url, origin, encoding),
    ensures
        special_scheme(url) && !browser_encoding(encoding) ==> unwrapped(
            wrapped(url, origin, encoding, btoa),
            encoding,
            atob,
        ) == url,
        address_to_encode(url, origin, encoding) matches Some(t) ==> unwrapped(
            wrapped(url, origin, encoding, btoa),
            encoding,
            atob,
        ) == t,
        address_to_encode(url, origin, encoding) matches Some(t) ==> without_proxy_prefix(
            wrapped(url, origin, encoding, btoa),
            encoding,
        ) == coded(t, encoding, btoa),
        !special_scheme(url) && starts_with(without_relative(url), proxy_prefix(encoding))
            && !browser_encoding(encoding) ==> unwrapped(wrapped(url, origin, encoding, btoa), encoding, atob)
            == without_proxy_prefix(without_relative(url), encoding),
{
    let p = proxy_prefix(encoding);
    let w = wrapped(url, origin, encoding, btoa);
    reveal_strlit("/");
    assert(p[0] == '/');
    if special_scheme(url) {
        if starts_with(url, p) {
            lemma_prefix_first(url, p);
            lemma_slash_no_relative(url);
        }
    } else {
        let a = without_relative(url);
        if !starts_with(a, p) {
            assert(w.subrange(0, p.len() as int) =~= p);
            assert(w.skip(p.len() as int) =~= coded(client_absolute(a, origin), encoding, btoa));
        }
    }
}

/// The encoding named in a proxied page's location `scheme://host/{encoding}/...`:
/// the fourth piece between slashes, or nothing.
pub open spec fn location_encoding(href: Seq<char>) -> Seq<char> {
    let p = crate::text::split_on(href, '/');
    if p.len() > 3 {
        p[3]
    } else {
        Seq::empty()
    }
}

/// The proxied address in a proxied page's location: the pieces after the
/// encoding, joined with `/` again.
pub open spec fn location_address(href: Seq<char>) -> Seq<char> {
    let p = crate::text::split_on(href, '/');
    if p.len() > 4 {
        crate::text::join_with(p.skip(4), "/"@)
    } else {
        Seq::empty()
    }
}

/// Splits the location of a proxied page into its encoding and the address
/// that it proxies.
pub fn proxied_location(href: &str) -> (res: (String, String))
    ensures
        res.0@ == location_encoding(href@),
        res.1@ == location_address(href@),
{
    let h = chars_of(href);
    let pieces = crate::text::split(&h, '/');
    let ghost all = crate::text::split_on(h@, '/');
    let encoding = if pieces.len() > 3 {
        string_of(&pieces[3])
    } else {
        String::new()
    };
    let address = if pieces.len() > 4 {
        let slash = chars_of("/");
        let joined = crate::text::join(&pieces, 4, &slash);
        assert(pieces@.skip(4).map_values(|v: Vec<char>| v@) =~= all.skip(4));
        string_of(&joined)
    } else {
        String::new()
    };
    (encoding, address)
}

/// The address that the client wraps for a websocket that a proxied page
/// opens: the first `ws` read as `http`, as JavaScript's `replace` does.
pub open spec fn websocket_address(url: Seq<char>) -> Seq<char> {
    crate::text::replaced_first(url, "ws"@, "http"@)
}

/// The proxy address of a websocket: the wrapped address with its first
/// `http` read as `ws` again, under `/ws`, with the page's origin as a query
/// parameter.
pub open spec fn websocket_path(url: Seq<char>, origin: Seq<char>, encoding: Seq<char>, btoa: Option<Seq<char>>) -> Seq<char> {
    "/ws"@ + crate::text::replaced_first(
        wrapped(websocket_address(url), origin, encoding, btoa),
        "http"@,
        "ws"@,
    ) + "?origin="@ + origin
}

/// The address that `websocket_url` wraps.
pub fn websocket_address_exec(url: &str) -> (res: String)
    ensures
        res@ == websocket_address(url@),
{
    proof {
        reveal_strlit("ws");
    }
    string_of(&replace_first(&chars_of(url), &chars_of("ws"), &chars_of("http")))
}

/// The proxy address of a websocket that a proxied page opens. For `b64`,
/// `btoa` is what the browser's `btoa` gave for the address that
/// `wrap_address` names for `websocket_address_exec(url)`.
pub fn websocket_url(url: String, origin: String, encoding: String, btoa: Option<String>) -> (res: String)
    ensures
        res@ == websocket_path(url@, origin@, encoding@, opt_view(btoa)),
{
    proof {
        reveal_strlit("http");
    }
    let address = websocket_address_exec(url.as_str());
    let w = url_wrap(address, origin.clone(), encoding, btoa);
    let back = replace_first(&chars_of(w.as_str()), &chars_of("http"), &chars_of("ws"));
    let a = concat(&chars_of("/ws"), &back);
    let b = concat(&a, &chars_of("?origin="));
    string_of(&concat(&b, &chars_of(origin.as_str())))
}

/// An address that starts with `http://`, `https://`, `ws://` or `wss://` and
/// is not a proxy path already is kept absolute: whatever the page's origin,
/// it is wrapped as `/{encoding}/` followed by the encoded address itself.
pub proof fn lemma_absolute_address_kept(url: Seq<char>, origin: Seq<char>, encoding: Seq<char>, btoa: Option<Seq<char>>)
    requires
        starts_with(url, "http://"@) || starts_with(url, "https://"@) || starts_with(url, "ws://"@)
            || starts_with(url, "wss://"@),
        !starts_with(url, proxy_prefix(encoding)),
    ensures
        address_to_encode(url, origin, encoding) == Some(url),
        wrapped(url, origin, encoding, btoa) == proxy_prefix(encoding) + coded(url, encoding, btoa),
{
    reveal_strlit("http://");
    reveal_strlit("https://");
    reveal_strlit("ws://");
    reveal_strlit("wss://");
    reveal_strlit("data:");
    reveal_strlit("about:");
    reveal_strlit("javascript:");
    reveal_strlit("blob:");
    reveal_strlit("mailto:");
    reveal_strlit("./");
    reveal_strlit("../");
    reveal_strlit("//");
    let c = url[0];
    if starts_with(url, "http://"@) {
        lemma_prefix_first(url, "http://"@);
    }
    if starts_with(url, "https://"@) {
        lemma_prefix_first(url, "https://"@);
    }
    if starts_with(url, "ws://"@) {
        lemma_prefix_first(url, "ws://"@);
    }
    if starts_with(url, "wss://"@) {
        lemma_prefix_first(url, "wss://"@);
    }
    assert(c == 'h' || c == 'w');
    if starts_with(url, "data:"@) { lemma_prefix_first(url, "data:"@); }
    if starts_with(url, "about:"@) { lemma_prefix_first(url, "about:"@); }
    if starts_with(url, "javascript:"@) { lemma_prefix_first(url, "javascript:"@); }
    if starts_with(url, "blob:"@) { lemma_prefix_first(url, "blob:"@); }
    if starts_with(url, "mailto:"@) { lemma_prefix_first(url, "mailto:"@); }
    if starts_with(url, "./"@) { lemma_prefix_first(url, "./"@); }
    if starts_with(url, "../"@) { lemma_prefix_first(url, "../"@); }
    if starts_with(url, "//"@) { lemma_prefix_first(url, "//"@); }
    assert(!special_scheme(url));
    assert(without_dot_slash(url) == url);
    assert(without_relative(url) == url);
    assert(client_absolute(url, origin) == url);
}

/// The client keeps links that are never proxied and proxy paths as they
/// are, and puts a site-relative path under the page's origin: a link that
/// starts with `data:`, `about:`, `javascript:`, `blob:` or `mailto:` is not
/// wrapped, nor is a path that starts with `/{encoding}/`; a path that starts
/// with a single `/` becomes `/{encoding}/` followed by the encoded origin
/// and path.
pub proof fn lemma_client_link_kinds(url: Seq<char>, origin: Seq<char>, encoding: Seq<char>, btoa: Option<Seq<char>>)
    ensures
        starts_with(url, "data:"@) || starts_with(url, "about:"@) || starts_with(url, "javascript:"@)
            || starts_with(url, "blob:"@) || starts_with(url, "mailto:"@) ==> wrapped(url, origin, encoding, btoa)
            == url,
        starts_with(url, proxy_prefix(encoding)) ==> wrapped(url, origin, encoding, btoa) == url,
        starts_with(url, "/"@) && !starts_with(url, "//"@) && !starts_with(url, proxy_prefix(encoding))
            ==> wrapped(url, origin, encoding, btoa) == proxy_prefix(encoding) + coded(origin + url, encoding, btoa),
{
    reveal_strlit("/");
    reveal_strlit("//");
    reveal_strlit("./");
    reveal_strlit("../");
    reveal_strlit("http://");
    reveal_strlit("https://");
    reveal_strlit("ws://");
    reveal_strlit("wss://");
    if starts_with(url, proxy_prefix(encoding)) {
        assert(proxy_prefix(encoding)[0] == '/');
        lemma_prefix_first(url, proxy_prefix(encoding));
        lemma_slash_no_relative(url);
    }
    if starts_with(url, "/"@) {
        lemma_prefix_first(url, "/"@);
        lemma_slash_no_relative(url);
        if starts_with(url, "http://"@) { lemma_prefix_first(url, "http://"@); }
        if starts_with(url, "https://"@) { lemma_prefix_first(url, "https://"@); }
        if starts_with(url, "ws://"@) { lemma_prefix_first(url, "ws://"@); }
        if starts_with(url, "wss://"@) { lemma_prefix_first(url, "wss://"@); }
        assert(!client_valid_protocol(url));
        if !starts_with(url, "//"@) {
            assert(client_absolute(url, origin) == origin + url);
        }
    }
}

} // verus!
