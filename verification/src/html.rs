//! The proxy's edits of HTML pages, made element by element and text chunk
//! by text chunk while lol_html rewrites a page.

use vstd::prelude::*;
use crate::bindings::{
    chunk_text, chunk_view, element_attribute, element_tag, element_view, prepend_html, remove_element,
    remove_element_attribute, replace_chunk, set_element_attribute,
};
use crate::rewrite::{
    head_script, is_security_policy, rewrite_srcset, rewritecss, rewritejs, rewritten_css,
    rewritten_js, rewritten_link, rewritten_srcset,
};
use crate::text::{chars_of, equals};

verus! {

/// What becomes of an attribute of an element on a proxied page.
#[derive(Debug, Clone, PartialEq, Eq)]
pub enum AttributeAction {
    /// The attribute stays as it is.
    Keep,
    /// The attribute is removed.
    Remove,
    /// The attribute gets this value.
    SetTo(String),
    /// The whole element is removed.
    RemoveElement,
}

/// The attributes whose value holds a link.
pub open spec fn link_attribute(name: Seq<char>) -> bool {
    name == "src"@ || name == "href"@ || name == "action"@
}

/// The attributes that the proxy removes: they would stop rewritten scripts
/// and styles from loading.
pub open spec fn dropped_attribute(name: Seq<char>) -> bool {
    name == "integrity"@ || name == "nonce"@ || name == "data-jsarwt"@
}

/// An attribute edit, as the specification speaks of it.
pub enum AttributeEdit {
    Keep,
    Remove,
    SetTo(Seq<char>),
    RemoveElement,
}

/// The edit that an `AttributeAction` stands for.
pub open spec fn edit_of(a: AttributeAction) -> AttributeEdit {
    match a {
        AttributeAction::Keep => AttributeEdit::Keep,
        AttributeAction::Remove => AttributeEdit::Remove,
        AttributeAction::SetTo(v) => AttributeEdit::SetTo(v@),
        AttributeAction::RemoveElement => AttributeEdit::RemoveElement,
    }
}

/// What becomes of the attribute `name` with value `value`, name by name in
/// the order in which the proxy looks at them.
pub open spec fn attribute_edit(
    name: Seq<char>,
    value: Seq<char>,
    url: Seq<char>,
    encoding: Seq<char>,
    origin: Seq<char>,
) -> AttributeEdit {
    if name == "http-equiv"@ {
        if crate::text::contains(value, "content-security-policy"@) {
            AttributeEdit::RemoveElement
        } else {
            AttributeEdit::Keep
        }
    } else if dropped_attribute(name) {
        AttributeEdit::Remove
    } else if link_attribute(name) {
        AttributeEdit::SetTo(rewritten_link(value, origin, encoding))
    } else if name == "srcset"@ {
        AttributeEdit::SetTo(rewritten_srcset(value, origin, encoding))
    } else if name == "style"@ {
        AttributeEdit::SetTo(rewritten_css(value, origin, encoding))
    } else if name == "onclick"@ {
        AttributeEdit::SetTo(rewritten_js(url, value))
    } else {
        AttributeEdit::Keep
    }
}

/// A text with each ASCII capital letter made small.
pub open spec fn ascii_lower(s: Seq<char>) -> Seq<char> {
    s.map_values(|c: char| if 'A' <= c <= 'Z' { ((c as u32) + 32) as char } else { c })
}

/// A name that lol_html accepts for a new attribute in a UTF-8 document: not
/// empty, and without white space, `/`, `>` or `=`.
pub open spec fn valid_attribute_name(name: Seq<char>) -> bool {
    &&& name.len() > 0
    &&& forall|i: int|
        0 <= i < name.len() ==> !(name[i] == ' ' || name[i] == '\n' || name[i] == '\r' || name[i] == '\t'
            || name[i] == '\u{C}' || name[i] == '/' || name[i] == '>' || name[i] == '=')
}

/// The position of the first attribute named `name`, or -1.
pub open spec fn attribute_index(attrs: Seq<(Seq<char>, Seq<char>)>, name: Seq<char>) -> int
    decreases attrs.len(),
{
    if attrs.len() == 0 {
        -1
    } else if attrs[0].0 == name {
        0
    } else {
        let i = attribute_index(attrs.skip(1), name);
        if i < 0 {
            -1
        } else {
            i + 1
        }
    }
}

/// The value of the first attribute named `name`.
pub open spec fn attribute_lookup(attrs: Seq<(Seq<char>, Seq<char>)>, name: Seq<char>) -> Option<Seq<char>> {
    let i = attribute_index(attrs, name);
    if 0 <= i < attrs.len() {
        Some(attrs[i].1)
    } else {
        None
    }
}

/// The attributes with the first one named `name` set to `value`, or with
/// `(name, value)` added at the end.
pub open spec fn attribute_set(attrs: Seq<(Seq<char>, Seq<char>)>, name: Seq<char>, value: Seq<char>) -> Seq<(Seq<char>, Seq<char>)> {
    let i = attribute_index(attrs, name);
    if 0 <= i < attrs.len() {
        attrs.update(i, (name, value))
    } else {
        attrs.push((name, value))
    }
}

/// The attributes without the first one named `name`.
pub open spec fn attribute_remove(attrs: Seq<(Seq<char>, Seq<char>)>, name: Seq<char>) -> Seq<(Seq<char>, Seq<char>)> {
    let i = attribute_index(attrs, name);
    if 0 <= i < attrs.len() {
        attrs.remove(i)
    } else {
        attrs
    }
}

/// An element's attributes, whether it is removed, and the HTML at the start
/// of its content, after the proxy handled its attribute `name` (`can` says
/// whether the element can have content).
#[verifier::opaque]
pub open spec fn attribute_edited(
    st: (Seq<(Seq<char>, Seq<char>)>, bool, Seq<Seq<char>>),
    can: bool,
    name: Seq<char>,
    url: Seq<char>,
    encoding: Seq<char>,
    origin: Seq<char>,
) -> (Seq<(Seq<char>, Seq<char>)>, bool, Seq<Seq<char>>) {
    match attribute_lookup(st.0, name) {
        None => st,
        Some(value) => match attribute_edit(name, value, url, encoding, origin) {
            AttributeEdit::Keep => st,
            AttributeEdit::Remove => (attribute_remove(st.0, name), st.1, st.2),
            AttributeEdit::SetTo(v) => (attribute_set(st.0, name, v), st.1, st.2),
            AttributeEdit::RemoveElement => (st.0, true, if can { Seq::empty() } else { st.2 }),
        },
    }
}

/// What the proxy makes of an element with tag `tag`, attributes `attrs`,
/// removal flag `removed` and inserted HTML `inserted`: a `head` that can
/// have content gets the client script first, then the attributes are
/// handled one by one in this order.
pub open spec fn element_edited(
    tag: Seq<char>,
    attrs: Seq<(Seq<char>, Seq<char>)>,
    removed: bool,
    can: bool,
    inserted: Seq<Seq<char>>,
    url: Seq<char>,
    encoding: Seq<char>,
    origin: Seq<char>,
    client_js: Seq<char>,
) -> (Seq<(Seq<char>, Seq<char>)>, bool, Seq<Seq<char>>) {
    let s0 = (attrs, removed, if tag == "head"@ && can {
        seq!["<script>"@ + client_js + "</script>"@] + inserted
    } else {
        inserted
    });
    let s1 = attribute_edited(s0, can, "http-equiv"@, url, encoding, origin);
    let s2 = attribute_edited(s1, can, "integrity"@, url, encoding, origin);
    let s3 = attribute_edited(s2, can, "nonce"@, url, encoding, origin);
    let s4 = attribute_edited(s3, can, "data-jsarwt"@, url, encoding, origin);
    let s5 = attribute_edited(s4, can, "src"@, url, encoding, origin);
    let s6 = attribute_edited(s5, can, "href"@, url, encoding, origin);
    let s7 = attribute_edited(s6, can, "action"@, url, encoding, origin);
    let s8 = attribute_edited(s7, can, "srcset"@, url, encoding, origin);
    let s9 = attribute_edited(s8, can, "style"@, url, encoding, origin);
    attribute_edited(s9, can, "onclick"@, url, encoding, origin)
}

/// The attribute names that the proxy handles are different texts.
proof fn lemma_attribute_names_differ()
    ensures
        "http-equiv"@.len() == 10,
        "integrity"@.len() == 9,
        "nonce"@.len() == 5,
        "nonce"@[0] == 'n',
        "data-jsarwt"@.len() == 11,
        "src"@.len() == 3,
        "href"@.len() == 4,
        "action"@.len() == 6,
        "action"@[0] == 'a',
        "srcset"@.len() == 6,
        "srcset"@[0] == 's',
        "style"@.len() == 5,
        "style"@[0] == 's',
        "onclick"@.len() == 7,
{
    reveal_strlit("http-equiv");
    reveal_strlit("integrity");
    reveal_strlit("nonce");
    reveal_strlit("data-jsarwt");
    reveal_strlit("src");
    reveal_strlit("href");
    reveal_strlit("action");
    reveal_strlit("srcset");
    reveal_strlit("style");
    reveal_strlit("onclick");
}

/// What becomes of the attribute `name` with value `value` on a page loaded
/// from `url` with origin `origin`, served under `/{encoding}/`: a content
/// security policy `http-equiv` removes its element, the dropped attributes
/// go, links, `srcset`, `style` and `onclick` are rewritten, and any other
/// attribute stays.
pub fn attribute_action(name: &str, value: String, url: &str, encoding: &str, origin: &str) -> (res: AttributeAction)
    ensures
        name@ == "http-equiv"@ ==> res == if crate::text::contains(value@, "content-security-policy"@) {
            AttributeAction::RemoveElement
        } else {
            AttributeAction::Keep
        },
        dropped_attribute(name@) ==> res == AttributeAction::Remove,
        link_attribute(name@) ==> (res matches AttributeAction::SetTo(v) && v@ == rewritten_link(
            value@,
            origin@,
            encoding@,
        )),
        name@ == "srcset"@ ==> (res matches AttributeAction::SetTo(v) && v@ == rewritten_srcset(
            value@,
            origin@,
            encoding@,
        )),
        name@ == "style"@ ==> (res matches AttributeAction::SetTo(v) && v@ == rewritten_css(
            value@,
            origin@,
            encoding@,
        )),
        name@ == "onclick"@ ==> (res matches AttributeAction::SetTo(v) && v@ == rewritten_js(url@, value@)),
        !(name@ == "http-equiv"@ || dropped_attribute(name@) || link_attribute(name@) || name@ == "srcset"@
            || name@ == "style"@ || name@ == "onclick"@) ==> res == AttributeAction::Keep,
        edit_of(res) == attribute_edit(name@, value@, url@, encoding@, origin@),
{
    proof {
        lemma_attribute_names_differ();
    }
    let n = chars_of(name);
    if equals(&n, &chars_of("http-equiv")) {
        if is_security_policy(value.as_str()) {
            AttributeAction::RemoveElement
        } else {
            AttributeAction::Keep
        }
    } else if equals(&n, &chars_of("integrity")) || equals(&n, &chars_of("nonce")) || equals(
        &n,
        &chars_of("data-jsarwt"),
    ) {
        AttributeAction::Remove
    } else if equals(&n, &chars_of("src")) || equals(&n, &chars_of("href")) || equals(
        &n,
        &chars_of("action"),
    ) {
        AttributeAction::SetTo(crate::rewrite::get_url(value, origin.to_string(), encoding.to_string()))
    } else if equals(&n, &chars_of("srcset")) {
        AttributeAction::SetTo(rewrite_srcset(value, origin.to_string(), encoding.to_string()))
    } else if equals(&n, &chars_of("style")) {
        AttributeAction::SetTo(rewritecss(value, encoding.to_string(), origin.to_string()))
    } else if equals(&n, &chars_of("onclick")) {
        AttributeAction::SetTo(rewritejs(url, value))
    } else {
        AttributeAction::Keep
    }
}

/// A name in lower case that lol_html accepts.
spec fn plain_attribute_name(name: Seq<char>) -> bool {
    ascii_lower(name) == name && valid_attribute_name(name)
}

/// The attribute names that the proxy handles are plain lower-case names.
proof fn lemma_handled_names_plain()
    ensures
        plain_attribute_name("http-equiv"@),
        plain_attribute_name("integrity"@),
        plain_attribute_name("nonce"@),
        plain_attribute_name("data-jsarwt"@),
        plain_attribute_name("src"@),
        plain_attribute_name("href"@),
        plain_attribute_name("action"@),
        plain_attribute_name("srcset"@),
        plain_attribute_name("style"@),
        plain_attribute_name("onclick"@),
{
    reveal_strlit("http-equiv");
    reveal_strlit("integrity");
    reveal_strlit("nonce");
    reveal_strlit("data-jsarwt");
    reveal_strlit("src");
    reveal_strlit("href");
    reveal_strlit("action");
    reveal_strlit("srcset");
    reveal_strlit("style");
    reveal_strlit("onclick");
    assert(ascii_lower("http-equiv"@) =~= "http-equiv"@);
    assert(ascii_lower("integrity"@) =~= "integrity"@);
    assert(ascii_lower("nonce"@) =~= "nonce"@);
    assert(ascii_lower("data-jsarwt"@) =~= "data-jsarwt"@);
    assert(ascii_lower("src"@) =~= "src"@);
    assert(ascii_lower("href"@) =~= "href"@);
    assert(ascii_lower("action"@) =~= "action"@);
    assert(ascii_lower("srcset"@) =~= "srcset"@);
    assert(ascii_lower("style"@) =~= "style"@);
    assert(ascii_lower("onclick"@) =~= "onclick"@);
}

/// Handles the attribute `name` of an element as `attribute_action` says.
fn edit_attribute(el: &mut lol_html::html_content::Element, name: &str, url: &str, encoding: &str, origin: &str)
    requires
        plain_attribute_name(name@),
    ensures
        element_view(*final(el)).0 == element_view(*old(el)).0,
        element_view(*final(el)).3 == element_view(*old(el)).3,
        element_view(*final(el)).5 == element_view(*old(el)).5,
        element_view(*old(el)).5 ==> (element_view(*final(el)).1, element_view(*final(el)).2, element_view(
            *final(el),
        ).4) == attribute_edited(
            (element_view(*old(el)).1, element_view(*old(el)).2, element_view(*old(el)).4),
            element_view(*old(el)).3,
            name@,
            url@,
            encoding@,
            origin@,
        ),
{
    proof {
        reveal(attribute_edited);
    }
    match element_attribute(el, name) {
        Some(value) => match attribute_action(name, value, url, encoding, origin) {
            AttributeAction::Keep => {},
            AttributeAction::Remove => remove_element_attribute(el, name),
            AttributeAction::SetTo(v) => set_element_attribute(el, name, v.as_str()),
            AttributeAction::RemoveElement => remove_element(el),
        },
        None => {},
    }
}

/// Edits one element of a proxied page: the client script goes first into
/// `head`, and each attribute that the proxy handles is edited by
/// `attribute_action`, in the order of `element_edited`.
pub(crate) fn edit_element(el: &mut lol_html::html_content::Element, url: &str, encoding: &str, origin: &str, client_js: &str)
    ensures
        element_view(*final(el)).0 == element_view(*old(el)).0,
        element_view(*final(el)).3 == element_view(*old(el)).3,
        element_view(*final(el)).5 == element_view(*old(el)).5,
        element_view(*old(el)).5 ==> (element_view(*final(el)).1, element_view(*final(el)).2, element_view(
            *final(el),
        ).4) == element_edited(
            element_view(*old(el)).0,
            element_view(*old(el)).1,
            element_view(*old(el)).2,
            element_view(*old(el)).3,
            element_view(*old(el)).4,
            url@,
            encoding@,
            origin@,
            client_js@,
        ),
        element_view(*old(el)).5 ==> forall|name: Seq<char>|
            (name == "src"@ || name == "href"@ || name == "action"@) && (#[trigger] attribute_lookup(
                element_view(*old(el)).1,
                name,
            )) is Some ==> attribute_lookup(element_view(*final(el)).1, name) == Some(
                rewritten_link(attribute_lookup(element_view(*old(el)).1, name)->0, origin@, encoding@),
            ),
{
    proof {
        lemma_handled_names_plain();
        let v = element_view(*el);
        assert forall|name: Seq<char>|
            (name == "src"@ || name == "href"@ || name == "action"@) && (#[trigger] attribute_lookup(v.1, name)) is Some
            implies attribute_lookup(
                element_edited(v.0, v.1, v.2, v.3, v.4, url@, encoding@, origin@, client_js@).0,
                name,
            ) == Some(rewritten_link(attribute_lookup(v.1, name)->0, origin@, encoding@)) by {
            lemma_element_attributes(v.0, v.1, v.2, v.3, v.4, url@, encoding@, origin@, client_js@, name,
                attribute_lookup(v.1, name)->0);
        }
    }
    if equals(&chars_of(element_tag(el).as_str()), &chars_of("head")) {
        prepend_html(el, head_script(client_js).as_str());
    }
    edit_attribute(el, "http-equiv", url, encoding, origin);
    edit_attribute(el, "integrity", url, encoding, origin);
    edit_attribute(el, "nonce", url, encoding, origin);
    edit_attribute(el, "data-jsarwt", url, encoding, origin);
    edit_attribute(el, "src", url, encoding, origin);
    edit_attribute(el, "href", url, encoding, origin);
    edit_attribute(el, "action", url, encoding, origin);
    edit_attribute(el, "srcset", url, encoding, origin);
    edit_attribute(el, "style", url, encoding, origin);
    edit_attribute(el, "onclick", url, encoding, origin);
}

/// Rewrites a chunk of the text of a `style` element as CSS.
pub(crate) fn edit_style_text(t: &mut lol_html::html_content::TextChunk, encoding: &str, origin: &str)
    ensures
        chunk_view(*final(t)).0 == chunk_view(*old(t)).0,
        chunk_view(*final(t)).2 == chunk_view(*old(t)).2,
        chunk_view(*old(t)).2 ==> chunk_view(*final(t)).1 == Some(
            rewritten_css(chunk_view(*old(t)).0, origin@, encoding@),
        ),
{
    let text = rewritecss(chunk_text(t), encoding.to_string(), origin.to_string());
    replace_chunk(t, text.as_str());
}

/// Rewrites a chunk of the text of a `script` element as a script loaded
/// from `url`.
pub(crate) fn edit_script_text(t: &mut lol_html::html_content::TextChunk, url: &str)
    ensures
        chunk_view(*final(t)).0 == chunk_view(*old(t)).0,
        chunk_view(*final(t)).2 == chunk_view(*old(t)).2,
        chunk_view(*old(t)).2 ==> chunk_view(*final(t)).1 == Some(rewritten_js(url@, chunk_view(*old(t)).0)),
{
    let text = rewritejs(url, chunk_text(t));
    replace_chunk(t, text.as_str());
}

/// The first attribute named `n`: a found position lies inside the list,
/// names `n`, and no earlier attribute does; a missing one names none.
proof fn lemma_attribute_index(attrs: Seq<(Seq<char>, Seq<char>)>, n: Seq<char>)
    ensures
        -1 <= attribute_index(attrs, n) < attrs.len(),
        attribute_index(attrs, n) >= 0 ==> attrs[attribute_index(attrs, n)].0 == n,
        attribute_index(attrs, n) >= 0 ==> forall|j: int| 0 <= j < attribute_index(attrs, n) ==> attrs[j].0 != n,
        attribute_index(attrs, n) == -1 ==> forall|j: int| 0 <= j < attrs.len() ==> attrs[j].0 != n,
    decreases attrs.len(),
{
    if attrs.len() > 0 {
        lemma_attribute_index(attrs.skip(1), n);
        assert forall|j: int| 0 < j < attrs.len() implies attrs[j] == attrs.skip(1)[j - 1] by {}
    }
}

/// Looking an attribute up after another one was set or removed gives what
/// it gave before; after it was set itself, the new value.
proof fn lemma_lookup_after_change(attrs: Seq<(Seq<char>, Seq<char>)>, n: Seq<char>, v: Seq<char>, m: Seq<char>)
    ensures
        attribute_lookup(attribute_set(attrs, n, v), m) == if m == n { Some(v) } else { attribute_lookup(attrs, m) },
        m != n ==> attribute_lookup(attribute_remove(attrs, n), m) == attribute_lookup(attrs, m),
{
    lemma_attribute_index(attrs, n);
    lemma_attribute_index(attrs, m);
    let i = attribute_index(attrs, n);
    let p = attribute_index(attrs, m);
    let set = attribute_set(attrs, n, v);
    let rem = attribute_remove(attrs, n);
    lemma_attribute_index(set, m);
    lemma_attribute_index(rem, m);
    let ps = attribute_index(set, m);
    let pr = attribute_index(rem, m);
    if m == n {
        if i >= 0 {
            assert(set[i].0 == m);
            if ps >= 0 && ps < i {
                assert(set[ps] == attrs[ps]);
            }
            if ps > i {
                assert(set[i].0 == m);
            }
        } else {
            assert(set[attrs.len() as int].0 == m);
            if ps >= 0 && ps < attrs.len() {
                assert(set[ps] == attrs[ps]);
            }
        }
    } else {
        // the set list: same names where they were
        if p >= 0 {
            assert(set[p] == attrs[p]);
            if ps >= 0 && ps < p {
                assert(set[ps].0 == attrs[ps].0);
            }
            if ps == -1 {
                assert(set[p].0 == m);
            }
            if ps > p {
                assert(set[p].0 == m);
            }
        } else {
            if ps >= 0 {
                if ps < attrs.len() {
                    assert(set[ps].0 == attrs[ps].0);
                } else {
                    assert(set[ps].0 == n);
                }
            }
        }
        // the list without the first attribute named `n`
        if i >= 0 {
            if p >= 0 {
                let q = if p < i { p } else { p - 1 };
                assert(rem[q] == attrs[p]);
                if pr >= 0 && pr < q {
                    let o = if pr < i { pr } else { pr + 1 };
                    assert(rem[pr] == attrs[o]);
                }
                if pr == -1 {
                    assert(rem[q].0 == m);
                }
                if pr > q {
                    assert(rem[q].0 == m);
                }
            } else {
                if pr >= 0 {
                    let o = if pr < i { pr } else { pr + 1 };
                    assert(rem[pr] == attrs[o]);
                }
            }
        }
    }
}

/// Handling the attribute `n` leaves every other attribute as it was.
proof fn lemma_edited_other(
    st: (Seq<(Seq<char>, Seq<char>)>, bool, Seq<Seq<char>>),
    can: bool,
    n: Seq<char>,
    url: Seq<char>,
    encoding: Seq<char>,
    origin: Seq<char>,
    m: Seq<char>,
)
    requires
        m != n,
    ensures
        attribute_lookup(attribute_edited(st, can, n, url, encoding, origin).0, m) == attribute_lookup(st.0, m),
{
    reveal(attribute_edited);
    match attribute_lookup(st.0, n) {
        None => {},
        Some(value) => match attribute_edit(n, value, url, encoding, origin) {
            AttributeEdit::SetTo(v) => lemma_lookup_after_change(st.0, n, v, m),
            _ => lemma_lookup_after_change(st.0, n, Seq::empty(), m),
        },
    }
}

/// Handling the attribute `n` that has the value `v` gives it the value
/// that `attribute_edit` names, or removes the element.
proof fn lemma_edited_self(
    st: (Seq<(Seq<char>, Seq<char>)>, bool, Seq<Seq<char>>),
    can: bool,
    n: Seq<char>,
    url: Seq<char>,
    encoding: Seq<char>,
    origin: Seq<char>,
    v: Seq<char>,
)
    requires
        attribute_lookup(st.0, n) == Some(v),
    ensures
        attribute_edit(n, v, url, encoding, origin) matches AttributeEdit::SetTo(w) ==> attribute_lookup(
            attribute_edited(st, can, n, url, encoding, origin).0,
            n,
        ) == Some(w),
        attribute_edit(n, v, url, encoding, origin) is RemoveElement ==> attribute_edited(st, can, n, url, encoding, origin).1,
{
    reveal(attribute_edited);
    match attribute_edit(n, v, url, encoding, origin) {
        AttributeEdit::SetTo(w) => lemma_lookup_after_change(st.0, n, w, n),
        _ => {},
    }
}

/// What the HTML rewriter does to the attributes of an element (which the
/// element's other attributes do not change): an `src`, `href` or `action`
/// attribute becomes the proxied link of its value, `srcset` its proxied
/// candidates, `style` the rewritten CSS and `onclick` the rewritten script;
/// an element with a content security policy `http-equiv` is removed.
pub proof fn lemma_element_attributes(
    tag: Seq<char>,
    attrs: Seq<(Seq<char>, Seq<char>)>,
    removed: bool,
    can: bool,
    inserted: Seq<Seq<char>>,
    url: Seq<char>,
    encoding: Seq<char>,
    origin: Seq<char>,
    client_js: Seq<char>,
    name: Seq<char>,
    value: Seq<char>,
)
    requires
        attribute_lookup(attrs, name) == Some(value),
    ensures
        ({
            let after = element_edited(tag, attrs, removed, can, inserted, url, encoding, origin, client_js);
            &&& (name == "src"@ || name == "href"@ || name == "action"@) ==> attribute_lookup(after.0, name) == Some(
                rewritten_link(value, origin, encoding),
            )
            &&& name == "srcset"@ ==> attribute_lookup(after.0, name) == Some(rewritten_srcset(value, origin, encoding))
            &&& name == "style"@ ==> attribute_lookup(after.0, name) == Some(rewritten_css(value, origin, encoding))
            &&& name == "onclick"@ ==> attribute_lookup(after.0, name) == Some(rewritten_js(url, value))
            &&& name == "http-equiv"@ && crate::text::contains(value, "content-security-policy"@) ==> after.1
        }),
{
    lemma_attribute_names_differ();
    let names = seq!["http-equiv"@, "integrity"@, "nonce"@, "data-jsarwt"@, "src"@, "href"@, "action"@, "srcset"@, "style"@, "onclick"@];
    let t0 = (attrs, removed, if tag == "head"@ && can {
        seq!["<script>"@ + client_js + "</script>"@] + inserted
    } else {
        inserted
    });
    let t1 = attribute_edited(t0, can, "http-equiv"@, url, encoding, origin);
    let t2 = attribute_edited(t1, can, "integrity"@, url, encoding, origin);
    let t3 = attribute_edited(t2, can, "nonce"@, url, encoding, origin);
    let t4 = attribute_edited(t3, can, "data-jsarwt"@, url, encoding, origin);
    let t5 = attribute_edited(t4, can, "src"@, url, encoding, origin);
    let t6 = attribute_edited(t5, can, "href"@, url, encoding, origin);
    let t7 = attribute_edited(t6, can, "action"@, url, encoding, origin);
    let t8 = attribute_edited(t7, can, "srcset"@, url, encoding, origin);
    let t9 = attribute_edited(t8, can, "style"@, url, encoding, origin);
    let t10 = attribute_edited(t9, can, "onclick"@, url, encoding, origin);
    if name == "src"@ || name == "href"@ || name == "action"@ || name == "srcset"@ || name == "style"@
        || name == "onclick"@ {
        if name != "http-equiv"@ { lemma_edited_other(t0, can, "http-equiv"@, url, encoding, origin, name); }
        lemma_edited_other(t1, can, "integrity"@, url, encoding, origin, name);
        lemma_edited_other(t2, can, "nonce"@, url, encoding, origin, name);
        lemma_edited_other(t3, can, "data-jsarwt"@, url, encoding, origin, name);
        if name != "src"@ { lemma_edited_other(t4, can, "src"@, url, encoding, origin, name); }
        if name != "href"@ { lemma_edited_other(t5, can, "href"@, url, encoding, origin, name); }
        if name != "action"@ { lemma_edited_other(t6, can, "action"@, url, encoding, origin, name); }
        if name != "srcset"@ { lemma_edited_other(t7, can, "srcset"@, url, encoding, origin, name); }
        if name != "style"@ { lemma_edited_other(t8, can, "style"@, url, encoding, origin, name); }
        if name != "onclick"@ { lemma_edited_other(t9, can, "onclick"@, url, encoding, origin, name); }
        let before = if name == "src"@ { t4 } else if name == "href"@ { t5 } else if name == "action"@ { t6 }
            else if name == "srcset"@ { t7 } else if name == "style"@ { t8 } else { t9 };
        assert(attribute_lookup(before.0, name) == Some(value));
        lemma_edited_self(before, can, name, url, encoding, origin, value);
    }
    if name == "http-equiv"@ {
        lemma_edited_self(t0, can, name, url, encoding, origin, value);
        assert forall|st: (Seq<(Seq<char>, Seq<char>)>, bool, Seq<Seq<char>>), n: Seq<char>|
            st.1 implies #[trigger] attribute_edited(st, can, n, url, encoding, origin).1 by {
            reveal(attribute_edited);
        }
    }
}

/// No two attributes of the list are named `n`.
pub open spec fn single_attribute(attrs: Seq<(Seq<char>, Seq<char>)>, n: Seq<char>) -> bool {
    forall|j: int, k: int|
        0 <= j < attrs.len() && 0 <= k < attrs.len() && #[trigger] attrs[j].0 == n && #[trigger] attrs[k].0 == n ==> j == k
}

/// Handling another attribute keeps `n` single, and keeps the removal flag
/// and the inserted HTML unless it removed the element.
proof fn lemma_other_keeps(
    st: (Seq<(Seq<char>, Seq<char>)>, bool, Seq<Seq<char>>),
    can: bool,
    m: Seq<char>,
    url: Seq<char>,
    encoding: Seq<char>,
    origin: Seq<char>,
    n: Seq<char>,
)
    requires
        m != n,
    ensures
        single_attribute(st.0, n) ==> single_attribute(attribute_edited(st, can, m, url, encoding, origin).0, n),
        m != "http-equiv"@ ==> attribute_edited(st, can, m, url, encoding, origin).1 == st.1
            && attribute_edited(st, can, m, url, encoding, origin).2 == st.2,
{
    reveal(attribute_edited);
    lemma_attribute_index(st.0, m);
    let x = st.0;
    let y = attribute_edited(st, can, m, url, encoding, origin).0;
    if single_attribute(x, n) {
        let i = attribute_index(x, m);
        assert forall|j: int, k: int|
            0 <= j < y.len() && 0 <= k < y.len() && #[trigger] y[j].0 == n && #[trigger] y[k].0 == n implies j == k by {
            if y.len() == x.len() + 1 {
                assert(y[j] == x[j] || j == x.len());
                assert(y[k] == x[k] || k == x.len());
            } else if y.len() + 1 == x.len() {
                let jj = if j < i { j } else { j + 1 };
                let kk = if k < i { k } else { k + 1 };
                assert(y[j] == x[jj]);
                assert(y[k] == x[kk]);
            } else if y != x {
                assert(y[j] == x[j]);
                assert(y[k] == x[k]);
            }
        }
    }
}

/// After the only attribute named `n` is removed, none is left.
proof fn lemma_single_removed(attrs: Seq<(Seq<char>, Seq<char>)>, n: Seq<char>)
    requires
        single_attribute(attrs, n),
    ensures
        attribute_lookup(attribute_remove(attrs, n), n) is None,
{
    lemma_attribute_index(attrs, n);
    let i = attribute_index(attrs, n);
    let r = attribute_remove(attrs, n);
    lemma_attribute_index(r, n);
    if i >= 0 {
        let p = attribute_index(r, n);
        if p >= 0 {
            let q = if p < i { p } else { p + 1 };
            assert(r[p] == attrs[q]);
            assert(attrs[q].0 == n && attrs[i].0 == n);
        }
    }
}

/// What else the HTML rewriter does to an element: an `integrity`, `nonce` or
/// `data-jsarwt` attribute (given once) is removed; an attribute that the
/// proxy does not handle keeps its value; and unless a content security
/// policy `http-equiv` removes the element, the element stays as removed as
/// it was and a `head` that can have content gets the client script first.
pub proof fn lemma_element_other_edits(
    tag: Seq<char>,
    attrs: Seq<(Seq<char>, Seq<char>)>,
    removed: bool,
    can: bool,
    inserted: Seq<Seq<char>>,
    url: Seq<char>,
    encoding: Seq<char>,
    origin: Seq<char>,
    client_js: Seq<char>,
    name: Seq<char>,
)
    ensures
        ({
            let after = element_edited(tag, attrs, removed, can, inserted, url, encoding, origin, client_js);
            &&& (name == "integrity"@ || name == "nonce"@ || name == "data-jsarwt"@) && single_attribute(attrs, name)
                ==> attribute_lookup(after.0, name) is None
            &&& !(name == "http-equiv"@ || name == "integrity"@ || name == "nonce"@ || name == "data-jsarwt"@
                || name == "src"@ || name == "href"@ || name == "action"@ || name == "srcset"@ || name == "style"@
                || name == "onclick"@) ==> attribute_lookup(after.0, name) == attribute_lookup(attrs, name)
            &&& (match attribute_lookup(attrs, "http-equiv"@) {
                Some(v) => !crate::text::contains(v, "content-security-policy"@),
                None => true,
            }) ==> after.1 == removed && after.2 == if tag == "head"@ && can {
                seq!["<script>"@ + client_js + "</script>"@] + inserted
            } else {
                inserted
            }
        }),
{
    lemma_attribute_names_differ();
    let u0 = (attrs, removed, if tag == "head"@ && can {
        seq!["<script>"@ + client_js + "</script>"@] + inserted
    } else {
        inserted
    });
    let u1 = attribute_edited(u0, can, "http-equiv"@, url, encoding, origin);
    let u2 = attribute_edited(u1, can, "integrity"@, url, encoding, origin);
    let u3 = attribute_edited(u2, can, "nonce"@, url, encoding, origin);
    let u4 = attribute_edited(u3, can, "data-jsarwt"@, url, encoding, origin);
    let u5 = attribute_edited(u4, can, "src"@, url, encoding, origin);
    let u6 = attribute_edited(u5, can, "href"@, url, encoding, origin);
    let u7 = attribute_edited(u6, can, "action"@, url, encoding, origin);
    let u8 = attribute_edited(u7, can, "srcset"@, url, encoding, origin);
    let u9 = attribute_edited(u8, can, "style"@, url, encoding, origin);
    let u10 = attribute_edited(u9, can, "onclick"@, url, encoding, origin);
    // the removal flag and the inserted HTML
    let hx = "http-equiv"@;
    lemma_other_keeps(u1, can, "integrity"@, url, encoding, origin, hx);
    lemma_other_keeps(u2, can, "nonce"@, url, encoding, origin, hx);
    lemma_other_keeps(u3, can, "data-jsarwt"@, url, encoding, origin, hx);
    lemma_other_keeps(u4, can, "src"@, url, encoding, origin, hx);
    lemma_other_keeps(u5, can, "href"@, url, encoding, origin, hx);
    lemma_other_keeps(u6, can, "action"@, url, encoding, origin, hx);
    lemma_other_keeps(u7, can, "srcset"@, url, encoding, origin, hx);
    lemma_other_keeps(u8, can, "style"@, url, encoding, origin, hx);
    lemma_other_keeps(u9, can, "onclick"@, url, encoding, origin, hx);
    assert(attribute_lookup(attrs, hx) matches Some(v) && !crate::text::contains(v, "content-security-policy"@)
        || attribute_lookup(attrs, hx) is None ==> u1 == u0) by {
        reveal(attribute_edited);
    }
    // attributes the proxy does not handle
    if !(name == "http-equiv"@ || name == "integrity"@ || name == "nonce"@ || name == "data-jsarwt"@
        || name == "src"@ || name == "href"@ || name == "action"@ || name == "srcset"@ || name == "style"@
        || name == "onclick"@) {
        lemma_edited_other(u0, can, "http-equiv"@, url, encoding, origin, name);
        lemma_edited_other(u1, can, "integrity"@, url, encoding, origin, name);
        lemma_edited_other(u2, can, "nonce"@, url, encoding, origin, name);
        lemma_edited_other(u3, can, "data-jsarwt"@, url, encoding, origin, name);
        lemma_edited_other(u4, can, "src"@, url, encoding, origin, name);
        lemma_edited_other(u5, can, "href"@, url, encoding, origin, name);
        lemma_edited_other(u6, can, "action"@, url, encoding, origin, name);
        lemma_edited_other(u7, can, "srcset"@, url, encoding, origin, name);
        lemma_edited_other(u8, can, "style"@, url, encoding, origin, name);
        lemma_edited_other(u9, can, "onclick"@, url, encoding, origin, name);
    }
    // the dropped attributes
    if (name == "integrity"@ || name == "nonce"@ || name == "data-jsarwt"@) && single_attribute(attrs, name) {
        lemma_other_keeps(u0, can, "http-equiv"@, url, encoding, origin, name);
        if name != "integrity"@ { lemma_other_keeps(u1, can, "integrity"@, url, encoding, origin, name); }
        if name != "nonce"@ { lemma_other_keeps(u2, can, "nonce"@, url, encoding, origin, name); }
        let before = if name == "integrity"@ { u1 } else if name == "nonce"@ { u2 } else { u3 };
        let gone = attribute_edited(before, can, name, url, encoding, origin);
        assert(single_attribute(before.0, name));
        assert(attribute_lookup(gone.0, name) is None) by {
            reveal(attribute_edited);
            lemma_single_removed(before.0, name);
        }
        if name != "nonce"@ { if name == "integrity"@ { lemma_edited_other(u2, can, "nonce"@, url, encoding, origin, name); } }
        if name != "data-jsarwt"@ { lemma_edited_other(u3, can, "data-jsarwt"@, url, encoding, origin, name); }
        lemma_edited_other(u4, can, "src"@, url, encoding, origin, name);
        lemma_edited_other(u5, can, "href"@, url, encoding, origin, name);
        lemma_edited_other(u6, can, "action"@, url, encoding, origin, name);
        lemma_edited_other(u7, can, "srcset"@, url, encoding, origin, name);
        lemma_edited_other(u8, can, "style"@, url, encoding, origin, name);
        lemma_edited_other(u9, can, "onclick"@, url, encoding, origin, name);
    }
}

} // verus!
