//! Calls into std and into outside crates whose behaviour is taken on trust.

use vstd::prelude::*;
use base64::Engine;
use lol_html::{ElementContentHandlers, RewriteStrSettings};
use std::borrow::Cow;
use crate::client::opt_view;
use crate::html::{ascii_lower, attribute_lookup, attribute_remove, attribute_set, valid_attribute_name};

verus! {

/// Calls `String::push`.
/// Claimed, as std documents it: the character is appended at the end.
#[verifier::external_body]
pub(crate) fn push_char(s: &mut String, c: char)
    ensures
        final(s)@ == old(s)@.push(c),
{
    s.push(c);
}

/// The base64 digit for the six bits `v` (RFC 4648): `A`-`Z`, `a`-`z`,
/// `0`-`9`, then `+` and `/`, or `-` and `_` in the URL-safe alphabet.
pub open spec fn base64_digit(v: int, url_safe: bool) -> char {
    if v < 26 {
        (65 + v) as char
    } else if v < 52 {
        (97 + v - 26) as char
    } else if v < 62 {
        (48 + v - 52) as char
    } else if v == 62 {
        if url_safe { '-' } else { '+' }
    } else {
        if url_safe { '_' } else { '/' }
    }
}

/// Base64 of bytes (RFC 4648): each three bytes become four digits; a last
/// one or two bytes become two or three digits, filled up with `=` to four
/// where `pad` is set.
pub open spec fn base64_text(b: Seq<u8>, url_safe: bool, pad: bool) -> Seq<char>
    decreases b.len(),
{
    if b.len() == 0 {
        Seq::empty()
    } else if b.len() == 1 {
        seq![base64_digit((b[0] as int) / 4, url_safe), base64_digit(((b[0] as int) % 4) * 16, url_safe)]
            + if pad { seq!['=', '='] } else { Seq::empty() }
    } else if b.len() == 2 {
        seq![
            base64_digit((b[0] as int) / 4, url_safe),
            base64_digit(((b[0] as int) % 4) * 16 + (b[1] as int) / 16, url_safe),
            base64_digit(((b[1] as int) % 16) * 4, url_safe),
        ] + if pad { seq!['='] } else { Seq::empty() }
    } else {
        seq![
            base64_digit((b[0] as int) / 4, url_safe),
            base64_digit(((b[0] as int) % 4) * 16 + (b[1] as int) / 16, url_safe),
            base64_digit(((b[1] as int) % 16) * 4 + (b[2] as int) / 64, url_safe),
            base64_digit((b[2] as int) % 64, url_safe),
        ] + base64_text(b.skip(3), url_safe, pad)
    }
}

/// A character of base64 text: a digit of either alphabet, or `=`.
pub open spec fn base64_char(c: char) -> bool {
    ||| 'A' <= c <= 'Z'
    ||| 'a' <= c <= 'z'
    ||| '0' <= c <= '9'
    ||| c == '+' || c == '/' || c == '-' || c == '_' || c == '='
}

/// Base64 text is made of base64 characters only.
pub proof fn lemma_base64_chars(b: Seq<u8>, url_safe: bool, pad: bool)
    ensures
        forall|i: int| 0 <= i < base64_text(b, url_safe, pad).len() ==> base64_char(
            #[trigger] base64_text(b, url_safe, pad)[i],
        ),
    decreases b.len(),
{
    assert forall|v: int| 0 <= v < 64 implies base64_char(#[trigger] base64_digit(v, url_safe)) by {
        if v < 26 {
            assert((65 + v) as char as int == 65 + v);
        } else if v < 52 {
            assert((97 + v - 26) as char as int == 97 + v - 26);
        } else if v < 62 {
            assert((48 + v - 52) as char as int == 48 + v - 52);
        }
    }
    let t = base64_text(b, url_safe, pad);
    if b.len() >= 3 {
        lemma_base64_chars(b.skip(3), url_safe, pad);
    }
    assert forall|i: int| 0 <= i < t.len() implies base64_char(#[trigger] t[i]) by {
        if b.len() >= 3 && i >= 4 {
            assert(t[i] == base64_text(b.skip(3), url_safe, pad)[i - 4]);
        }
    }
}

/// What `base64::encode` (the standard alphabet, with padding) makes of the
/// UTF-8 bytes of a text.
pub open spec fn base64_standard(text: Seq<char>) -> Seq<char> {
    base64_text(vstd::utf8::encode_utf8(text), false, true)
}

/// Calls `base64::encode` on the UTF-8 bytes of `text`.
/// Claimed: the result is `base64_standard` of the text (RFC 4648).
/// The call panics only when the encoded length overflows `usize`, which no
/// string that fits in memory reaches.
#[verifier::external_body]
#[allow(deprecated)]
pub(crate) fn encode_base64_standard(text: &str) -> (res: String)
    ensures
        res@ == base64_standard(text@),
{
    base64::encode(text)
}

/// What base64 with the URL-safe alphabet and no padding makes of the UTF-8
/// bytes of a text.
pub open spec fn base64_url_encoded(text: Seq<char>) -> Seq<char> {
    base64_text(vstd::utf8::encode_utf8(text), true, false)
}

/// What decoding a text as base64 with the URL-safe alphabet and no padding
/// gives: `None` where the text is not such base64.
pub uninterp spec fn base64_url_decoded(text: Seq<char>) -> Option<Seq<u8>>;

/// Calls `Engine::encode` of a `base64` engine with the URL-safe alphabet and
/// no padding on the UTF-8 bytes of `text`.
/// Claimed: the result is `base64_url_encoded` of the text (RFC 4648), and
/// decoding it with the same engine gives back the UTF-8 bytes of `text` (the engine writes no
/// padding and zero trailing bits, which its decoder requires). The call
/// panics only when the encoded length overflows `usize`, which no string
/// that fits in memory reaches.
#[verifier::external_body]
pub(crate) fn encode_base64_url(text: &str) -> (res: String)
    ensures
        res@ == base64_url_encoded(text@),
        base64_url_decoded(res@) == Some(vstd::utf8::encode_utf8(text@)),
{
    base64::engine::GeneralPurpose::new(
        &base64::alphabet::URL_SAFE,
        base64::engine::general_purpose::NO_PAD,
    ).encode(text)
}

/// Calls `Engine::decode` of a `base64` engine with the URL-safe alphabet and
/// no padding on the UTF-8 bytes of `text`; a decoding error becomes `None`.
/// Claimed: the result is a function of `text` alone.
#[verifier::external_body]
pub(crate) fn decode_base64_url(text: &str) -> (res: Option<Vec<u8>>)
    ensures
        res matches Some(b) ==> base64_url_decoded(text@) == Some(b@),
        res is None ==> base64_url_decoded(text@) is None,
{
    base64::engine::GeneralPurpose::new(
        &base64::alphabet::URL_SAFE,
        base64::engine::general_purpose::NO_PAD,
    ).decode(text).ok()
}

/// Calls `String::from_utf8`; an error becomes `None`.
/// Claimed, as std documents it: the bytes are accepted exactly when they are
/// valid UTF-8, and the string holds the characters they encode.
#[verifier::external_body]
pub(crate) fn utf8_string(bytes: Vec<u8>) -> (res: Option<String>)
    ensures
        res is Some <==> vstd::utf8::valid_utf8(bytes@),
        res matches Some(s) ==> s@ == vstd::utf8::decode_utf8(bytes@),
{
    String::from_utf8(bytes).ok()
}

/// The serialization of the URL that `url::Url::parse` makes of a text, or
/// `None` where the text does not parse.
pub uninterp spec fn parsed_url(text: Seq<char>) -> Option<Seq<char>>;

/// The serialization of the URL parsed from `text` after its query was set to
/// `query` with `Url::set_query`.
pub uninterp spec fn url_with_query(text: Seq<char>, query: Seq<char>) -> Seq<char>;

/// The ASCII serialization of the origin of the URL parsed from a text.
pub uninterp spec fn url_origin(text: Seq<char>) -> Seq<char>;

/// The host of the URL parsed from a text, or `None` where the text does not
/// parse or the URL has no host.
pub uninterp spec fn url_host(text: Seq<char>) -> Option<Seq<char>>;

/// The serialization of the URL parsed from `text` after its query was
/// cleared and the pairs appended in `application/x-www-form-urlencoded` form.
pub uninterp spec fn url_with_pairs(text: Seq<char>, pairs: Seq<(Seq<char>, Seq<char>)>) -> Seq<char>;

/// Calls `Url::parse` (`reqwest::Url`) and turns the URL into its
/// serialization.
/// Claimed: the result is a function of `text` alone.
#[verifier::external_body]
pub(crate) fn parse_url(text: &str) -> (res: Option<String>)
    ensures
        res matches Some(s) ==> parsed_url(text@) == Some(s@),
        res is None ==> parsed_url(text@) is None,
{
    reqwest::Url::parse(text).ok().map(String::from)
}

/// The most characters that the texts of a URL edit may have together. The
/// url crate panics (`to_u32(..).unwrap()`) where a serialization passes
/// `u32::MAX` bytes. A character is at most 4 bytes of UTF-8; percent-encoding
/// makes at most 3 bytes of one, and a host label's IDNA mapping and punycode
/// at most 18 code points of up to 10 ASCII digits each, so no character
/// grows past 256 bytes, and 2^23 characters stay below 2^31 bytes.
/// Requests reach the proxy through `http::Uri`, which refuses a URI of more
/// than 65534 bytes, so no address and query of a request come near it.
pub open spec fn url_edit_limit() -> int {
    URL_EDIT_LIMIT as int
}

/// `url_edit_limit` for executable code.
pub const URL_EDIT_LIMIT: usize = 0x80_0000;

/// The characters that query pairs add to a URL: keys, values, and a `=`
/// and a `&` for each pair.
pub open spec fn pairs_size(pairs: Seq<(Seq<char>, Seq<char>)>) -> int
    decreases pairs.len(),
{
    if pairs.len() == 0 {
        0
    } else {
        pairs_size(pairs.drop_last()) + pairs.last().0.len() + pairs.last().1.len() + 2
    }
}

/// Parses `text` with `Url::parse`, calls `Url::set_query` with `query`, and
/// gives the serialization.
/// Claimed: the result is a function of the two texts alone. The texts are
/// bounded so that the serialization stays below `u32::MAX` bytes, past
/// which the url crate panics.
#[verifier::external_body]
pub(crate) fn set_url_query(text: &str, query: &str) -> (res: String)
    requires
        parsed_url(text@) is Some,
        text@.len() + query@.len() <= url_edit_limit(),
    ensures
        res@ == url_with_query(text@, query@),
{
    let mut url = reqwest::Url::parse(text).unwrap();
    url.set_query(Some(query));
    String::from(url)
}

/// Parses `text` with `Url::parse` and gives `Origin::ascii_serialization` of
/// `Url::origin`.
/// Claimed: the result is a function of `text` alone.
#[verifier::external_body]
pub(crate) fn origin_of(text: &str) -> (res: String)
    requires
        parsed_url(text@) is Some,
    ensures
        res@ == url_origin(text@),
{
    reqwest::Url::parse(text).unwrap().origin().ascii_serialization()
}

/// Parses `text` with `Url::parse` and gives `Url::host_str`.
/// Claimed: the result is a function of `text` alone.
#[verifier::external_body]
pub(crate) fn host_of(text: &str) -> (res: Option<String>)
    ensures
        res matches Some(h) ==> url_host(text@) == Some(h@),
        res is None ==> url_host(text@) is None,
{
    match reqwest::Url::parse(text) {
        Ok(url) => url.host_str().map(String::from),
        Err(_) => None,
    }
}

/// Parses `text` with `Url::parse`, clears the query with
/// `Url::query_pairs_mut` and appends the pairs in order, and gives the
/// serialization.
/// Claimed: the result is a function of the text and the pairs alone. The
/// texts are bounded so that the serialization stays below `u32::MAX` bytes,
/// past which the url crate panics.
#[verifier::external_body]
pub(crate) fn set_url_pairs(text: &str, pairs: &Vec<(String, String)>) -> (res: String)
    requires
        parsed_url(text@) is Some,
        text@.len() + pairs_size(pairs@.map_values(|p: (String, String)| (p.0@, p.1@))) <= url_edit_limit(),
    ensures
        res@ == url_with_pairs(text@, pairs@.map_values(|p: (String, String)| (p.0@, p.1@))),
{
    let mut url = reqwest::Url::parse(text).unwrap();
    url.query_pairs_mut().clear().extend_pairs(pairs.iter());
    String::from(url)
}

/// An element that lol_html hands to a rewriting handler.
#[verifier::external_type_specification]
#[verifier::external_body]
pub struct ExElement<'r, 't>(lol_html::html_content::Element<'r, 't>);

/// A chunk of text that lol_html hands to a rewriting handler.
#[verifier::external_type_specification]
#[verifier::external_body]
pub struct ExTextChunk<'i>(lol_html::html_content::TextChunk<'i>);

/// What verified code sees of an element that lol_html hands to a handler:
/// its tag name (lower case); its attributes in order, each as its lower-case
/// name and its value; whether it is removed; whether it can have content;
/// the HTML inserted at the start of its content, the latest insertion first;
/// and whether the document's encoding is UTF-8, so that texts written into
/// the element read back as they were written.
pub uninterp spec fn element_view(el: lol_html::html_content::Element) -> (
    Seq<char>,
    Seq<(Seq<char>, Seq<char>)>,
    bool,
    bool,
    Seq<Seq<char>>,
    bool,
);

/// What verified code sees of a chunk of text that lol_html hands to a
/// handler: its text, the HTML that replaces it (if it was replaced), and
/// whether the document's encoding is UTF-8.
pub uninterp spec fn chunk_view(t: lol_html::html_content::TextChunk) -> (Seq<char>, Option<Seq<char>>, bool);

/// Calls `Element::tag_name`.
/// Claimed: the result is the element's (lower-case) tag name.
#[verifier::external_body]
pub(crate) fn element_tag(el: &lol_html::html_content::Element) -> (res: String)
    ensures
        res@ == element_view(*el).0,
{
    el.tag_name()
}

/// Calls `Element::get_attribute`.
/// Claimed, as the source shows: the value of the first attribute whose name
/// is the ASCII lower case of `name`, `None` where there is none.
#[verifier::external_body]
pub(crate) fn element_attribute(el: &lol_html::html_content::Element, name: &str) -> (res: Option<String>)
    ensures
        opt_view(res) == attribute_lookup(element_view(*el).1, ascii_lower(name@)),
{
    el.get_attribute(name)
}

/// Calls `Element::set_attribute`; an error leaves nothing to report.
/// Claimed, as the source shows: nothing but the attributes changes; for a
/// valid attribute name in a UTF-8 document, the first attribute with the
/// lower-cased name gets the value, or a new attribute with that name and
/// value is added at the end. Nothing is claimed of other names or encodings.
#[verifier::external_body]
pub(crate) fn set_element_attribute(el: &mut lol_html::html_content::Element, name: &str, value: &str)
    ensures
        element_view(*final(el)).0 == element_view(*old(el)).0,
        element_view(*final(el)).2 == element_view(*old(el)).2,
        element_view(*final(el)).3 == element_view(*old(el)).3,
        element_view(*final(el)).4 == element_view(*old(el)).4,
        element_view(*final(el)).5 == element_view(*old(el)).5,
        element_view(*old(el)).5 && valid_attribute_name(name@) ==> element_view(*final(el)).1 == attribute_set(
            element_view(*old(el)).1,
            ascii_lower(name@),
            value@,
        ),
{
    let _ = el.set_attribute(name, value);
}

/// Calls `Element::remove_attribute`.
/// Claimed, as the source shows: the first attribute whose name is the ASCII
/// lower case of `name` goes, and nothing else changes.
#[verifier::external_body]
pub(crate) fn remove_element_attribute(el: &mut lol_html::html_content::Element, name: &str)
    ensures
        element_view(*final(el)).0 == element_view(*old(el)).0,
        element_view(*final(el)).1 == attribute_remove(element_view(*old(el)).1, ascii_lower(name@)),
        element_view(*final(el)).2 == element_view(*old(el)).2,
        element_view(*final(el)).3 == element_view(*old(el)).3,
        element_view(*final(el)).4 == element_view(*old(el)).4,
        element_view(*final(el)).5 == element_view(*old(el)).5,
{
    el.remove_attribute(name);
}

/// Calls `Element::remove`.
/// Claimed, as the source shows: the element is removed, and the content
/// inserted at the start of its content is dropped where it can have content;
/// nothing else changes.
#[verifier::external_body]
pub(crate) fn remove_element(el: &mut lol_html::html_content::Element)
    ensures
        element_view(*final(el)).0 == element_view(*old(el)).0,
        element_view(*final(el)).1 == element_view(*old(el)).1,
        element_view(*final(el)).2,
        element_view(*final(el)).3 == element_view(*old(el)).3,
        element_view(*final(el)).4 == if element_view(*old(el)).3 {
            Seq::<Seq<char>>::empty()
        } else {
            element_view(*old(el)).4
        },
        element_view(*final(el)).5 == element_view(*old(el)).5,
{
    el.remove();
}

/// Calls `Element::prepend` with HTML content.
/// Claimed, as the source shows: where the element can have content, the
/// HTML goes first in its content (in a UTF-8 document, as written); nothing
/// else changes.
#[verifier::external_body]
pub(crate) fn prepend_html(el: &mut lol_html::html_content::Element, content: &str)
    ensures
        element_view(*final(el)).0 == element_view(*old(el)).0,
        element_view(*final(el)).1 == element_view(*old(el)).1,
        element_view(*final(el)).2 == element_view(*old(el)).2,
        element_view(*final(el)).3 == element_view(*old(el)).3,
        !element_view(*old(el)).3 ==> element_view(*final(el)).4 == element_view(*old(el)).4,
        element_view(*old(el)).3 && element_view(*old(el)).5 ==> element_view(*final(el)).4 == seq![content@]
            + element_view(*old(el)).4,
        element_view(*final(el)).5 == element_view(*old(el)).5,
{
    el.prepend(content, lol_html::html_content::ContentType::Html);
}

/// Calls `TextChunk::as_str`.
/// Claimed: the result is the chunk's text.
#[verifier::external_body]
pub(crate) fn chunk_text(t: &lol_html::html_content::TextChunk) -> (res: String)
    ensures
        res@ == chunk_view(*t).0,
{
    t.as_str().to_string()
}

/// Calls `TextChunk::replace` with HTML content.
/// Claimed, as the source shows: the chunk's text stays as it was read, and
/// in a UTF-8 document the chunk is replaced by exactly this HTML.
#[verifier::external_body]
pub(crate) fn replace_chunk(t: &mut lol_html::html_content::TextChunk, content: &str)
    ensures
        chunk_view(*final(t)).0 == chunk_view(*old(t)).0,
        chunk_view(*final(t)).2 == chunk_view(*old(t)).2,
        chunk_view(*old(t)).2 ==> chunk_view(*final(t)).1 == Some(content@),
{
    t.replace(content, lol_html::html_content::ContentType::Html);
}

/// What lol_html makes of an HTML page in UTF-8 where every element that
/// matches the selector `elements` is edited by `html::edit_element`, and the
/// text of every element that matches `styles` by `html::edit_style_text`
/// and of every element that matches `scripts` by `html::edit_script_text`;
/// `None` where a selector does not parse or lol_html reports an error.
pub uninterp spec fn rewritten_html(
    page: Seq<char>,
    url: Seq<char>,
    encoding: Seq<char>,
    origin: Seq<char>,
    client_js: Seq<char>,
    elements: Seq<char>,
    styles: Seq<char>,
    scripts: Seq<char>,
) -> Option<Seq<char>>;

/// Calls `lol_html::rewrite_str` with three handlers, for elements matching
/// `elements` and for the text of elements matching `styles` and `scripts`,
/// each of which only calls a verified function of this library.
/// Claimed: the result is a function of the eight texts alone.
#[verifier::external_body]
pub(crate) fn rewrite_html(
    page: &str,
    url: &str,
    encoding: &str,
    origin: &str,
    client_js: &str,
    elements: &str,
    styles: &str,
    scripts: &str,
) -> (res: Option<String>)
    ensures
        res matches Some(r) ==> rewritten_html(page@, url@, encoding@, origin@, client_js@, elements@, styles@, scripts@)
            == Some(r@),
        res is None ==> rewritten_html(page@, url@, encoding@, origin@, client_js@, elements@, styles@, scripts@) is None,
{
    let handlers = vec![
        (Cow::Owned(elements.parse().ok()?), ElementContentHandlers::default().element(|el| {
            crate::html::edit_element(el, url, encoding, origin, client_js); Ok(()) })),
        (Cow::Owned(styles.parse().ok()?), ElementContentHandlers::default().text(|t| {
            crate::html::edit_style_text(t, encoding, origin); Ok(()) })),
        (Cow::Owned(scripts.parse().ok()?), ElementContentHandlers::default().text(|t| {
            crate::html::edit_script_text(t, url); Ok(()) })),
    ];
    let settings = RewriteStrSettings { element_content_handlers: handlers, ..RewriteStrSettings::default() };
    lol_html::rewrite_str(page, settings).ok()
}

} // verus!
