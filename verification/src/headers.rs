//! HTTP headers as the proxy passes them on. A header list is the sequence of
//! `(name, value)` entries in the order a header map yields them; names are
//! lower case, as `http` keeps them.

use vstd::prelude::*;
use crate::text::{chars_of, equals, starts_with, string_of};
use vstd::slice::slice_to_vec;

verus! {

/// A header list as names and value bytes.
pub open spec fn header_views(h: Seq<(String, Vec<u8>)>) -> Seq<(Seq<char>, Seq<u8>)> {
    h.map_values(|e: (String, Vec<u8>)| (e.0@, e.1@))
}

/// A byte that `http` accepts in a header value (`HeaderValue::from_str`).
pub open spec fn header_value_byte(b: u8) -> bool {
    (b >= 32 && b != 127) || b == 9
}

/// Bytes that `http` accepts as a header value.
pub open spec fn valid_header_value(v: Seq<u8>) -> bool {
    forall|i: int| 0 <= i < v.len() ==> header_value_byte(#[trigger] v[i])
}

/// Whether `http` accepts the bytes as a header value.
pub fn is_valid_header_value(v: &[u8]) -> (r: bool)
    ensures
        r == valid_header_value(v@),
{
    let mut i: usize = 0;
    while i < v.len()
        invariant
            i <= v@.len(),
            forall|j: int| 0 <= j < i ==> header_value_byte(#[trigger] v@[j]),
        decreases v@.len() - i,
    {
        let b = v[i];
        if !((b >= 32 && b != 127) || b == 9) {
            return false;
        }
        i = i + 1;
    }
    true
}

/// The position of the first entry named `k`, or -1.
pub open spec fn key_index(m: Seq<(Seq<char>, Seq<u8>)>, k: Seq<char>) -> int
    decreases m.len(),
{
    if m.len() == 0 {
        -1
    } else {
        let i = key_index(m.drop_last(), k);
        if i >= 0 {
            i
        } else if m.last().0 == k {
            m.len() - 1
        } else {
            -1
        }
    }
}

/// A found key lies inside the list and names that entry; a key that is not
/// found names no entry.
pub proof fn lemma_key_index(m: Seq<(Seq<char>, Seq<u8>)>, k: Seq<char>)
    ensures
        -1 <= key_index(m, k) < m.len(),
        key_index(m, k) >= 0 ==> m[key_index(m, k)].0 == k,
        key_index(m, k) >= 0 ==> forall|j: int| 0 <= j < key_index(m, k) ==> m[j].0 != k,
        key_index(m, k) == -1 ==> forall|j: int| 0 <= j < m.len() ==> m[j].0 != k,
    decreases m.len(),
{
    if m.len() > 0 {
        lemma_key_index(m.drop_last(), k);
        assert forall|j: int| 0 <= j < m.len() - 1 implies m.drop_last()[j] == m[j] by {}
    }
}

/// The list after `HeaderMap::insert`: the value of the first entry with the
/// name is replaced, or the entry is added at the end.
pub open spec fn header_insert(m: Seq<(Seq<char>, Seq<u8>)>, k: Seq<char>, v: Seq<u8>) -> Seq<(Seq<char>, Seq<u8>)> {
    let i = key_index(m, k);
    if i >= 0 {
        m.update(i, (k, v))
    } else {
        m.push((k, v))
    }
}

/// Inserts a header as `HeaderMap::insert` does on a list with distinct names.
pub fn insert_header(m: &mut Vec<(String, Vec<u8>)>, k: String, v: Vec<u8>)
    ensures
        header_views(final(m)@) == header_insert(header_views(old(m)@), k@, v@),
{
    let ghost before = header_views(m@);
    let mut j: usize = 0;
    while j < m.len()
        invariant
            j <= m@.len(),
            before == header_views(m@),
            before == header_views(old(m)@),
            forall|i: int| 0 <= i < j ==> m@[i].0@ != k@,
        decreases m@.len() - j,
    {
        if m[j].0 == k {
            proof {
                lemma_key_index(before, k@);
                assert(before[j as int].0 == k@);
                let ki = key_index(before, k@);
                if ki >= 0 && ki < j {
                    assert(before[ki].0 == m@[ki].0@);
                }
                assert(ki == j);
            }
            m.set(j, (k, v));
            assert(header_views(m@) =~= before.update(j as int, (k@, v@)));
            assert(before == header_views(old(m)@));
            assert(header_views(m@) == header_insert(before, k@, v@));
            return;
        }
        j = j + 1;
    }
    proof {
        lemma_key_index(before, k@);
        if key_index(before, k@) >= 0 {
            assert(before[key_index(before, k@)].0 == m@[key_index(before, k@)].0@);
        }
    }
    m.push((k, v));
    assert(header_views(m@) =~= before.push((k@, v@)));
}

/// A request header that the proxy never passes upstream.
pub open spec fn dropped_request_header(k: Seq<char>) -> bool {
    ||| k == "host"@
    ||| k == "accept-encoding"@
    ||| k == "forwarded"@
    ||| k == "x-forwarded-for"@
    ||| k == "x-forwarded-host"@
    ||| k == "x-forwarded-proto"@
    ||| k == "x-real-ip"@
    ||| k == "x-envoy-external-address"@
}

/// The request headers that the proxy sends upstream, built entry by entry
/// with `HeaderMap::insert`: dropped headers are left out, `origin` and
/// `referer` name the upstream origin (and are left out where the origin is
/// no valid header value), the rest are passed on.
pub open spec fn forwarded_headers(h: Seq<(Seq<char>, Seq<u8>)>, origin: Seq<char>) -> Seq<(Seq<char>, Seq<u8>)>
    decreases h.len(),
{
    if h.len() == 0 {
        Seq::empty()
    } else {
        let m = forwarded_headers(h.drop_last(), origin);
        let k = h.last().0;
        let o = vstd::utf8::encode_utf8(origin);
        if dropped_request_header(k) {
            m
        } else if k == "origin"@ || k == "referer"@ {
            if valid_header_value(o) {
                header_insert(m, k, o)
            } else {
                m
            }
        } else {
            header_insert(m, k, h.last().1)
        }
    }
}

fn is_dropped_request_header(k: &[char]) -> (r: bool)
    ensures
        r == dropped_request_header(k@),
{
    equals(k, &chars_of("host")) || equals(k, &chars_of("accept-encoding")) || equals(
        k,
        &chars_of("forwarded"),
    ) || equals(k, &chars_of("x-forwarded-for")) || equals(k, &chars_of("x-forwarded-host"))
        || equals(k, &chars_of("x-forwarded-proto")) || equals(k, &chars_of("x-real-ip"))
        || equals(k, &chars_of("x-envoy-external-address"))
}

/// The request headers to send upstream, for a request to `origin`.
pub fn get_headers(headers: &Vec<(String, Vec<u8>)>, origin: &str) -> (res: Vec<(String, Vec<u8>)>)
    ensures
        header_views(res@) == forwarded_headers(header_views(headers@), origin@),
        forall|k: Seq<char>|
            !(k == "host"@ || k == "accept-encoding"@ || k == "forwarded"@ || k == "x-forwarded-for"@
                || k == "x-forwarded-host"@ || k == "x-forwarded-proto"@ || k == "x-real-ip"@
                || k == "x-envoy-external-address"@ || k == "origin"@ || k == "referer"@)
                ==> #[trigger] first_value(header_views(res@), k) == last_header_value(header_views(headers@), k),
{
    let o = origin.as_bytes();
    let origin_ok = is_valid_header_value(o);
    let ghost h = header_views(headers@);
    let mut out: Vec<(String, Vec<u8>)> = Vec::new();
    let mut k: usize = 0;
    while k < headers.len()
        invariant
            k <= headers@.len(),
            h == header_views(headers@),
            o@ == vstd::utf8::encode_utf8(origin@),
            origin_ok == valid_header_value(o@),
            header_views(out@) == forwarded_headers(h.take(k as int), origin@),
        decreases headers@.len() - k,
    {
        assert(h.take(k + 1).drop_last() =~= h.take(k as int));
        assert(h.take(k + 1).last() == h[k as int]);
        let name = chars_of(headers[k].0.as_str());
        if is_dropped_request_header(&name) {
        } else if equals(&name, &chars_of("origin")) || equals(&name, &chars_of("referer")) {
            if origin_ok {
                insert_header(&mut out, headers[k].0.clone(), slice_to_vec(o));
            }
        } else {
            insert_header(&mut out, headers[k].0.clone(), slice_to_vec(headers[k].1.as_slice()));
        }
        k = k + 1;
    }
    assert(h.take(k as int) =~= h);
    assert forall|n: Seq<char>|
        !(n == "host"@ || n == "accept-encoding"@ || n == "forwarded"@ || n == "x-forwarded-for"@
            || n == "x-forwarded-host"@ || n == "x-forwarded-proto"@ || n == "x-real-ip"@
            || n == "x-envoy-external-address"@ || n == "origin"@ || n == "referer"@)
            implies #[trigger] first_value(header_views(out@), n) == last_header_value(h, n) by {
        lemma_forwarded_header_values(h, origin@, n);
    }
    out
}

/// A response header that the proxy removes before answering.
pub open spec fn stripped_response_header(k: Seq<char>) -> bool {
    ||| k == "content-length"@
    ||| k == "content-security-policy"@
    ||| k == "content-security-policy-report-only"@
    ||| k == "strict-transport-security"@
    ||| k == "x-content-type-options"@
    ||| k == "x-frame-options"@
}

/// The response headers that the proxy passes back: the list without the
/// removed names, in the same order.
pub open spec fn kept_response_headers(h: Seq<(Seq<char>, Seq<u8>)>) -> Seq<(Seq<char>, Seq<u8>)>
    decreases h.len(),
{
    if h.len() == 0 {
        Seq::empty()
    } else if stripped_response_header(h.last().0) {
        kept_response_headers(h.drop_last())
    } else {
        kept_response_headers(h.drop_last()).push(h.last())
    }
}

fn is_stripped_response_header(k: &[char]) -> (r: bool)
    ensures
        r == stripped_response_header(k@),
{
    equals(k, &chars_of("content-length")) || equals(k, &chars_of("content-security-policy"))
        || equals(k, &chars_of("content-security-policy-report-only")) || equals(
        k,
        &chars_of("strict-transport-security"),
    ) || equals(k, &chars_of("x-content-type-options")) || equals(k, &chars_of("x-frame-options"))
}

/// Removes the response headers that would stop a proxied page from working
/// (length, content security policy, transport security, sniffing and frame
/// options).
pub fn strip_response_headers(headers: Vec<(String, Vec<u8>)>) -> (res: Vec<(String, Vec<u8>)>)
    ensures
        header_views(res@) == kept_response_headers(header_views(headers@)),
{
    let ghost h = header_views(headers@);
    let mut out: Vec<(String, Vec<u8>)> = Vec::new();
    let mut k: usize = 0;
    while k < headers.len()
        invariant
            k <= headers@.len(),
            h == header_views(headers@),
            header_views(out@) == kept_response_headers(h.take(k as int)),
        decreases headers@.len() - k,
    {
        assert(h.take(k + 1).drop_last() =~= h.take(k as int));
        assert(h.take(k + 1).last() == h[k as int]);
        let name = chars_of(headers[k].0.as_str());
        if !is_stripped_response_header(&name) {
            let ghost before = out@;
            out.push((headers[k].0.clone(), slice_to_vec(headers[k].1.as_slice())));
            assert(header_views(out@) =~= header_views(before).push(h[k as int]));
        }
        k = k + 1;
    }
    assert(h.take(k as int) =~= h);
    out
}

/// A byte that `HeaderValue::to_str` accepts: visible ASCII or a tab.
pub open spec fn visible_ascii(b: u8) -> bool {
    (b >= 32 && b < 127) || b == 9
}

/// The text of a header value as the proxy reads it
/// (`to_str().unwrap_or("")`): its characters where every byte is visible
/// ASCII, empty otherwise.
pub open spec fn header_text(v: Seq<u8>) -> Seq<char> {
    if forall|i: int| 0 <= i < v.len() ==> visible_ascii(#[trigger] v[i]) {
        v.map_values(|b: u8| b as char)
    } else {
        Seq::empty()
    }
}

/// The text of a header value, as `HeaderValue::to_str` with an empty text for
/// a value that is not visible ASCII.
pub fn header_value_text(v: &[u8]) -> (r: String)
    ensures
        r@ == header_text(v@),
{
    let mut out: Vec<char> = Vec::new();
    let mut i: usize = 0;
    while i < v.len()
        invariant
            i <= v@.len(),
            forall|j: int| 0 <= j < i ==> visible_ascii(#[trigger] v@[j]),
            out@ == v@.take(i as int).map_values(|b: u8| b as char),
        decreases v@.len() - i,
    {
        let b = v[i];
        if !((b >= 32 && b < 127) || b == 9) {
            return String::new();
        }
        out.push(b as char);
        i = i + 1;
        assert(out@ =~= v@.take(i as int).map_values(|b: u8| b as char));
    }
    assert(v@.take(i as int) =~= v@);
    string_of(&out)
}

/// The value of the first entry named `k`.
pub open spec fn first_value(h: Seq<(Seq<char>, Seq<u8>)>, k: Seq<char>) -> Option<Seq<u8>> {
    let i = key_index(h, k);
    if i >= 0 {
        Some(h[i].1)
    } else {
        None
    }
}

/// The `Content-Type` of a response as text (`HeaderMap::get` then
/// `to_str().unwrap_or("")`), or `None` where the response has none.
pub fn content_type(headers: &Vec<(String, Vec<u8>)>) -> (res: Option<String>)
    ensures
        res is None <==> first_value(header_views(headers@), "content-type"@) is None,
        res matches Some(t) ==> first_value(header_views(headers@), "content-type"@) matches Some(v)
            && t@ == header_text(v),
{
    let ghost h = header_views(headers@);
    let name = chars_of("content-type");
    proof {
        lemma_key_index(h, name@);
    }
    let mut j: usize = 0;
    while j < headers.len()
        invariant
            j <= headers@.len(),
            h == header_views(headers@),
            name@ == "content-type"@,
            -1 <= key_index(h, name@) < h.len(),
            key_index(h, name@) >= 0 ==> h[key_index(h, name@)].0 == name@,
            key_index(h, name@) >= 0 ==> forall|i: int| 0 <= i < key_index(h, name@) ==> h[i].0 != name@,
            key_index(h, name@) == -1 ==> forall|i: int| 0 <= i < h.len() ==> h[i].0 != name@,
            forall|i: int| 0 <= i < j ==> h[i].0 != name@,
        decreases headers@.len() - j,
    {
        if equals(&chars_of(headers[j].0.as_str()), &name) {
            assert(h[j as int].0 == name@);
            assert(key_index(h, name@) == j);
            return Some(header_value_text(headers[j].1.as_slice()));
        }
        j = j + 1;
    }
    None
}

/// Whether a content type names an image, which the proxy passes on as it is.
pub fn is_image(content_type: &str) -> (r: bool)
    ensures
        r == starts_with(content_type@, "image/"@),
{
    crate::text::has_prefix(&chars_of(content_type), &chars_of("image/"))
}

/// What the proxy does with an upstream response, by its `Content-Type`.
#[derive(Debug, Clone, PartialEq, Eq)]
pub enum ResponsePlan {
    /// The response has no content type: the client gets a bad request.
    BadRequest,
    /// An image: its bytes are passed on as they came.
    PassBytes,
    /// Anything else is read as text and rewritten by this content type.
    Rewrite(String),
}

/// Decides what becomes of an upstream response with the (already stripped)
/// headers `headers`: without a `Content-Type` it is refused, an image passes
/// through, and any other body is rewritten by its content type.
pub fn response_plan(headers: &Vec<(String, Vec<u8>)>) -> (res: ResponsePlan)
    ensures
        first_value(header_views(headers@), "content-type"@) is None ==> res == ResponsePlan::BadRequest,
        first_value(header_views(headers@), "content-type"@) matches Some(v) ==> if starts_with(
            header_text(v),
            "image/"@,
        ) {
            res == ResponsePlan::PassBytes
        } else {
            res matches ResponsePlan::Rewrite(t) && t@ == header_text(v)
        },
{
    match content_type(headers) {
        None => ResponsePlan::BadRequest,
        Some(t) => if is_image(t.as_str()) {
            ResponsePlan::PassBytes
        } else {
            ResponsePlan::Rewrite(t)
        },
    }
}

/// The value that a websocket handshake header gets: the text's bytes where
/// they are a valid header value, empty otherwise.
pub open spec fn handshake_value(text: Seq<char>) -> Seq<u8> {
    let b = vstd::utf8::encode_utf8(text);
    if valid_header_value(b) {
        b
    } else {
        Seq::empty()
    }
}

/// The headers of the upstream websocket handshake: `origin` names the page's
/// origin, `host` the upstream host, the rest are passed on.
pub open spec fn handshake_headers(h: Seq<(Seq<char>, Seq<u8>)>, origin: Seq<char>, host: Seq<char>) -> Seq<(Seq<char>, Seq<u8>)> {
    h.map_values(
        |e: (Seq<char>, Seq<u8>)|
            if e.0 == "origin"@ {
                (e.0, handshake_value(origin))
            } else if e.0 == "host"@ {
                (e.0, handshake_value(host))
            } else {
                e
            },
    )
}

fn handshake_value_exec(text: &str) -> (r: Vec<u8>)
    ensures
        r@ == handshake_value(text@),
{
    let b = text.as_bytes();
    if is_valid_header_value(b) {
        slice_to_vec(b)
    } else {
        Vec::new()
    }
}

/// The headers for the upstream websocket handshake.
pub fn handshake_request_headers(headers: &Vec<(String, Vec<u8>)>, origin: &str, host: &str) -> (res: Vec<(String, Vec<u8>)>)
    ensures
        header_views(res@) == handshake_headers(header_views(headers@), origin@, host@),
{
    let ghost h = header_views(headers@);
    let o = handshake_value_exec(origin);
    let t = handshake_value_exec(host);
    let mut out: Vec<(String, Vec<u8>)> = Vec::new();
    let mut k: usize = 0;
    while k < headers.len()
        invariant
            k <= headers@.len(),
            h == header_views(headers@),
            o@ == handshake_value(origin@),
            t@ == handshake_value(host@),
            header_views(out@) == handshake_headers(h.take(k as int), origin@, host@),
        decreases headers@.len() - k,
    {
        let name = chars_of(headers[k].0.as_str());
        let value = if equals(&name, &chars_of("origin")) {
            slice_to_vec(o.as_slice())
        } else if equals(&name, &chars_of("host")) {
            slice_to_vec(t.as_slice())
        } else {
            slice_to_vec(headers[k].1.as_slice())
        };
        let ghost before = out@;
        let ghost value_view = value@;
        assert(header_views(before).len() == before.len());
        assert(before.len() == k);
        out.push((headers[k].0.clone(), value));
        assert(out@[k as int].1@ == value_view);
        assert(out@[k as int].0@ == name@);
        assert forall|i: int| 0 <= i < k + 1 implies #[trigger] header_views(out@)[i]
            == handshake_headers(h.take(k + 1), origin@, host@)[i] by {
            if i < k {
                assert(header_views(before)[i] == handshake_headers(h.take(k as int), origin@, host@)[i]);
                assert(h.take(k as int)[i] == h.take(k + 1)[i]);
            } else {
                assert(h.take(k + 1)[i] == h[k as int]);
                assert(h[k as int].0 == name@);
            }
        }
        assert(header_views(out@) =~= handshake_headers(h.take(k + 1), origin@, host@));
        k = k + 1;
    }
    assert(h.take(k as int) =~= h);
    out
}

/// The request headers sent upstream are well formed for a request to
/// `origin`: each name once, no dropped header, and `origin` and `referer`
/// naming the origin.
pub open spec fn forwarded_shape(m: Seq<(Seq<char>, Seq<u8>)>, origin: Seq<char>) -> bool {
    &&& forall|i: int, j: int| 0 <= i < j < m.len() ==> m[i].0 != m[j].0
    &&& forall|i: int| 0 <= i < m.len() ==> !dropped_request_header(#[trigger] m[i].0)
    &&& forall|i: int| 0 <= i < m.len() && (m[i].0 == "origin"@ || m[i].0 == "referer"@)
        ==> #[trigger] m[i].1 == vstd::utf8::encode_utf8(origin)
}

/// Inserting an allowed header keeps the shape.
proof fn lemma_insert_keeps_shape(m: Seq<(Seq<char>, Seq<u8>)>, origin: Seq<char>, k: Seq<char>, v: Seq<u8>)
    requires
        forwarded_shape(m, origin),
        !dropped_request_header(k),
        k == "origin"@ || k == "referer"@ ==> v == vstd::utf8::encode_utf8(origin),
    ensures
        forwarded_shape(header_insert(m, k, v), origin),
{
    lemma_key_index(m, k);
    let r = header_insert(m, k, v);
    let i = key_index(m, k);
    if i >= 0 {
        assert forall|x: int, y: int| 0 <= x < y < r.len() implies r[x].0 != r[y].0 by {
            assert(r[x].0 == m[x].0 && r[y].0 == m[y].0);
        }
    } else {
        assert forall|x: int, y: int| 0 <= x < y < r.len() implies r[x].0 != r[y].0 by {
            if y == m.len() {
                assert(r[x] == m[x]);
            } else {
                assert(r[x] == m[x] && r[y] == m[y]);
            }
        }
        assert forall|x: int| 0 <= x < r.len() implies !dropped_request_header(#[trigger] r[x].0) by {
            if x < m.len() {
                assert(r[x] == m[x]);
            }
        }
        assert forall|x: int| 0 <= x < r.len() && (r[x].0 == "origin"@ || r[x].0 == "referer"@)
            implies #[trigger] r[x].1 == vstd::utf8::encode_utf8(origin) by {
            if x < m.len() {
                assert(r[x] == m[x]);
            }
        }
    }
}

/// The request headers sent upstream name each header once, hold none of the
/// dropped headers, and give `origin` and `referer` the upstream origin.
pub proof fn lemma_forwarded_headers_shape(h: Seq<(Seq<char>, Seq<u8>)>, origin: Seq<char>)
    ensures
        forwarded_shape(forwarded_headers(h, origin), origin),
    decreases h.len(),
{
    if h.len() > 0 {
        lemma_forwarded_headers_shape(h.drop_last(), origin);
        let m = forwarded_headers(h.drop_last(), origin);
        let k = h.last().0;
        let o = vstd::utf8::encode_utf8(origin);
        if !dropped_request_header(k) {
            if k == "origin"@ || k == "referer"@ {
                if valid_header_value(o) {
                    lemma_insert_keeps_shape(m, origin, k, o);
                }
            } else {
                lemma_insert_keeps_shape(m, origin, k, h.last().1);
            }
        }
    }
}

/// The response headers passed back are exactly the received ones without the
/// removed names, in order: none of those names is left, and every other
/// header is kept.
pub proof fn lemma_kept_response_headers(h: Seq<(Seq<char>, Seq<u8>)>)
    ensures
        kept_response_headers(h) == h.filter(|e: (Seq<char>, Seq<u8>)| !stripped_response_header(e.0)),
        forall|i: int| 0 <= i < kept_response_headers(h).len()
            ==> !stripped_response_header(#[trigger] kept_response_headers(h)[i].0),
        forall|i: int| 0 <= i < h.len() && !stripped_response_header(h[i].0)
            ==> #[trigger] kept_response_headers(h).contains(h[i]),
    decreases h.len(),
{
    let pred = |e: (Seq<char>, Seq<u8>)| !stripped_response_header(e.0);
    reveal(Seq::filter);
    if h.len() > 0 {
        lemma_kept_response_headers(h.drop_last());
    }
    assert(kept_response_headers(h) == h.filter(pred));
    assert forall|i: int| 0 <= i < kept_response_headers(h).len()
        implies !stripped_response_header(#[trigger] kept_response_headers(h)[i].0) by {
        h.lemma_filter_pred(pred, i);
    }
    assert forall|i: int| 0 <= i < h.len() && !stripped_response_header(h[i].0)
        implies #[trigger] kept_response_headers(h).contains(h[i]) by {
        h.lemma_filter_contains(pred, i);
    }
}

/// The value last given for the header `k` in a list, or `None`.
pub open spec fn last_header_value(h: Seq<(Seq<char>, Seq<u8>)>, k: Seq<char>) -> Option<Seq<u8>>
    decreases h.len(),
{
    if h.len() == 0 {
        None
    } else if h.last().0 == k {
        Some(h.last().1)
    } else {
        last_header_value(h.drop_last(), k)
    }
}

/// The first entry named `k` depends on the names of the entries alone.
proof fn lemma_key_index_names(m: Seq<(Seq<char>, Seq<u8>)>, m2: Seq<(Seq<char>, Seq<u8>)>, k: Seq<char>)
    requires
        m.len() == m2.len(),
        forall|j: int| 0 <= j < m.len() ==> m[j].0 == m2[j].0,
    ensures
        key_index(m, k) == key_index(m2, k),
    decreases m.len(),
{
    if m.len() > 0 {
        lemma_key_index_names(m.drop_last(), m2.drop_last(), k);
    }
}

/// Inserting a header leaves the value of every other name as it was, and
/// gives its own name the inserted value.
proof fn lemma_insert_first_value(m: Seq<(Seq<char>, Seq<u8>)>, k: Seq<char>, v: Seq<u8>, n: Seq<char>)
    ensures
        first_value(header_insert(m, k, v), n) == if n == k { Some(v) } else { first_value(m, n) },
{
    lemma_key_index(m, k);
    lemma_key_index(m, n);
    let m2 = header_insert(m, k, v);
    let i = key_index(m, k);
    if i >= 0 {
        lemma_key_index_names(m, m2, n);
        lemma_key_index(m2, n);
    } else {
        assert(m2.drop_last() =~= m);
    }
}

/// The headers sent upstream: every request header other than `host`,
/// `accept-encoding`, `forwarded`, `x-forwarded-for`, `x-forwarded-host`,
/// `x-forwarded-proto`, `x-real-ip`, `x-envoy-external-address`, `origin` and
/// `referer` goes upstream with the value last given for it, and none of the
/// first eight goes upstream at all.
pub proof fn lemma_forwarded_header_values(h: Seq<(Seq<char>, Seq<u8>)>, origin: Seq<char>, k: Seq<char>)
    ensures
        !(k == "host"@ || k == "accept-encoding"@ || k == "forwarded"@ || k == "x-forwarded-for"@
            || k == "x-forwarded-host"@ || k == "x-forwarded-proto"@ || k == "x-real-ip"@
            || k == "x-envoy-external-address"@ || k == "origin"@ || k == "referer"@)
            ==> first_value(forwarded_headers(h, origin), k) == last_header_value(h, k),
        (k == "host"@ || k == "accept-encoding"@ || k == "forwarded"@ || k == "x-forwarded-for"@
            || k == "x-forwarded-host"@ || k == "x-forwarded-proto"@ || k == "x-real-ip"@
            || k == "x-envoy-external-address"@) ==> first_value(forwarded_headers(h, origin), k) is None,
    decreases h.len(),
{
    if h.len() > 0 {
        lemma_forwarded_header_values(h.drop_last(), origin, k);
        let m = forwarded_headers(h.drop_last(), origin);
        let n = h.last().0;
        let o = vstd::utf8::encode_utf8(origin);
        if !dropped_request_header(n) {
            if n == "origin"@ || n == "referer"@ {
                lemma_insert_first_value(m, n, o, k);
            } else {
                lemma_insert_first_value(m, n, h.last().1, k);
            }
        }
    } else {
        lemma_key_index(h, k);
    }
}

/// `origin` and `referer` go upstream naming the upstream origin, where the
/// request had them and the origin is a valid header value, and not at all
/// otherwise.
pub proof fn lemma_forwarded_origin(h: Seq<(Seq<char>, Seq<u8>)>, origin: Seq<char>, k: Seq<char>)
    requires
        k == "origin"@ || k == "referer"@,
    ensures
        first_value(forwarded_headers(h, origin), k) == if last_header_value(h, k) is Some && valid_header_value(
            vstd::utf8::encode_utf8(origin),
        ) {
            Some(vstd::utf8::encode_utf8(origin))
        } else {
            None
        },
    decreases h.len(),
{
    reveal_strlit("origin");
    reveal_strlit("referer");
    reveal_strlit("host");
    reveal_strlit("accept-encoding");
    reveal_strlit("forwarded");
    reveal_strlit("x-forwarded-for");
    reveal_strlit("x-forwarded-host");
    reveal_strlit("x-forwarded-proto");
    reveal_strlit("x-real-ip");
    reveal_strlit("x-envoy-external-address");
    if h.len() > 0 {
        lemma_forwarded_origin(h.drop_last(), origin, k);
        let m = forwarded_headers(h.drop_last(), origin);
        let n = h.last().0;
        let o = vstd::utf8::encode_utf8(origin);
        if n == k {
            assert(k[0] != "host"@[0] && k[0] != "accept-encoding"@[0] && k[0] != "forwarded"@[0] && k[0] != "x-forwarded-for"@[0]);
            assert(!dropped_request_header(n));
        }
        if !dropped_request_header(n) {
            if n == "origin"@ || n == "referer"@ {
                lemma_insert_first_value(m, n, o, k);
            } else {
                lemma_insert_first_value(m, n, h.last().1, k);
            }
        }
    } else {
        lemma_key_index(h, k);
    }
}

/// The response headers passed back: no `content-length`,
/// `content-security-policy`, `content-security-policy-report-only`,
/// `strict-transport-security`, `x-content-type-options` or
/// `x-frame-options` header is left, and every other header is kept.
pub proof fn lemma_response_headers_kept(h: Seq<(Seq<char>, Seq<u8>)>)
    ensures
        forall|i: int| 0 <= i < kept_response_headers(h).len() ==> {
            let k = #[trigger] kept_response_headers(h)[i].0;
            !(k == "content-length"@ || k == "content-security-policy"@ || k == "content-security-policy-report-only"@
                || k == "strict-transport-security"@ || k == "x-content-type-options"@ || k == "x-frame-options"@)
        },
        forall|i: int| 0 <= i < h.len() && !(h[i].0 == "content-length"@ || h[i].0 == "content-security-policy"@
            || h[i].0 == "content-security-policy-report-only"@ || h[i].0 == "strict-transport-security"@
            || h[i].0 == "x-content-type-options"@ || h[i].0 == "x-frame-options"@) ==> #[trigger] kept_response_headers(
            h,
        ).contains(h[i]),
{
    lemma_kept_response_headers(h);
}

} // verus!
