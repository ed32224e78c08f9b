//! The decisions of the proxy server: where the gateway form sends the
//! browser, which upstream address a proxy path stands for, and which headers
//! are passed on in each direction.

use vstd::prelude::*;
use crate::text::{chars_of, concat, equals, has_prefix, join_with, starts_with, string_of};
use crate::bindings::{
    base64_url_decoded, base64_url_encoded, decode_base64_url, encode_base64_url,
    origin_of, parse_url, parsed_url, set_url_query, url_edit_limit, url_origin, url_with_query,
    URL_EDIT_LIMIT,
    utf8_string,
};
use crate::rewrite::{proxy_prefix, proxy_prefix_exec};
use crate::websocket::{pair_views, ProxyData};

verus! {

/// The address that the gateway form's `url` field stands for: `https://` is
/// put in front of an address that does not start with `http`.
pub open spec fn gateway_address(url: Seq<char>) -> Seq<char> {
    if starts_with(url, "http"@) {
        url
    } else {
        "https://"@ + url
    }
}

/// The proxy path to which the gateway sends the browser:
/// `/{encoding}/{address}`, the address in URL-safe base64 without padding
/// for the `b64` encoding.
pub open spec fn gateway_path(url: Seq<char>, encoding: Seq<char>) -> Seq<char> {
    let a = gateway_address(url);
    proxy_prefix(encoding) + if encoding == "b64"@ {
        base64_url_encoded(a)
    } else {
        a
    }
}

/// The proxy path for the address that the gateway form was sent with.
pub fn gateway_location(url: String, encoding: String) -> (res: String)
    ensures
        res@ == gateway_path(url@, encoding@),
        address_text(res@.skip(proxy_prefix(encoding@).len() as int), encoding@) == Some(gateway_address(url@)),
{
    let u = chars_of(url.as_str());
    let a = if has_prefix(&u, &chars_of("http")) {
        u
    } else {
        concat(&chars_of("https://"), &u)
    };
    let e = chars_of(encoding.as_str());
    let encoded = if equals(&e, &chars_of("b64")) {
        chars_of(encode_base64_url(string_of(&a).as_str()).as_str())
    } else {
        a
    };
    proof {
        lemma_gateway_round_trip(url@, encoding@);
    }
    string_of(&concat(&proxy_prefix_exec(&e), &encoded))
}

/// Where the gateway sends the browser: the proxy path, where it is a valid
/// `Location` header value, or `None` (the gateway answers
/// `400 Bad Request`).
pub fn gateway(url: String, encoding: String) -> (res: Option<String>)
    ensures
        res is Some <==> crate::headers::valid_header_value(vstd::utf8::encode_utf8(gateway_path(url@, encoding@))),
        encoding@ == "b64"@ ==> res is Some,
        res matches Some(l) ==> l@ == gateway_path(url@, encoding@),
        res matches Some(l) ==> address_text(l@.skip(proxy_prefix(encoding@).len() as int), encoding@) == Some(
            gateway_address(url@),
        ),
{
    proof {
        if encoding@ == "b64"@ {
            lemma_b64_path_valid(url@);
        }
    }
    let location = gateway_location(url, encoding);
    if crate::headers::is_valid_header_value(location.as_str().as_bytes()) {
        Some(location)
    } else {
        None
    }
}

/// A `b64` gateway path is visible ASCII (a slash, the encoding's name and
/// base64), so it is always a valid `Location` value.
proof fn lemma_b64_path_valid(url: Seq<char>)
    ensures
        crate::headers::valid_header_value(vstd::utf8::encode_utf8(gateway_path(url, "b64"@))),
{
    reveal_strlit("b64");
    reveal_strlit("/");
    let p = gateway_path(url, "b64"@);
    let prefix = proxy_prefix("b64"@);
    let b = base64_url_encoded(gateway_address(url));
    crate::bindings::lemma_base64_chars(vstd::utf8::encode_utf8(gateway_address(url)), true, false);
    assert(prefix =~= seq!['/', 'b', '6', '4', '/']);
    assert(p == prefix + b);
    assert forall|i: int| 0 <= i < p.len() implies 33 <= #[trigger] p[i] as int <= 126 by {
        if i >= 5 {
            assert(p[i] == b[i - 5]);
        }
    }
    assert(vstd::utf8::is_ascii_chars(p));
    vstd::utf8::is_ascii_chars_encode_utf8(p);
    let e = vstd::utf8::encode_utf8(p);
    assert forall|i: int| 0 <= i < e.len() implies crate::headers::header_value_byte(#[trigger] e[i]) by {
        assert(p[i] as u8 == e[i]);
    }
}

/// One query parameter as the server passes it on: `key`, or `key=value`
/// where the value is not empty.
pub open spec fn query_item(p: (Seq<char>, Seq<char>)) -> Seq<char> {
    if p.1.len() == 0 {
        p.0
    } else {
        p.0 + "="@ + p.1
    }
}

/// The query passed on upstream: the parameters, in the order given, joined
/// with `&`.
pub open spec fn query_string(query: Seq<(Seq<char>, Seq<char>)>) -> Seq<char> {
    join_with(query.map_values(|p: (Seq<char>, Seq<char>)| query_item(p)), "&"@)
}

/// The text of the address in a proxy path: the base64 text decoded for the
/// `b64` encoding (`None` where it is not URL-safe base64 of UTF-8), the
/// path itself otherwise.
pub open spec fn address_text(url: Seq<char>, encoding: Seq<char>) -> Option<Seq<char>> {
    if encoding == "b64"@ {
        match base64_url_decoded(url) {
            Some(b) => if vstd::utf8::valid_utf8(b) {
                Some(vstd::utf8::decode_utf8(b))
            } else {
                None
            },
            None => None,
        }
    } else {
        Some(url)
    }
}

/// The upstream address that a proxy path stands for, with the request's
/// query parameters; empty where the address cannot be decoded or parsed, or
/// where address and query together pass `url_edit_limit` characters.
pub open spec fn upstream_address(url: Seq<char>, encoding: Seq<char>, query: Seq<(Seq<char>, Seq<char>)>) -> Seq<char> {
    match address_text(url, encoding) {
        Some(t) => match parsed_url(t) {
            Some(p) => if query_string(query).len() == 0 {
                p
            } else if t.len() + query_string(query).len() <= url_edit_limit() {
                url_with_query(t, query_string(query))
            } else {
                Seq::empty()
            },
            None => Seq::empty(),
        },
        None => Seq::empty(),
    }
}

fn query_text(query: &Vec<(String, String)>) -> (r: Vec<char>)
    ensures
        r@ == query_string(pair_views(query@)),
{
    let ghost qv = pair_views(query@);
    let mut items: Vec<Vec<char>> = Vec::new();
    let mut k: usize = 0;
    while k < query.len()
        invariant
            k <= query@.len(),
            items@.len() == k,
            qv == pair_views(query@),
            forall|j: int| 0 <= j < k ==> #[trigger] items@[j]@ == query_item(qv[j]),
        decreases query@.len() - k,
    {
        let key = chars_of(query[k].0.as_str());
        let value = chars_of(query[k].1.as_str());
        let item = if value.len() == 0 {
            key
        } else {
            let a = concat(&key, &chars_of("="));
            concat(&a, &value)
        };
        items.push(item);
        k = k + 1;
    }
    let r = crate::text::join(&items, 0, &chars_of("&"));
    assert(items@.skip(0).map_values(|v: Vec<char>| v@) =~= qv.map_values(
        |p: (Seq<char>, Seq<char>)| query_item(p),
    ));
    r
}

/// The upstream address that the proxy path `url` stands for under
/// `encoding`, with the query parameters of the request; empty where the
/// path cannot be decoded or the address does not parse.
pub fn get_url(url: String, encoding: String, query: &ProxyData) -> (res: String)
    ensures
        res@ == upstream_address(url@, encoding@, query.pairs()),
{
    let text = if equals(&chars_of(encoding.as_str()), &chars_of("b64")) {
        match decode_base64_url(url.as_str()) {
            Some(bytes) => match utf8_string(bytes) {
                Some(s) => s,
                None => return String::new(),
            },
            None => return String::new(),
        }
    } else {
        url
    };
    match parse_url(text.as_str()) {
        Some(parsed) => {
            let q = query_text(&query.to_pairs());
            let t = chars_of(text.as_str());
            if q.len() == 0 {
                parsed
            } else if t.len() <= URL_EDIT_LIMIT && q.len() <= URL_EDIT_LIMIT - t.len() {
                set_url_query(text.as_str(), string_of(&q).as_str())
            } else {
                String::new()
            }
        },
        None => String::new(),
    }
}

/// Where a proxied request goes: the upstream URL and its origin.
pub struct Upstream {
    pub url: String,
    pub origin: String,
}

/// The upstream URL and origin for a proxy path, or `None` where the path
/// stands for no address (the proxy answers `400 Bad Request`).
pub fn upstream(url: String, encoding: String, query: &ProxyData) -> (res: Option<Upstream>)
    ensures
        res is None <==> parsed_url(upstream_address(url@, encoding@, query.pairs())) is None,
        res matches Some(u) ==> {
            &&& parsed_url(upstream_address(url@, encoding@, query.pairs())) == Some(u.url@)
            &&& u.origin@ == url_origin(upstream_address(url@, encoding@, query.pairs()))
        },
{
    let target = get_url(url, encoding, query);
    match parse_url(target.as_str()) {
        Some(parsed) => {
            let origin = origin_of(target.as_str());
            Some(Upstream { url: parsed, origin })
        },
        None => None,
    }
}

/// The gateway sends the browser to a proxy path under `/{encoding}/` whose
/// rest is the address for any encoding but `b64`; for `b64`, where base64
/// decoding gives back the bytes it encoded (as `gateway_location` shows of
/// the paths it makes), the proxy decodes the rest to the address that the
/// gateway was given. Without query parameters the proxy then goes to the
/// same upstream address as for that address under a plain encoding.
pub proof fn lemma_gateway_round_trip(url: Seq<char>, encoding: Seq<char>)
    requires
        encoding == "b64"@ ==> base64_url_decoded(base64_url_encoded(gateway_address(url)))
            == Some(vstd::utf8::encode_utf8(gateway_address(url))),
    ensures
        starts_with(gateway_path(url, encoding), proxy_prefix(encoding)),
        address_text(
            gateway_path(url, encoding).skip(proxy_prefix(encoding).len() as int),
            encoding,
        ) == Some(gateway_address(url)),
        upstream_address(
            gateway_path(url, encoding).skip(proxy_prefix(encoding).len() as int),
            encoding,
            Seq::empty(),
        ) == upstream_address(gateway_address(url), "none"@, Seq::empty()),
{
    reveal_strlit("none");
    reveal_strlit("b64");
    let none = Seq::<(Seq<char>, Seq<char>)>::empty();
    assert(none.map_values(|p: (Seq<char>, Seq<char>)| query_item(p)).len() == 0);
    assert(query_string(none).len() == 0);
    let p = proxy_prefix(encoding);
    let a = gateway_address(url);
    let rest = if encoding == "b64"@ {
        base64_url_encoded(a)
    } else {
        a
    };
    assert(gateway_path(url, encoding) == p + rest);
    assert((p + rest).subrange(0, p.len() as int) =~= p);
    assert((p + rest).skip(p.len() as int) =~= rest);
    if encoding == "b64"@ {
        vstd::utf8::encode_utf8_valid_utf8(a);
        vstd::utf8::encode_utf8_decode_utf8(a);
    }
    assert(address_text(rest, encoding) == Some(a));
    assert("none"@.len() == 4 && "b64"@.len() == 3);
}

} // verus!
