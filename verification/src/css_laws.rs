//! Laws of the style sheet rewriter: what it makes of a sheet that it has
//! already rewritten.

use vstd::prelude::*;
use crate::text::occurs_at;
use crate::bindings::lemma_base64_chars;
use crate::rewrite::{
    absolute_link, close_paren_from, css_url_close, encoded_link, lemma_close_paren_range, lemma_get_url_idempotent,
    proxy_prefix, rewritten_css, rewritten_css_from, rewritten_link, without_dot_slash,
};

verus! {

/// A close parenthesis found in `b` from `m` is found at the same place,
/// moved by `a.len()`, in `a + b`.
proof fn lemma_close_shift(a: Seq<char>, b: Seq<char>, m: nat)
    ensures
        close_paren_from(a + b, a.len() + m) == match close_paren_from(b, m) {
            Some(k) => Some(k + a.len()),
            None => None,
        },
    decreases b.len() - m,
{
    if m < b.len() {
        assert((a + b)[(a.len() + m) as int] == b[m as int]);
        lemma_close_shift(a, b, m + 1);
    }
}

/// A pattern occurs in `b` at `m` exactly when it occurs in `a + b` at
/// `a.len() + m`.
proof fn lemma_occurs_shift(a: Seq<char>, b: Seq<char>, p: Seq<char>, m: nat)
    ensures
        occurs_at(a + b, p, (a.len() + m) as int) == occurs_at(b, p, m as int),
{
    if m + p.len() <= b.len() {
        assert((a + b).subrange((a.len() + m) as int, (a.len() + m + p.len()) as int) =~= b.subrange(m as int, (m + p.len()) as int));
    }
}

/// The rewriter reads a sheet from a position on without looking back.
proof fn lemma_css_shift(a: Seq<char>, b: Seq<char>, m: nat, origin: Seq<char>, encoding: Seq<char>)
    ensures
        rewritten_css_from(a + b, a.len() + m, origin, encoding) == rewritten_css_from(b, m, origin, encoding),
    decreases b.len() - m,
{
    if m < b.len() {
        lemma_occurs_shift(a, b, "url("@, m);
        lemma_close_shift(a, b, m + 4);
        assert((a + b)[(a.len() + m) as int] == b[m as int]);
        match css_url_close(b, m) {
            Some(k) => {
                lemma_close_paren_range(b, m + 4);
                lemma_css_shift(a, b, k + 1, origin, encoding);
                assert((a + b).subrange((a.len() + m + 4) as int, (a.len() + k) as int) =~= b.subrange((m + 4) as int, k as int));
            },
            None => {
                lemma_css_shift(a, b, m + 1, origin, encoding);
            },
        }
    }
}

/// A text with neither `)` nor a line break, which therefore cannot end a
/// `url(...)` reference early.
pub open spec fn plain_line(s: Seq<char>) -> bool {
    forall|i: int| 0 <= i < s.len() ==> s[i] != ')' && s[i] != '\n'
}

proof fn lemma_plain_concat(a: Seq<char>, b: Seq<char>)
    requires
        plain_line(a),
        plain_line(b),
    ensures
        plain_line(a + b),
{
    assert forall|i: int| 0 <= i < (a + b).len() implies (a + b)[i] != ')' && (a + b)[i] != '\n' by {
        if i < a.len() {
            assert((a + b)[i] == a[i]);
        } else {
            assert((a + b)[i] == b[i - a.len()]);
        }
    }
}

proof fn lemma_plain_skip(a: Seq<char>, n: int)
    requires
        plain_line(a),
        0 <= n <= a.len(),
    ensures
        plain_line(a.skip(n)),
{
    assert forall|i: int| 0 <= i < a.skip(n).len() implies a.skip(n)[i] != ')' && a.skip(n)[i] != '\n' by {
        assert(a.skip(n)[i] == a[i + n]);
    }
}

/// A rewritten link holds no `)` and no line break where the link, the
/// origin and the encoding hold none.
proof fn lemma_link_plain(x: Seq<char>, origin: Seq<char>, encoding: Seq<char>)
    requires
        plain_line(x),
        plain_line(origin),
        plain_line(encoding),
    ensures
        plain_line(rewritten_link(x, origin, encoding)),
{
    reveal_strlit("/");
    reveal_strlit("https:");
    assert(plain_line("/"@));
    assert(plain_line("https:"@));
    let a = without_dot_slash(x);
    reveal_strlit("./");
    if crate::text::starts_with(x, "./"@) {
        assert("./"@.len() == 2);
        lemma_plain_skip(x, 2);
    }
    lemma_plain_concat("https:"@, a);
    let a1 = if crate::text::starts_with(a, "//"@) { "https:"@ + a } else { a };
    lemma_plain_concat("/"@, a1);
    let a2 = if !crate::text::ends_with(origin, "/"@) && !crate::text::starts_with(a1, "/"@)
        && !crate::text::starts_with(a1, "http:"@) && !crate::text::starts_with(a1, "https:"@) {
        "/"@ + a1
    } else {
        a1
    };
    lemma_plain_concat(origin, a2);
    let abs = absolute_link(a, origin);
    assert(plain_line(abs));
    lemma_base64_chars(vstd::utf8::encode_utf8(abs), false, true);
    assert(plain_line(encoded_link(abs, encoding)));
    lemma_plain_concat("/"@, encoding);
    lemma_plain_concat("/"@ + encoding, "/"@);
    lemma_plain_concat(proxy_prefix(encoding), encoded_link(abs, encoding));
}

/// In `l + r` with `r` starting with `)`, the first `)` from any position in
/// a plain `l` is the one that `r` starts with.
proof fn lemma_close_at_end(l: Seq<char>, r: Seq<char>, j: nat)
    requires
        plain_line(l),
        r.len() > 0,
        r[0] == ')',
        j <= l.len(),
    ensures
        close_paren_from(l + r, j) == Some(l.len()),
    decreases l.len() - j,
{
    if j < l.len() {
        assert((l + r)[j as int] == l[j as int]);
        lemma_close_at_end(l, r, j + 1);
    } else {
        assert((l + r)[j as int] == r[0]);
    }
}

/// Where the rewritten sheet from `j` does not start with `u`, no reference
/// starts at `j` and its first character is that of the sheet.
proof fn lemma_head(s: Seq<char>, j: nat, origin: Seq<char>, encoding: Seq<char>)
    requires
        rewritten_css_from(s, j, origin, encoding).len() > 0,
        rewritten_css_from(s, j, origin, encoding)[0] != 'u',
    ensures
        j < s.len(),
        css_url_close(s, j) is None,
        rewritten_css_from(s, j, origin, encoding) == seq![s[j as int]] + rewritten_css_from(s, j + 1, origin, encoding),
{
    reveal_strlit("url(");
    assert("url("@[0] == 'u');
}

/// The first characters of `url(` at `j` in `s`.
proof fn lemma_url_chars(s: Seq<char>, j: int)
    requires
        occurs_at(s, "url("@, j),
    ensures
        s[j] == 'u',
        s[j + 1] == 'r',
        s[j + 2] == 'l',
        s[j + 3] == '(',
{
    reveal_strlit("url(");
    assert(s.subrange(j, j + 4)[0] == s[j]);
    assert(s.subrange(j, j + 4)[1] == s[j + 1]);
    assert(s.subrange(j, j + 4)[2] == s[j + 2]);
    assert(s.subrange(j, j + 4)[3] == s[j + 3]);
}

/// Where no `)` ends the line from `j`, none ends it in the rewritten sheet
/// either.
proof fn lemma_no_close_kept(s: Seq<char>, j: nat, origin: Seq<char>, encoding: Seq<char>)
    requires
        close_paren_from(s, j) is None,
    ensures
        close_paren_from(rewritten_css_from(s, j, origin, encoding), 0) is None,
    decreases s.len() - j,
{
    if j < s.len() {
        let t = rewritten_css_from(s, j, origin, encoding);
        if occurs_at(s, "url("@, j as int) {
            lemma_url_chars(s, j as int);
        }
        if s[j as int] == '\n' {
            assert(css_url_close(s, j) is None);
            assert(t[0] == '\n');
        } else {
            if occurs_at(s, "url("@, j as int) {
                assert(close_paren_from(s, j + 3) == close_paren_from(s, j + 4));
                assert(close_paren_from(s, j + 2) == close_paren_from(s, j + 3));
                assert(close_paren_from(s, j + 1) == close_paren_from(s, j + 2));
                assert(close_paren_from(s, j) == close_paren_from(s, j + 4));
            }
            assert(css_url_close(s, j) is None);
            let u = rewritten_css_from(s, j + 1, origin, encoding);
            assert(t == seq![s[j as int]] + u);
            lemma_no_close_kept(s, j + 1, origin, encoding);
            lemma_close_shift(seq![s[j as int]], u, 0);
        }
    }
}

/// Rewriting the rewritten sheet from `i` gives it back.
proof fn lemma_css_idempotent_from(s: Seq<char>, i: nat, origin: Seq<char>, encoding: Seq<char>)
    requires
        plain_line(origin),
        plain_line(encoding),
    ensures
        rewritten_css_from(rewritten_css_from(s, i, origin, encoding), 0, origin, encoding)
            == rewritten_css_from(s, i, origin, encoding),
    decreases s.len() - i,
{
    reveal_strlit("url(");
    reveal_strlit(")");
    let t = rewritten_css_from(s, i, origin, encoding);
    if i >= s.len() {
        assert(t.len() == 0);
    } else {
        match css_url_close(s, i) {
            Some(k) => {
                lemma_close_paren_range(s, i + 4);
                let x = s.subrange((i + 4) as int, k as int);
                assert(plain_line(x)) by {
                    assert forall|m: int| 0 <= m < x.len() implies x[m] != ')' && x[m] != '\n' by {
                        assert(x[m] == s[i + 4 + m]);
                    }
                }
                lemma_link_plain(x, origin, encoding);
                let l = rewritten_link(x, origin, encoding);
                let r = rewritten_css_from(s, k + 1, origin, encoding);
                let head = "url("@ + l + ")"@;
                assert(t == head + r);
                assert(t =~= "url("@ + (l + (")"@ + r)));
                lemma_close_at_end(l, ")"@ + r, 0);
                lemma_close_shift("url("@, l + (")"@ + r), 0);
                assert(t.subrange(0, 4) =~= "url("@);
                assert(css_url_close(t, 0) == Some(4 + l.len()));
                assert(t.subrange(4, (4 + l.len()) as int) =~= l);
                lemma_get_url_idempotent(x, origin, encoding);
                lemma_css_shift(head, r, 0, origin, encoding);
                lemma_css_idempotent_from(s, k + 1, origin, encoding);
            },
            None => {
                let u = rewritten_css_from(s, i + 1, origin, encoding);
                assert(t == seq![s[i as int]] + u);
                lemma_css_idempotent_from(s, i + 1, origin, encoding);
                lemma_css_shift(seq![s[i as int]], u, 0, origin, encoding);
                if css_url_close(t, 0) is Some {
                    lemma_url_chars(t, 0);
                    assert(u[0] == 'r');
                    lemma_head(s, i + 1, origin, encoding);
                    let u2 = rewritten_css_from(s, i + 2, origin, encoding);
                    assert(u2[0] == 'l');
                    lemma_head(s, i + 2, origin, encoding);
                    let u3 = rewritten_css_from(s, i + 3, origin, encoding);
                    assert(u3[0] == '(');
                    lemma_head(s, i + 3, origin, encoding);
                    let u4 = rewritten_css_from(s, i + 4, origin, encoding);
                    assert(s.subrange(i as int, (i + 4) as int) =~= "url("@);
                    assert(close_paren_from(s, i + 4) is None);
                    lemma_no_close_kept(s, i + 4, origin, encoding);
                    assert(t =~= "url("@ + u4);
                    lemma_close_shift("url("@, u4, 0);
                    assert(false);
                }
            },
        }
    }
}

/// Rewriting a style sheet that the proxy has already rewritten leaves it
/// as it is, where the origin and the encoding hold no `)` and no line break.
pub proof fn lemma_css_idempotent(s: Seq<char>, origin: Seq<char>, encoding: Seq<char>)
    requires
        plain_line(origin),
        plain_line(encoding),
    ensures
        rewritten_css(rewritten_css(s, origin, encoding), origin, encoding) == rewritten_css(s, origin, encoding),
{
    lemma_css_idempotent_from(s, 0, origin, encoding);
}

/// The first `)` from `j` is at `k` where no `)` or line break comes between.
proof fn lemma_close_found(s: Seq<char>, j: nat, k: nat)
    requires
        j <= k < s.len(),
        s[k as int] == ')',
        forall|m: int| j <= m < k ==> s[m] != ')' && s[m] != '\n',
    ensures
        close_paren_from(s, j) == Some(k),
    decreases k - j,
{
    if j < k {
        lemma_close_found(s, j + 1, k);
    }
}

/// Text in which no `url(` starts is passed on as it is.
proof fn lemma_css_plain_prefix(s: Seq<char>, j: nat, i: nat, origin: Seq<char>, encoding: Seq<char>)
    requires
        j <= i <= s.len(),
        forall|m: int| j <= m < i ==> !occurs_at(s, "url("@, m),
    ensures
        rewritten_css_from(s, j, origin, encoding) == s.subrange(j as int, i as int) + rewritten_css_from(s, i, origin, encoding),
    decreases i - j,
{
    if j < i {
        lemma_css_plain_prefix(s, j + 1, i, origin, encoding);
        assert(s.subrange(j as int, i as int) =~= seq![s[j as int]] + s.subrange((j + 1) as int, i as int));
    } else {
        assert(s.subrange(j as int, i as int) =~= Seq::<char>::empty());
    }
}

/// Every `url(...)` reference of a style sheet goes through the proxy: where
/// the first `url(` of the sheet is at `i` and the first `)` after it, on the
/// same line, at `k`, the rewritten sheet is the text before it, `url(`, the
/// proxied link of the address between, `)`, and the rest rewritten.
pub proof fn lemma_css_url_rewritten(s: Seq<char>, i: nat, k: nat, origin: Seq<char>, encoding: Seq<char>)
    requires
        forall|m: int| 0 <= m < i ==> !occurs_at(s, "url("@, m),
        occurs_at(s, "url("@, i as int),
        i + 4 <= k < s.len(),
        s[k as int] == ')',
        forall|m: int| i + 4 <= m < k ==> s[m] != ')' && s[m] != '\n',
    ensures
        rewritten_css(s, origin, encoding) == s.subrange(0, i as int) + "url("@ + rewritten_link(
            s.subrange((i + 4) as int, k as int),
            origin,
            encoding,
        ) + ")"@ + rewritten_css_from(s, k + 1, origin, encoding),
{
    lemma_css_plain_prefix(s, 0, i, origin, encoding);
    lemma_close_found(s, i + 4, k);
    assert(css_url_close(s, i) == Some(k));
}

} // verus!
