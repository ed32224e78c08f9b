//! The websocket side of the proxy: the query of a websocket request, the
//! upstream address it stands for, and the relay of messages between the
//! browser and the upstream server.

use vstd::prelude::*;
use crate::text::{chars_of, has_prefix, starts_with};
use crate::bindings::{
    host_of, pairs_size, parse_url, parsed_url, set_url_pairs, url_edit_limit, url_host, url_with_pairs,
    URL_EDIT_LIMIT,
};
use crate::headers::{handshake_headers, handshake_request_headers, header_views};

verus! {

/// Pairs as texts.
pub open spec fn pair_views(p: Seq<(String, String)>) -> Seq<(Seq<char>, Seq<char>)> {
    p.map_values(|e: (String, String)| (e.0@, e.1@))
}

/// The position of the first pair with key `k`, or -1.
pub open spec fn pair_index(m: Seq<(Seq<char>, Seq<char>)>, k: Seq<char>) -> int
    decreases m.len(),
{
    if m.len() == 0 {
        -1
    } else {
        let i = pair_index(m.drop_last(), k);
        if i >= 0 {
            i
        } else if m.last().0 == k {
            m.len() - 1
        } else {
            -1
        }
    }
}

/// A found key lies inside the list and names that pair; a key that is not
/// found names no pair.
pub proof fn lemma_pair_index(m: Seq<(Seq<char>, Seq<char>)>, k: Seq<char>)
    ensures
        -1 <= pair_index(m, k) < m.len(),
        pair_index(m, k) >= 0 ==> m[pair_index(m, k)].0 == k,
        pair_index(m, k) >= 0 ==> forall|j: int| 0 <= j < pair_index(m, k) ==> m[j].0 != k,
        pair_index(m, k) == -1 ==> forall|j: int| 0 <= j < m.len() ==> m[j].0 != k,
    decreases m.len(),
{
    if m.len() > 0 {
        lemma_pair_index(m.drop_last(), k);
        assert forall|j: int| 0 <= j < m.len() - 1 implies m.drop_last()[j] == m[j] by {}
    }
}

/// The pairs after one more is put in, as a map does: a key that is there
/// gets the new value, a new key goes at the end.
pub open spec fn pair_insert(m: Seq<(Seq<char>, Seq<char>)>, k: Seq<char>, v: Seq<char>) -> Seq<(Seq<char>, Seq<char>)> {
    let i = pair_index(m, k);
    if i >= 0 {
        m.update(i, (k, v))
    } else {
        m.push((k, v))
    }
}

/// The map that a list of query pairs makes: each key once, with the last
/// value given for it.
pub open spec fn query_map(p: Seq<(Seq<char>, Seq<char>)>) -> Seq<(Seq<char>, Seq<char>)>
    decreases p.len(),
{
    if p.len() == 0 {
        Seq::empty()
    } else {
        pair_insert(query_map(p.drop_last()), p.last().0, p.last().1)
    }
}

/// No key occurs twice.
pub open spec fn distinct_keys(m: Seq<(Seq<char>, Seq<char>)>) -> bool {
    forall|i: int, j: int| 0 <= i < j < m.len() ==> m[i].0 != m[j].0
}

/// The value of key `k`, if any.
pub open spec fn lookup(m: Seq<(Seq<char>, Seq<char>)>, k: Seq<char>) -> Option<Seq<char>> {
    let i = pair_index(m, k);
    if i >= 0 {
        Some(m[i].1)
    } else {
        None
    }
}

/// The value last given for key `k` in a list of pairs, if any.
pub open spec fn last_value(p: Seq<(Seq<char>, Seq<char>)>, k: Seq<char>) -> Option<Seq<char>>
    decreases p.len(),
{
    if p.len() == 0 {
        None
    } else if p.last().0 == k {
        Some(p.last().1)
    } else {
        last_value(p.drop_last(), k)
    }
}

/// Putting a pair in keeps the keys distinct and answers lookups with the
/// new value for its key and the old values for the others.
pub proof fn lemma_pair_insert(m: Seq<(Seq<char>, Seq<char>)>, k: Seq<char>, v: Seq<char>)
    requires
        distinct_keys(m),
    ensures
        distinct_keys(pair_insert(m, k, v)),
        forall|q: Seq<char>| #[trigger] lookup(pair_insert(m, k, v), q) == if q == k {
            Some(v)
        } else {
            lookup(m, q)
        },
{
    let r = pair_insert(m, k, v);
    lemma_pair_index(m, k);
    let i = pair_index(m, k);
    assert forall|q: Seq<char>| #[trigger] lookup(r, q) == if q == k {
        Some(v)
    } else {
        lookup(m, q)
    } by {
        lemma_pair_index(m, q);
        lemma_pair_index(r, q);
        let a = pair_index(m, q);
        let b = pair_index(r, q);
        if i >= 0 {
            assert(r.len() == m.len());
            if q == k {
                assert(r[i].0 == k);
                if b >= 0 && b < i {
                    assert(r[b] == m[b]);
                }
                if b > i || b == -1 {
                    assert(r[i].0 == q);
                }
                assert(b == i);
            } else {
                assert forall|j: int| 0 <= j < r.len() implies (#[trigger] r[j].0 == q) == (m[j].0 == q) by {
                    if j == i {
                        assert(m[j].0 == k);
                    }
                }
                if a >= 0 {
                    assert(a != i);
                    if b >= 0 && b < a {
                        assert(r[b].0 == q);
                        assert(m[b].0 == q);
                    }
                    if b == -1 || b > a {
                        assert(r[a].0 == q);
                    }
                    assert(b == a);
                    assert(r[a] == m[a]);
                } else {
                    if b >= 0 {
                        assert(m[b].0 == q);
                    }
                }
            }
        } else {
            assert(r.len() == m.len() + 1);
            assert forall|j: int| 0 <= j < m.len() implies r[j] == m[j] by {}
            if q == k {
                if b >= 0 && b < m.len() {
                    assert(m[b].0 == k);
                }
                assert(r[m.len() as int].0 == k);
                assert(b == m.len());
            } else {
                if a >= 0 {
                    if b >= 0 && b < a {
                        assert(m[b].0 == q);
                    }
                    if b == -1 || b > a {
                        assert(r[a].0 == q);
                    }
                } else {
                    if b >= 0 && b < m.len() {
                        assert(m[b].0 == q);
                    }
                    if b == m.len() {
                        assert(r[b].0 == k);
                    }
                }
            }
        }
    }
    assert forall|x: int, y: int| 0 <= x < y < r.len() implies r[x].0 != r[y].0 by {
        if i >= 0 {
            if x == i {
                assert(m[y].0 == r[y].0);
                assert(m[x].0 == k);
            } else if y == i {
                assert(m[x].0 == r[x].0);
                assert(m[y].0 == k);
            } else {
                assert(m[x] == r[x] && m[y] == r[y]);
            }
        } else {
            if y == m.len() {
                assert(r[x] == m[x]);
            } else {
                assert(m[x] == r[x] && m[y] == r[y]);
            }
        }
    }
}

fn position(list: &Vec<(String, String)>, key: &String) -> (r: Option<usize>)
    ensures
        r matches Some(j) ==> pair_index(pair_views(list@), key@) == j,
        r is None ==> pair_index(pair_views(list@), key@) == -1,
{
    let ghost m = pair_views(list@);
    let mut j: usize = 0;
    while j < list.len()
        invariant
            j <= list@.len(),
            m == pair_views(list@),
            forall|i: int| 0 <= i < j ==> m[i].0 != key@,
        decreases list@.len() - j,
    {
        if list[j].0 == *key {
            proof {
                lemma_pair_index(m, key@);
                let ki = pair_index(m, key@);
                assert(m[j as int].0 == key@);
                if ki >= 0 && ki < j {
                    assert(m[ki].0 == key@);
                }
            }
            return Some(j);
        }
        j = j + 1;
    }
    proof {
        lemma_pair_index(m, key@);
        let ki = pair_index(m, key@);
        if ki >= 0 {
            assert(m[ki].0 == key@);
        }
    }
    None
}

/// The query parameters of a websocket request, as a map from key to value.
pub struct ProxyData {
    query: Vec<(String, String)>,
}

impl ProxyData {
    /// The parameters, each key once, in the order they came first.
    pub closed spec fn pairs(self) -> Seq<(Seq<char>, Seq<char>)> {
        pair_views(self.query@)
    }

    #[verifier::type_invariant]
    spec fn keys_distinct(self) -> bool {
        distinct_keys(pair_views(self.query@))
    }

    /// The map that the parameters of a request make; a key given twice keeps
    /// its last value.
    pub fn new(pairs: Vec<(String, String)>) -> (res: ProxyData)
        ensures
            res.pairs() == query_map(pair_views(pairs@)),
    {
        let ghost p = pair_views(pairs@);
        let mut query: Vec<(String, String)> = Vec::new();
        let mut k: usize = 0;
        while k < pairs.len()
            invariant
                k <= pairs@.len(),
                p == pair_views(pairs@),
                pair_views(query@) == query_map(p.take(k as int)),
                distinct_keys(pair_views(query@)),
            decreases pairs@.len() - k,
        {
            assert(p.take(k + 1).drop_last() =~= p.take(k as int));
            assert(p.take(k + 1).last() == p[k as int]);
            let ghost before = pair_views(query@);
            proof {
                lemma_pair_insert(before, p[k as int].0, p[k as int].1);
                lemma_pair_index(before, p[k as int].0);
            }
            let entry = (pairs[k].0.clone(), pairs[k].1.clone());
            match position(&query, &pairs[k].0) {
                Some(j) => {
                    query.set(j, entry);
                    assert(pair_views(query@) =~= before.update(j as int, (p[k as int].0, p[k as int].1)));
                },
                None => {
                    query.push(entry);
                    assert(pair_views(query@) =~= before.push((p[k as int].0, p[k as int].1)));
                },
            }
            k = k + 1;
        }
        assert(p.take(k as int) =~= p);
        ProxyData { query }
    }

    /// The value of a parameter.
    pub fn get(&self, key: &str) -> (res: Option<String>)
        ensures
            res matches Some(v) ==> lookup(self.pairs(), key@) == Some(v@),
            res is None ==> lookup(self.pairs(), key@) is None,
    {
        proof {
            use_type_invariant(self);
            lemma_pair_index(self.pairs(), key@);
        }
        let k = chars_of(key);
        let mut j: usize = 0;
        while j < self.query.len()
            invariant
                j <= self.query@.len(),
                k@ == key@,
                forall|i: int| 0 <= i < j ==> self.pairs()[i].0 != key@,
            decreases self.query@.len() - j,
        {
            if crate::text::equals(&chars_of(self.query[j].0.as_str()), &k) {
                let ghost ki = pair_index(self.pairs(), key@);
                proof {
                    lemma_pair_index(self.pairs(), key@);
                    assert(self.pairs()[j as int].0 == key@);
                    if ki >= 0 && ki < j {
                        assert(self.pairs()[ki].0 == key@);
                    }
                }
                assert(ki == j);
                return Some(self.query[j].1.clone());
            }
            j = j + 1;
        }
        proof {
            lemma_pair_index(self.pairs(), key@);
            let ki = pair_index(self.pairs(), key@);
            if ki >= 0 {
                assert(self.pairs()[ki].0 == key@);
            }
        }
        None
    }
}

/// The map made of a list of query pairs answers every key with the value
/// last given for it.
pub proof fn lemma_query_map_lookup(p: Seq<(Seq<char>, Seq<char>)>)
    ensures
        distinct_keys(query_map(p)),
        forall|q: Seq<char>| #[trigger] lookup(query_map(p), q) == last_value(p, q),
    decreases p.len(),
{
    if p.len() == 0 {
        assert forall|q: Seq<char>| #[trigger] lookup(query_map(p), q) == last_value(p, q) by {
            assert(pair_index(Seq::<(Seq<char>, Seq<char>)>::empty(), q) == -1);
        }
    } else {
        lemma_query_map_lookup(p.drop_last());
        lemma_pair_insert(query_map(p.drop_last()), p.last().0, p.last().1);
        assert forall|q: Seq<char>| #[trigger] lookup(query_map(p), q) == last_value(p, q) by {
            assert(lookup(query_map(p.drop_last()), q) == last_value(p.drop_last(), q));
        }
    }
}

/// Looking a key up in the parameters of a request gives the value that the
/// request gave last for that key.
pub proof fn lemma_proxy_data_last_value_wins(pairs: Seq<(String, String)>, data: ProxyData, key: Seq<char>)
    requires
        data.pairs() == query_map(pair_views(pairs)),
    ensures
        lookup(data.pairs(), key) == last_value(pair_views(pairs), key),
{
    lemma_query_map_lookup(pair_views(pairs));
}

/// The parameters passed on to the upstream websocket: those whose key does
/// not start with `origin=`, in order.
pub open spec fn passed_pairs(m: Seq<(Seq<char>, Seq<char>)>) -> Seq<(Seq<char>, Seq<char>)>
    decreases m.len(),
{
    if m.len() == 0 {
        Seq::empty()
    } else if starts_with(m.last().0, "origin="@) {
        passed_pairs(m.drop_last())
    } else {
        passed_pairs(m.drop_last()).push(m.last())
    }
}

/// The parameters passed on upstream are exactly those whose key does not
/// start with `origin=`: each of them is passed on, and no other.
pub proof fn lemma_passed_pairs(m: Seq<(Seq<char>, Seq<char>)>)
    ensures
        forall|j: int| 0 <= j < passed_pairs(m).len() ==> !starts_with(#[trigger] passed_pairs(m)[j].0, "origin="@),
        forall|j: int| 0 <= j < m.len() && !starts_with(m[j].0, "origin="@) ==> #[trigger] passed_pairs(m).contains(m[j]),
    decreases m.len(),
{
    if m.len() > 0 {
        lemma_passed_pairs(m.drop_last());
        let p = passed_pairs(m.drop_last());
        assert forall|j: int| 0 <= j < m.len() && !starts_with(m[j].0, "origin="@) implies #[trigger] passed_pairs(m).contains(m[j]) by {
            if j < m.len() - 1 {
                assert(m[j] == m.drop_last()[j]);
                assert(p.contains(m[j]));
                if !starts_with(m.last().0, "origin="@) {
                    let q = choose|x: int| 0 <= x < p.len() && p[x] == m[j];
                    assert(passed_pairs(m)[q] == m[j]);
                }
            } else {
                assert(passed_pairs(m)[passed_pairs(m).len() - 1] == m[j]);
            }
        }
    }
}

impl ProxyData {
    /// All parameters, each key once.
    pub fn to_pairs(&self) -> (res: Vec<(String, String)>)
        ensures
            pair_views(res@) == self.pairs(),
    {
        let ghost m = self.pairs();
        let mut out: Vec<(String, String)> = Vec::new();
        let mut k: usize = 0;
        while k < self.query.len()
            invariant
                k <= self.query@.len(),
                m == pair_views(self.query@),
                pair_views(out@) == m.take(k as int),
            decreases self.query@.len() - k,
        {
            let ghost before = out@;
            assert(pair_views(before).len() == before.len());
            out.push((self.query[k].0.clone(), self.query[k].1.clone()));
            assert(out@[k as int].0@ == m[k as int].0 && out@[k as int].1@ == m[k as int].1);
            assert forall|i: int| 0 <= i < k + 1 implies #[trigger] pair_views(out@)[i] == m.take(k + 1)[i] by {
                if i < k {
                    assert(pair_views(before)[i] == m.take(k as int)[i]);
                }
            }
            assert(pair_views(out@) =~= m.take(k + 1));
            k = k + 1;
        }
        assert(m.take(k as int) =~= m);
        out
    }

    /// The parameters passed on upstream.
    pub fn passed_on(&self) -> (res: Vec<(String, String)>)
        ensures
            pair_views(res@) == passed_pairs(self.pairs()),
    {
        let ghost m = self.pairs();
        let prefix = chars_of("origin=");
        let mut out: Vec<(String, String)> = Vec::new();
        let mut k: usize = 0;
        while k < self.query.len()
            invariant
                k <= self.query@.len(),
                m == self.pairs(),
                m == pair_views(self.query@),
                prefix@ == "origin="@,
                pair_views(out@) == passed_pairs(m.take(k as int)),
            decreases self.query@.len() - k,
        {
            assert(m.take(k + 1).drop_last() =~= m.take(k as int));
            assert(m.take(k + 1).last() == m[k as int]);
            if !has_prefix(&chars_of(self.query[k].0.as_str()), &prefix) {
                let ghost before = out@;
                out.push((self.query[k].0.clone(), self.query[k].1.clone()));
                assert(pair_views(out@) =~= pair_views(before).push(m[k as int]));
            }
            k = k + 1;
        }
        assert(m.take(k as int) =~= m);
        out
    }

    /// The page origin that the client sent as the `origin` parameter, or
    /// the empty text.
    pub fn origin(&self) -> (res: String)
        ensures
            lookup(self.pairs(), "origin"@) matches Some(o) ==> res@ == o,
            lookup(self.pairs(), "origin"@) is None ==> res@ == Seq::<char>::empty(),
    {
        match self.get("origin") {
            Some(o) => o,
            None => String::new(),
        }
    }
}

/// Whether an address and query pairs stay within `url_edit_limit`
/// characters together.
fn within_edit_limit(url: &str, pairs: &Vec<(String, String)>) -> (r: bool)
    ensures
        r == (url@.len() + pairs_size(pair_views(pairs@)) <= url_edit_limit()),
{
    let ghost pv = pair_views(pairs@);
    let mut total: usize = chars_of(url).len();
    if total > URL_EDIT_LIMIT {
        proof {
            lemma_pairs_size_nonneg(pv);
        }
        return false;
    }
    let mut k: usize = 0;
    while k < pairs.len()
        invariant
            k <= pairs@.len(),
            pv == pair_views(pairs@),
            total == url@.len() + pairs_size(pv.take(k as int)),
            total <= URL_EDIT_LIMIT,
        decreases pairs@.len() - k,
    {
        assert(pv.take(k + 1).drop_last() =~= pv.take(k as int));
        let a = chars_of(pairs[k].0.as_str()).len();
        let b = chars_of(pairs[k].1.as_str()).len();
        if a > URL_EDIT_LIMIT - total || b > URL_EDIT_LIMIT - total - a || 2 > URL_EDIT_LIMIT - total - a - b {
            proof {
                lemma_pairs_size_prefix(pv, k + 1);
                lemma_pairs_size_nonneg(pv.skip(k + 1));
            }
            return false;
        }
        total = total + a + b + 2;
        k = k + 1;
    }
    assert(pv.take(k as int) =~= pv);
    true
}

/// Query pairs add no negative size.
proof fn lemma_pairs_size_nonneg(p: Seq<(Seq<char>, Seq<char>)>)
    ensures
        pairs_size(p) >= 0,
    decreases p.len(),
{
    if p.len() > 0 {
        lemma_pairs_size_nonneg(p.drop_last());
    }
}

/// The size of a list of pairs is that of a prefix and of the rest together.
proof fn lemma_pairs_size_prefix(p: Seq<(Seq<char>, Seq<char>)>, n: int)
    requires
        0 <= n <= p.len(),
    ensures
        pairs_size(p) == pairs_size(p.take(n)) + pairs_size(p.skip(n)),
    decreases p.len(),
{
    if n < p.len() {
        lemma_pairs_size_prefix(p.drop_last(), n);
        assert(p.drop_last().take(n) =~= p.take(n));
        assert(p.drop_last().skip(n) =~= p.skip(n).drop_last());
        assert(p.skip(n).last() == p.last());
    } else {
        assert(p.take(n) =~= p);
        assert(p.skip(n) =~= Seq::<(Seq<char>, Seq<char>)>::empty());
    }
}

/// The upstream websocket address for the address `url` of a websocket
/// request, with the request's parameters as its query; `None` where `url`
/// does not parse or, with the parameters, passes `url_edit_limit`
/// characters (the proxy answers `400 Bad Request`).
pub fn upstream_url(url: &str, data: &ProxyData) -> (res: Option<String>)
    ensures
        res is None <==> parsed_url(url@) is None || url@.len() + pairs_size(passed_pairs(data.pairs()))
            > url_edit_limit(),
        res matches Some(u) ==> u@ == url_with_pairs(url@, passed_pairs(data.pairs())),
{
    match parse_url(url) {
        Some(_) => {
            let pairs = data.passed_on();
            if !within_edit_limit(url, &pairs) {
                return None;
            }
            let r = set_url_pairs(url, &pairs);
            assert(pairs@.map_values(|p: (String, String)| (p.0@, p.1@)) =~= pair_views(pairs@));
            Some(r)
        },
        None => None,
    }
}

/// A websocket close frame.
#[derive(Debug, Clone, PartialEq, Eq)]
pub struct CloseFrame {
    pub code: u16,
    pub reason: String,
}

/// A websocket message, as either side of the relay sends it.
#[derive(Debug, Clone, PartialEq, Eq)]
pub enum WsMessage {
    Text(String),
    Binary(Vec<u8>),
    Ping(Vec<u8>),
    Pong(Vec<u8>),
    Close(Option<CloseFrame>),
    /// A raw frame, which only the upstream side yields.
    Frame,
}

/// The message as the other side gets it: the same data, a close without
/// its frame, and a raw frame read as a close.
pub open spec fn relayed(m: WsMessage) -> WsMessage {
    match m {
        WsMessage::Close(_) => WsMessage::Close(None),
        WsMessage::Frame => WsMessage::Close(None),
        _ => m,
    }
}

/// A message from the browser as it goes upstream.
pub fn axum_message_handler(msg: WsMessage) -> (res: WsMessage)
    ensures
        res == relayed(msg),
{
    match msg {
        WsMessage::Text(text) => WsMessage::Text(text),
        WsMessage::Binary(bin) => WsMessage::Binary(bin),
        WsMessage::Ping(m) => WsMessage::Ping(m),
        WsMessage::Pong(m) => WsMessage::Pong(m),
        WsMessage::Close(_) => WsMessage::Close(None),
        WsMessage::Frame => WsMessage::Close(None),
    }
}

/// A message from upstream as it goes to the browser.
pub fn tungstenite_message_handler(msg: WsMessage) -> (res: WsMessage)
    ensures
        res == relayed(msg),
{
    match msg {
        WsMessage::Text(text) => WsMessage::Text(text),
        WsMessage::Binary(bin) => WsMessage::Binary(bin),
        WsMessage::Ping(m) => WsMessage::Ping(m),
        WsMessage::Pong(m) => WsMessage::Pong(m),
        WsMessage::Close(_) => WsMessage::Close(None),
        WsMessage::Frame => WsMessage::Close(None),
    }
}

/// Relaying a message twice changes nothing more than relaying it once: a
/// relayed message keeps its data, and every close becomes a plain close.
pub proof fn lemma_relay_idempotent(m: WsMessage)
    ensures
        relayed(relayed(m)) == relayed(m),
        m is Text || m is Binary || m is Ping || m is Pong ==> relayed(m) == m,
        m is Close || m is Frame ==> relayed(m) == WsMessage::Close(None),
{
}

/// What the relay loop sees next.
#[derive(Debug, Clone, PartialEq, Eq)]
pub enum RelayEvent {
    /// A message arrived from the browser.
    FromClient(WsMessage),
    /// A message arrived from the upstream server.
    FromServer(WsMessage),
    /// Neither side has anything more.
    Ended,
}

/// What the relay loop does next.
#[derive(Debug, Clone, PartialEq, Eq)]
pub enum RelayAction {
    /// Send the message upstream; stop afterwards if `last` or if sending
    /// fails.
    ToServer { message: WsMessage, last: bool },
    /// Send the message to the browser; stop afterwards if `last` or if
    /// sending fails.
    ToClient { message: WsMessage, last: bool },
    /// Stop relaying and close both sides.
    Stop,
}

/// The relay's decision for an event, as `relay_step` makes it.
pub open spec fn relay_action(event: RelayEvent) -> RelayAction {
    match event {
        RelayEvent::FromClient(m) => RelayAction::ToServer {
            message: relayed(m),
            last: relayed(m) == WsMessage::Close(None),
        },
        RelayEvent::FromServer(m) => RelayAction::ToClient {
            message: relayed(m),
            last: relayed(m) == WsMessage::Close(None),
        },
        RelayEvent::Ended => RelayAction::Stop,
    }
}

/// The relay's decision for an event: a message goes to the other side as
/// relayed, and a close is the last message sent.
pub fn relay_step(event: RelayEvent) -> (res: RelayAction)
    ensures
        res == relay_action(event),
        event matches RelayEvent::FromClient(m) ==> res == (RelayAction::ToServer {
            message: relayed(m),
            last: relayed(m) == WsMessage::Close(None),
        }),
        event matches RelayEvent::FromServer(m) ==> res == (RelayAction::ToClient {
            message: relayed(m),
            last: relayed(m) == WsMessage::Close(None),
        }),
        event is Ended ==> res == RelayAction::Stop,
{
    match event {
        RelayEvent::FromClient(m) => {
            let message = axum_message_handler(m);
            let last = matches!(message, WsMessage::Close(None));
            RelayAction::ToServer { message, last }
        },
        RelayEvent::FromServer(m) => {
            let message = tungstenite_message_handler(m);
            let last = matches!(message, WsMessage::Close(None));
            RelayAction::ToClient { message, last }
        },
        RelayEvent::Ended => RelayAction::Stop,
    }
}

/// The sends that the relay loop makes for a run of events, each send
/// succeeding: one per event, up to the first `last` send or the end.
pub open spec fn relay_sends(events: Seq<RelayEvent>) -> Seq<RelayAction>
    decreases events.len(),
{
    if events.len() == 0 {
        Seq::empty()
    } else {
        match relay_action(events[0]) {
            RelayAction::Stop => Seq::empty(),
            RelayAction::ToServer { message, last } => if last {
                seq![relay_action(events[0])]
            } else {
                seq![relay_action(events[0])] + relay_sends(events.skip(1))
            },
            RelayAction::ToClient { message, last } => if last {
                seq![relay_action(events[0])]
            } else {
                seq![relay_action(events[0])] + relay_sends(events.skip(1))
            },
        }
    }
}

/// The messages that a run of sends carries upstream.
pub open spec fn to_server(sends: Seq<RelayAction>) -> Seq<WsMessage>
    decreases sends.len(),
{
    if sends.len() == 0 {
        Seq::empty()
    } else {
        match sends[0] {
            RelayAction::ToServer { message, last } => seq![message] + to_server(sends.skip(1)),
            _ => to_server(sends.skip(1)),
        }
    }
}

/// The messages that a run of sends carries to the browser.
pub open spec fn to_client(sends: Seq<RelayAction>) -> Seq<WsMessage>
    decreases sends.len(),
{
    if sends.len() == 0 {
        Seq::empty()
    } else {
        match sends[0] {
            RelayAction::ToClient { message, last } => seq![message] + to_client(sends.skip(1)),
            _ => to_client(sends.skip(1)),
        }
    }
}

/// The browser's messages among a run of events, relayed.
pub open spec fn client_messages(events: Seq<RelayEvent>) -> Seq<WsMessage>
    decreases events.len(),
{
    if events.len() == 0 {
        Seq::empty()
    } else {
        match events[0] {
            RelayEvent::FromClient(m) => seq![relayed(m)] + client_messages(events.skip(1)),
            _ => client_messages(events.skip(1)),
        }
    }
}

/// The upstream server's messages among a run of events, relayed.
pub open spec fn server_messages(events: Seq<RelayEvent>) -> Seq<WsMessage>
    decreases events.len(),
{
    if events.len() == 0 {
        Seq::empty()
    } else {
        match events[0] {
            RelayEvent::FromServer(m) => seq![relayed(m)] + server_messages(events.skip(1)),
            _ => server_messages(events.skip(1)),
        }
    }
}

/// The relay keeps the order of each direction: where every send succeeds,
/// the loop handles the first `n` events, upstream goes exactly the browser's
/// messages among them, relayed and in order, the browser gets exactly the
/// upstream messages among them, and only the last send can be a close.
pub proof fn lemma_relay_order(events: Seq<RelayEvent>)
    ensures
        relay_sends(events).len() <= events.len(),
        forall|i: int| 0 <= i < relay_sends(events).len() ==> #[trigger] relay_sends(events)[i] == relay_action(events[i]),
        to_server(relay_sends(events)) == client_messages(events.take(relay_sends(events).len() as int)),
        to_client(relay_sends(events)) == server_messages(events.take(relay_sends(events).len() as int)),
        forall|i: int| 0 <= i < relay_sends(events).len() - 1 ==> !(#[trigger] relay_sends(events)[i] matches RelayAction::ToServer { last: true, .. })
            && !(relay_sends(events)[i] matches RelayAction::ToClient { last: true, .. }),
    decreases events.len(),
{
    if events.len() > 0 {
        let rest = events.skip(1);
        lemma_relay_order(rest);
        let sends = relay_sends(events);
        let tail = relay_sends(rest);
        let n = sends.len() as int;
        match relay_action(events[0]) {
            RelayAction::Stop => {
                assert(events.take(0) =~= Seq::<RelayEvent>::empty());
            },
            _ => {
                let a = relay_action(events[0]);
                let one = seq![a];
                let last = match a {
                    RelayAction::ToServer { message, last } => last,
                    RelayAction::ToClient { message, last } => last,
                    RelayAction::Stop => true,
                };
                if last {
                    assert(sends =~= one);
                    assert(one.skip(1) =~= Seq::<RelayAction>::empty());
                    assert(events.take(1).skip(1) =~= Seq::<RelayEvent>::empty());
                    assert(to_server(Seq::<RelayAction>::empty()) =~= Seq::<WsMessage>::empty());
                    assert(to_client(Seq::<RelayAction>::empty()) =~= Seq::<WsMessage>::empty());
                    assert(client_messages(Seq::<RelayEvent>::empty()) =~= Seq::<WsMessage>::empty());
                    assert(server_messages(Seq::<RelayEvent>::empty()) =~= Seq::<WsMessage>::empty());
                } else {
                    assert(sends =~= one + tail);
                    assert(sends.skip(1) =~= tail);
                    assert(events.take(n).skip(1) =~= rest.take(n - 1));
                    assert forall|i: int| 0 <= i < n implies #[trigger] sends[i] == relay_action(events[i]) by {
                        if i > 0 {
                            assert(sends[i] == tail[i - 1]);
                            assert(events[i] == rest[i - 1]);
                        }
                    }
                    assert forall|i: int| 0 <= i < n - 1 implies !(#[trigger] sends[i] matches RelayAction::ToServer { last: true, .. })
                        && !(sends[i] matches RelayAction::ToClient { last: true, .. }) by {
                        if i > 0 {
                            assert(sends[i] == tail[i - 1]);
                        }
                    }
                }
                assert(events.take(n)[0] == events[0]);
            },
        }
    }
}

/// The host of an upstream websocket address, or the empty text.
pub fn upstream_host(url: &str) -> (res: String)
    ensures
        url_host(url@) matches Some(h) ==> res@ == h,
        url_host(url@) is None ==> res@ == Seq::<char>::empty(),
{
    match host_of(url) {
        Some(h) => h,
        None => String::new(),
    }
}

/// The upstream side of a websocket request: where it goes and with which
/// handshake headers.
pub struct Handshake {
    pub url: String,
    pub headers: Vec<(String, Vec<u8>)>,
}

/// The upstream handshake for a websocket request to `url` with query `data`
/// and request headers `headers`: the address with the passed-on parameters,
/// and the headers with `origin` set to the page origin from the query and
/// `host` to the upstream host. `None` where `upstream_url` gives none.
pub fn handshake(url: &str, data: &ProxyData, headers: &Vec<(String, Vec<u8>)>) -> (res: Option<Handshake>)
    ensures
        res is None <==> parsed_url(url@) is None || url@.len() + pairs_size(passed_pairs(data.pairs()))
            > url_edit_limit(),
        res matches Some(hs) ==> {
            let target = url_with_pairs(url@, passed_pairs(data.pairs()));
            let origin = match lookup(data.pairs(), "origin"@) {
                Some(o) => o,
                None => Seq::<char>::empty(),
            };
            let host = match url_host(target) {
                Some(h) => h,
                None => Seq::<char>::empty(),
            };
            &&& hs.url@ == target
            &&& header_views(hs.headers@) == handshake_headers(header_views(headers@), origin, host)
        },
{
    match upstream_url(url, data) {
        Some(target) => {
            let origin = data.origin();
            let host = upstream_host(target.as_str());
            let hs = handshake_request_headers(headers, origin.as_str(), host.as_str());
            Some(Handshake { url: target, headers: hs })
        },
        None => None,
    }
}

} // verus!
