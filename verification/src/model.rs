//! The mathematical model of the cache: a sequence of entries ordered from
//! most-recently-used to least-recently-used, and the pure transitions that
//! `put`, `get` and `remove` perform on it. The laws of the cache are stated
//! and proved here, over the model.
use vstd::prelude::*;

verus! {

/// One live entry of the cache, as the model sees it.
pub struct Entry<V> {
    pub key: Seq<char>,
    pub value: V,
    pub expires_at: Option<u64>,
}

/// No key occurs twice.
pub open spec fn keys_distinct<V>(es: Seq<Entry<V>>) -> bool {
    forall|i: int, j: int|
        0 <= i < es.len() && 0 <= j < es.len() && #[trigger] es[i].key == #[trigger] es[j].key
            ==> i == j
}

/// The invariant of every cache: at most `cap` entries, each key once.
pub open spec fn entries_wf<V>(es: Seq<Entry<V>>, cap: nat) -> bool {
    es.len() <= cap && keys_distinct(es)
}

/// Some entry carries key `k`.
pub open spec fn holds_key<V>(es: Seq<Entry<V>>, k: Seq<char>) -> bool {
    exists|i: int| 0 <= i < es.len() && #[trigger] es[i].key == k
}

/// The position of the entry with key `k` (meaningful when `holds_key(es, k)`).
pub open spec fn key_position<V>(es: Seq<Entry<V>>, k: Seq<char>) -> int {
    choose|i: int| 0 <= i < es.len() && #[trigger] es[i].key == k
}

/// The expiry stamp that a `put` at time `now` with time-to-live `ttl` records:
/// `now + ttl`, saturating at `u64::MAX`; no stamp when there is no TTL.
pub open spec fn expiry_after(now: u64, ttl: Option<u64>) -> Option<u64> {
    match ttl {
        Some(d) => Some(
            if now + d > u64::MAX {
                u64::MAX
            } else {
                (now + d) as u64
            },
        ),
        None => None,
    }
}

/// An entry with stamp `exp` is expired at time `now` when `now >= exp`;
/// an entry without a stamp never expires.
pub open spec fn is_expired(exp: Option<u64>, now: u64) -> bool {
    match exp {
        Some(e) => now >= e,
        None => false,
    }
}

/// Whether a `put` of key `k` must evict the least-recently-used entry first.
pub open spec fn put_evicts<V>(es: Seq<Entry<V>>, cap: nat, k: Seq<char>) -> bool {
    cap > 0 && !holds_key(es, k) && es.len() >= cap
}

/// The entries after `put(k, v)` with expiry stamp `exp` on a cache of capacity `cap`.
pub open spec fn after_put<V>(
    es: Seq<Entry<V>>,
    cap: nat,
    k: Seq<char>,
    v: V,
    exp: Option<u64>,
) -> Seq<Entry<V>> {
    let e = Entry { key: k, value: v, expires_at: exp };
    if cap == 0 {
        es
    } else if holds_key(es, k) {
        seq![e] + es.remove(key_position(es, k))
    } else if es.len() >= cap {
        seq![e] + es.drop_last()
    } else {
        seq![e] + es
    }
}

/// What a lookup finds.
pub enum Lookup {
    /// No entry with the key.
    Miss,
    /// An entry with the key, whose time has run out.
    Expired,
    /// A live entry with the key.
    Hit,
}

/// The outcome of `get(k)` at time `now`.
pub open spec fn lookup_kind<V>(es: Seq<Entry<V>>, k: Seq<char>, now: u64) -> Lookup {
    if !holds_key(es, k) {
        Lookup::Miss
    } else if is_expired(es[key_position(es, k)].expires_at, now) {
        Lookup::Expired
    } else {
        Lookup::Hit
    }
}

/// The entries after `get(k)` at time `now`: unchanged on a miss, the entry
/// dropped when expired, the entry moved to the front on a hit.
pub open spec fn after_get<V>(es: Seq<Entry<V>>, k: Seq<char>, now: u64) -> Seq<Entry<V>> {
    let i = key_position(es, k);
    match lookup_kind(es, k, now) {
        Lookup::Miss => es,
        Lookup::Expired => es.remove(i),
        Lookup::Hit => seq![es[i]] + es.remove(i),
    }
}

/// What `get(k)` at time `now` returns: a clone of the value on a hit, `None` otherwise.
pub open spec fn get_returns<V: Clone>(
    es: Seq<Entry<V>>,
    k: Seq<char>,
    now: u64,
    r: Option<V>,
) -> bool {
    match lookup_kind(es, k, now) {
        Lookup::Hit => r is Some && cloned(es[key_position(es, k)].value, r.unwrap()),
        _ => r is None,
    }
}

/// The entries after `remove(k)`: the entry with key `k` dropped, if there is one.
pub open spec fn after_remove<V>(es: Seq<Entry<V>>, k: Seq<char>) -> Seq<Entry<V>> {
    if holds_key(es, k) {
        es.remove(key_position(es, k))
    } else {
        es
    }
}

/// The keys from most- to least-recently-used.
pub open spec fn keys_of<V>(es: Seq<Entry<V>>) -> Seq<Seq<char>> {
    es.map_values(|e: Entry<V>| e.key)
}

/// With distinct keys, the position of a key is the one index that carries it.
pub proof fn lemma_key_position<V>(es: Seq<Entry<V>>, i: int)
    requires
        keys_distinct(es),
        0 <= i < es.len(),
    ensures
        holds_key(es, es[i].key),
        key_position(es, es[i].key) == i,
{
    let k = es[i].key;
    assert(es[i].key == k);
    let j = key_position(es, k);
    assert(0 <= j < es.len() && es[j].key == k);
}

/// Removing one entry keeps keys distinct, and the other keys stay present.
proof fn lemma_remove_keeps_distinct<V>(es: Seq<Entry<V>>, i: int)
    requires
        keys_distinct(es),
        0 <= i < es.len(),
    ensures
        keys_distinct(es.remove(i)),
        !holds_key(es.remove(i), es[i].key),
        forall|j: int| 0 <= j < es.len() && j != i ==> holds_key(es.remove(i), #[trigger] es[j].key),
{
    let r = es.remove(i);
    assert forall|a: int, b: int|
        0 <= a < r.len() && 0 <= b < r.len() && #[trigger] r[a].key == #[trigger] r[b].key implies a
        == b by {
        let a0 = if a < i { a } else { a + 1 };
        let b0 = if b < i { b } else { b + 1 };
        assert(r[a] == es[a0]);
        assert(r[b] == es[b0]);
    }
    if holds_key(r, es[i].key) {
        let a = choose|a: int| 0 <= a < r.len() && #[trigger] r[a].key == es[i].key;
        let a0 = if a < i { a } else { a + 1 };
        assert(r[a] == es[a0]);
    }
    assert forall|j: int| 0 <= j < es.len() && j != i implies holds_key(r, #[trigger] es[j].key) by {
        let a = if j < i { j } else { j - 1 };
        assert(r[a] == es[j]);
    }
}

/// Prepending an entry whose key is absent keeps keys distinct.
proof fn lemma_prepend_keeps_distinct<V>(e: Entry<V>, es: Seq<Entry<V>>)
    requires
        keys_distinct(es),
        !holds_key(es, e.key),
    ensures
        keys_distinct(seq![e] + es),
{
    let r = seq![e] + es;
    assert forall|a: int, b: int|
        0 <= a < r.len() && 0 <= b < r.len() && #[trigger] r[a].key == #[trigger] r[b].key implies a
        == b by {
        if a > 0 {
            assert(r[a] == es[a - 1]);
        }
        if b > 0 {
            assert(r[b] == es[b - 1]);
        }
        if a == 0 && b > 0 {
            assert(es[b - 1].key == e.key);
        }
        if b == 0 && a > 0 {
            assert(es[a - 1].key == e.key);
        }
    }
}

/// Law: every `put` keeps the cache within its capacity and its keys distinct.
pub proof fn lemma_put_keeps_entries_wf<V>(
    es: Seq<Entry<V>>,
    cap: nat,
    k: Seq<char>,
    v: V,
    exp: Option<u64>,
)
    requires
        entries_wf(es, cap),
    ensures
        entries_wf(after_put(es, cap, k, v, exp), cap),
        after_put(es, cap, k, v, exp).len() <= cap,
{
    let e = Entry { key: k, value: v, expires_at: exp };
    if cap == 0 {
    } else if holds_key(es, k) {
        let i = key_position(es, k);
        lemma_remove_keeps_distinct(es, i);
        lemma_prepend_keeps_distinct(e, es.remove(i));
    } else if es.len() >= cap {
        let d = es.drop_last();
        lemma_remove_keeps_distinct(es, es.len() - 1);
        assert(d =~= es.remove(es.len() - 1));
        assert(!holds_key(d, k)) by {
            if holds_key(d, k) {
                let a = choose|a: int| 0 <= a < d.len() && #[trigger] d[a].key == k;
                assert(d[a] == es[a]);
            }
        }
        lemma_prepend_keeps_distinct(e, d);
    } else {
        lemma_prepend_keeps_distinct(e, es);
    }
}

/// Law: every `get` keeps the cache within its capacity and its keys distinct.
pub proof fn lemma_get_keeps_entries_wf<V>(es: Seq<Entry<V>>, cap: nat, k: Seq<char>, now: u64)
    requires
        entries_wf(es, cap),
    ensures
        entries_wf(after_get(es, k, now), cap),
{
    match lookup_kind(es, k, now) {
        Lookup::Miss => {},
        Lookup::Expired => {
            let i = key_position(es, k);
            lemma_remove_keeps_distinct(es, i);
        },
        Lookup::Hit => {
            let i = key_position(es, k);
            lemma_remove_keeps_distinct(es, i);
            lemma_prepend_keeps_distinct(es[i], es.remove(i));
        },
    }
}

/// Law: every `remove` keeps the cache within its capacity and its keys distinct.
pub proof fn lemma_remove_keeps_entries_wf<V>(es: Seq<Entry<V>>, cap: nat, k: Seq<char>)
    requires
        entries_wf(es, cap),
    ensures
        entries_wf(after_remove(es, k), cap),
        !holds_key(after_remove(es, k), k),
{
    if holds_key(es, k) {
        let i = key_position(es, k);
        lemma_remove_keeps_distinct(es, i);
    }
}

/// Law (read after write): on a cache with room for at least one entry, a `get`
/// of the key just put, at a time before its expiry, is a hit that returns the
/// value put and leaves the order as the `put` left it.
pub proof fn lemma_get_after_put<V>(
    es: Seq<Entry<V>>,
    cap: nat,
    k: Seq<char>,
    v: V,
    exp: Option<u64>,
    now: u64,
)
    requires
        entries_wf(es, cap),
        cap > 0,
        !is_expired(exp, now),
    ensures
        lookup_kind(after_put(es, cap, k, v, exp), k, now) == Lookup::Hit,
        after_put(es, cap, k, v, exp)[key_position(after_put(es, cap, k, v, exp), k)].value == v,
        after_get(after_put(es, cap, k, v, exp), k, now) == after_put(es, cap, k, v, exp),
{
    let p = after_put(es, cap, k, v, exp);
    lemma_put_keeps_entries_wf(es, cap, k, v, exp);
    assert(p[0].key == k);
    lemma_key_position(p, 0);
    assert(seq![p[0]] + p.remove(0) =~= p);
}

/// Law: overwriting a key that is present does not change the number of entries.
pub proof fn lemma_overwrite_keeps_len<V>(
    es: Seq<Entry<V>>,
    cap: nat,
    k: Seq<char>,
    v: V,
    exp: Option<u64>,
)
    requires
        entries_wf(es, cap),
        holds_key(es, k),
    ensures
        after_put(es, cap, k, v, exp).len() == es.len(),
{
    assert(0 <= key_position(es, k) < es.len());
}

/// Law (LRU eviction): putting a new key into a full cache drops exactly the
/// least-recently-used entry; every other entry stays, and the new key is first.
pub proof fn lemma_full_put_evicts_lru<V>(
    es: Seq<Entry<V>>,
    cap: nat,
    k: Seq<char>,
    v: V,
    exp: Option<u64>,
)
    requires
        entries_wf(es, cap),
        cap > 0,
        es.len() == cap,
        !holds_key(es, k),
    ensures
        put_evicts(es, cap, k),
        !holds_key(after_put(es, cap, k, v, exp), es.last().key),
        forall|j: int|
            0 <= j < es.len() - 1 ==> holds_key(after_put(es, cap, k, v, exp), #[trigger] es[j].key),
        after_put(es, cap, k, v, exp).len() == cap,
        after_put(es, cap, k, v, exp)[0] == (Entry { key: k, value: v, expires_at: exp }),
{
    let p = after_put(es, cap, k, v, exp);
    let last = es.len() - 1;
    lemma_remove_keeps_distinct(es, last);
    assert(es.drop_last() =~= es.remove(last));
    if holds_key(p, es[last].key) {
        let a = choose|a: int| 0 <= a < p.len() && #[trigger] p[a].key == es[last].key;
        if a == 0 {
            assert(es[last].key == k);
        } else {
            assert(p[a] == es.drop_last()[a - 1]);
        }
    }
    assert forall|j: int| 0 <= j < es.len() - 1 implies holds_key(p, #[trigger] es[j].key) by {
        assert(p[j + 1] == es[j]);
    }
}

/// Law (recency on read): after a hit on `k1`, putting another key `k2` into a
/// cache with room for two or more entries never evicts `k1`.
pub proof fn lemma_touched_key_survives_next_put<V>(
    es: Seq<Entry<V>>,
    cap: nat,
    k1: Seq<char>,
    now: u64,
    k2: Seq<char>,
    v: V,
    exp: Option<u64>,
)
    requires
        entries_wf(es, cap),
        cap >= 2,
        lookup_kind(es, k1, now) == Lookup::Hit,
        k2 != k1,
    ensures
        holds_key(after_put(after_get(es, k1, now), cap, k2, v, exp), k1),
{
    let g = after_get(es, k1, now);
    lemma_get_keeps_entries_wf(es, cap, k1, now);
    let i = key_position(es, k1);
    assert(g[0] == es[i]);
    let p = after_put(g, cap, k2, v, exp);
    if holds_key(g, k2) {
        let j = key_position(g, k2);
        assert(j != 0);
        assert(p[1] == g.remove(j)[0]);
        assert(p[1].key == k1);
    } else if g.len() >= cap {
        assert(p[1] == g.drop_last()[0]);
        assert(p[1].key == k1);
    } else {
        assert(p[1] == g[0]);
        assert(p[1].key == k1);
    }
}

/// Law: after `remove(k)`, a `get(k)` at any time is a miss.
pub proof fn lemma_get_after_remove_misses<V>(es: Seq<Entry<V>>, cap: nat, k: Seq<char>, now: u64)
    requires
        entries_wf(es, cap),
    ensures
        lookup_kind(after_remove(es, k), k, now) == Lookup::Miss,
{
    lemma_remove_keeps_entries_wf(es, cap, k);
}

/// Law (lazy expiry): a `get` that finds its entry expired removes it, so the key
/// is gone afterwards and the other entries keep their order.
pub proof fn lemma_expired_entry_is_dropped<V>(es: Seq<Entry<V>>, cap: nat, k: Seq<char>, now: u64)
    requires
        entries_wf(es, cap),
        lookup_kind(es, k, now) == Lookup::Expired,
    ensures
        !holds_key(after_get(es, k, now), k),
        after_get(es, k, now).len() == es.len() - 1,
{
    let i = key_position(es, k);
    lemma_remove_keeps_distinct(es, i);
}

/// Law: a cache of capacity zero never holds anything, so every `get` misses.
pub proof fn lemma_zero_capacity_holds_nothing<V>(
    es: Seq<Entry<V>>,
    k: Seq<char>,
    v: V,
    exp: Option<u64>,
    now: u64,
)
    requires
        entries_wf(es, 0),
    ensures
        after_put(es, 0, k, v, exp).len() == 0,
        lookup_kind(after_put(es, 0, k, v, exp), k, now) == Lookup::Miss,
{
}

/// Law: an entry put without a time-to-live never expires: every `get` of its
/// key, at any time, is a hit.
pub proof fn lemma_no_ttl_never_expires<V>(es: Seq<Entry<V>>, k: Seq<char>, now: u64)
    requires
        holds_key(es, k),
        es[key_position(es, k)].expires_at is None,
    ensures
        lookup_kind(es, k, now) == Lookup::Hit,
{
}

/// Law: putting a key the cache does not hold into a cache with room, then
/// removing that key, gives back the entries as they were, with no eviction.
pub proof fn lemma_put_then_remove_restores<V>(
    es: Seq<Entry<V>>,
    cap: nat,
    k: Seq<char>,
    v: V,
    exp: Option<u64>,
)
    requires
        entries_wf(es, cap),
        !holds_key(es, k),
        es.len() < cap,
    ensures
        !put_evicts(es, cap, k),
        holds_key(after_put(es, cap, k, v, exp), k),
        after_remove(after_put(es, cap, k, v, exp), k) == es,
{
    let p = after_put(es, cap, k, v, exp);
    lemma_put_keeps_entries_wf(es, cap, k, v, exp);
    assert(p[0].key == k);
    lemma_key_position(p, 0);
    assert(p.remove(0) =~= es);
}

} // verus!
