//! Whole histories of calls on the model: the state a cache reaches after a
//! sequence of operations, and the laws that hold over any such sequence.
use crate::cache::{count_lookup, count_put, Cache, Stats};
use crate::clock::Clock;
use crate::model::{
    after_get, after_put, after_remove, entries_wf, expiry_after, holds_key, lemma_get_keeps_entries_wf,
    lemma_put_keeps_entries_wf, lemma_remove_keeps_entries_wf, lookup_kind, put_evicts, Entry,
};
use vstd::prelude::*;

verus! {

/// Everything a caller can observe of a cache: its entries (most-recently-used
/// first), its capacity and its counters.
pub struct CacheState<V> {
    pub entries: Seq<Entry<V>>,
    pub cap: nat,
    pub stats: Stats,
}

/// The observable state of a cache.
pub open spec fn state_of<V, C: Clock>(c: &Cache<V, C>) -> CacheState<V> {
    CacheState { entries: c@, cap: c.cap() as nat, stats: c.counters() }
}

/// One call on a cache, with the clock reading it saw where it reads one.
pub enum Op<V> {
    /// `put(key, value, ttl)` at time `now`.
    Put { key: Seq<char>, value: V, ttl: Option<u64>, now: u64 },
    /// `get(key)` at time `now`.
    Get { key: Seq<char>, now: u64 },
    /// `remove(key)`.
    Remove { key: Seq<char> },
    /// `clear()`.
    Clear,
    /// A call that only reads: `len`, `is_empty`, `capacity`, `stats`, `keys_by_recency`.
    Read,
}

/// The key a `Put` op puts (meaningful for `Put` only).
pub open spec fn put_key<V>(op: Op<V>) -> Seq<char> {
    match op {
        Op::Put { key, .. } => key,
        _ => Seq::empty(),
    }
}

/// The state after one call, as the contracts of `Cache` state it.
pub open spec fn step<V>(s: CacheState<V>, op: Op<V>) -> CacheState<V> {
    match op {
        Op::Put { key, value, ttl, now } => CacheState {
            entries: after_put(s.entries, s.cap, key, value, expiry_after(now, ttl)),
            cap: s.cap,
            stats: count_put(s.stats, put_evicts(s.entries, s.cap, key)),
        },
        Op::Get { key, now } => CacheState {
            entries: after_get(s.entries, key, now),
            cap: s.cap,
            stats: count_lookup(s.stats, lookup_kind(s.entries, key, now)),
        },
        Op::Remove { key } => CacheState { entries: after_remove(s.entries, key), cap: s.cap, stats: s.stats },
        Op::Clear => CacheState { entries: Seq::empty(), cap: s.cap, stats: s.stats },
        Op::Read => s,
    }
}

/// The state after a sequence of calls, first call first.
pub open spec fn run<V>(s: CacheState<V>, ops: Seq<Op<V>>) -> CacheState<V>
    decreases ops.len(),
{
    if ops.len() == 0 {
        s
    } else {
        step(run(s, ops.drop_last()), ops.last())
    }
}

/// Law: no sequence of calls changes the capacity, and every state reached
/// stays within it with each key once.
pub proof fn lemma_run_keeps_capacity<V>(s: CacheState<V>, ops: Seq<Op<V>>)
    requires
        entries_wf(s.entries, s.cap),
    ensures
        run(s, ops).cap == s.cap,
        entries_wf(run(s, ops).entries, s.cap),
    decreases ops.len(),
{
    if ops.len() > 0 {
        let p = run(s, ops.drop_last());
        lemma_run_keeps_capacity(s, ops.drop_last());
        match ops.last() {
            Op::Put { key, value, ttl, now } => {
                lemma_put_keeps_entries_wf(p.entries, p.cap, key, value, expiry_after(now, ttl));
            },
            Op::Get { key, now } => {
                lemma_get_keeps_entries_wf(p.entries, p.cap, key, now);
            },
            Op::Remove { key } => {
                lemma_remove_keeps_entries_wf(p.entries, p.cap, key);
            },
            Op::Clear => {},
            Op::Read => {},
        }
    }
}

/// After `clear` and then puts of `m` pairwise distinct keys into a cache of
/// capacity at least `m`: exactly those keys, the last one put first, and the
/// counters as before the clear.
proof fn lemma_fill_prefix<V>(s: CacheState<V>, puts: Seq<Op<V>>, m: int)
    requires
        0 <= m <= puts.len() <= s.cap,
        forall|i: int| 0 <= i < puts.len() ==> #[trigger] puts[i] is Put,
        forall|i: int, j: int|
            0 <= i < puts.len() && 0 <= j < puts.len() && i != j ==> put_key(#[trigger] puts[i])
                != put_key(#[trigger] puts[j]),
    ensures
        run(s, seq![Op::Clear] + puts.take(m)).entries.len() == m,
        run(s, seq![Op::Clear] + puts.take(m)).stats == s.stats,
        run(s, seq![Op::Clear] + puts.take(m)).cap == s.cap,
        forall|j: int|
            0 <= j < m ==> (#[trigger] run(s, seq![Op::Clear] + puts.take(m)).entries[j]).key == put_key(
                puts[m - 1 - j],
            ),
    decreases m,
{
    let ops = seq![Op::Clear] + puts.take(m);
    if m == 0 {
        assert(ops.drop_last() =~= Seq::<Op<V>>::empty());
        assert(ops.last() == Op::<V>::Clear);
        assert(run(s, ops.drop_last()) == s);
        assert(run(s, ops) == step(s, Op::<V>::Clear));
    } else {
        lemma_fill_prefix(s, puts, m - 1);
        let prev_ops = seq![Op::Clear] + puts.take(m - 1);
        assert(ops.drop_last() =~= prev_ops);
        assert(ops.last() == puts[m - 1]);
        let p = run(s, prev_ops);
        let op = puts[m - 1];
        assert(op is Put);
        let k = put_key(op);
        assert(!holds_key(p.entries, k)) by {
            if holds_key(p.entries, k) {
                let a = choose|a: int| 0 <= a < p.entries.len() && #[trigger] p.entries[a].key == k;
                assert(p.entries[a].key == put_key(puts[m - 2 - a]));
                assert(puts[m - 2 - a] is Put);
            }
        }
        let r = run(s, ops);
        assert(r == step(p, op));
        assert(!put_evicts(p.entries, p.cap, k));
        assert(r.stats == p.stats);
        assert forall|j: int| 0 <= j < m implies (#[trigger] r.entries[j]).key == put_key(puts[m - 1 - j]) by {
            if j > 0 {
                assert(r.entries[j] == p.entries[j - 1]);
            }
        }
    }
}

/// Law: after `clear`, as many puts of pairwise distinct keys as the capacity
/// fill the cache without evicting: it then holds exactly those keys, the last
/// one put first, and every counter is as it was before the clear.
pub proof fn lemma_fill_after_clear<V>(s: CacheState<V>, puts: Seq<Op<V>>)
    requires
        puts.len() == s.cap,
        forall|i: int| 0 <= i < puts.len() ==> #[trigger] puts[i] is Put,
        forall|i: int, j: int|
            0 <= i < puts.len() && 0 <= j < puts.len() && i != j ==> put_key(#[trigger] puts[i])
                != put_key(#[trigger] puts[j]),
    ensures
        run(s, seq![Op::Clear] + puts).entries.len() == s.cap,
        run(s, seq![Op::Clear] + puts).stats == s.stats,
        forall|j: int|
            0 <= j < s.cap ==> (#[trigger] run(s, seq![Op::Clear] + puts).entries[j]).key == put_key(
                puts[s.cap - 1 - j],
            ),
{
    lemma_fill_prefix(s, puts, puts.len() as int);
    assert(puts.take(puts.len() as int) =~= puts);
}

} // verus!
