//! The canned demonstration workload: fill a cache, touch the oldest key,
//! overflow it, add a short-lived key, and look that key up again later.
use crate::cache::{Cache, Stats};
use crate::clock::SystemClock;
use crate::model::{expiry_after, holds_key, is_expired, lemma_key_position, Entry};
use vstd::prelude::*;

verus! {

/// The character of a decimal digit `d < 10`.
pub open spec fn digit_char(d: nat) -> char {
    if d == 0 {
        '0'
    } else if d == 1 {
        '1'
    } else if d == 2 {
        '2'
    } else if d == 3 {
        '3'
    } else if d == 4 {
        '4'
    } else if d == 5 {
        '5'
    } else if d == 6 {
        '6'
    } else if d == 7 {
        '7'
    } else if d == 8 {
        '8'
    } else {
        '9'
    }
}

/// `n` written in decimal, without leading zeros.
pub open spec fn decimal_digits(n: nat) -> Seq<char>
    decreases n,
{
    if n < 10 {
        seq![digit_char(n)]
    } else {
        decimal_digits(n / 10).push(digit_char(n % 10))
    }
}

/// The number that a string of decimal digits writes.
spec fn decimal_value(d: Seq<char>) -> int
    decreases d.len(),
{
    if d.len() == 0 {
        0
    } else {
        decimal_value(d.drop_last()) * 10 + (d.last() as int - '0' as int)
    }
}

proof fn lemma_digit_char(d: nat)
    requires
        d < 10,
    ensures
        digit_char(d) as int - '0' as int == d,
{
}

proof fn lemma_decimal_round_trip(n: nat)
    ensures
        decimal_value(decimal_digits(n)) == n,
        decimal_digits(n).len() > 0,
    decreases n,
{
    if n >= 10 {
        lemma_decimal_round_trip(n / 10);
        let p = decimal_digits(n / 10);
        assert(p.push(digit_char(n % 10)).drop_last() =~= p);
        lemma_digit_char(n % 10);
        let q = p.push(digit_char(n % 10));
        assert(decimal_digits(n) == q);
        assert(q.last() == digit_char(n % 10));
        assert(decimal_value(q) == decimal_value(p) * 10 + (n % 10));
        assert((n / 10) * 10 + n % 10 == n);
    } else {
        let q = seq![digit_char(n)];
        assert(q.drop_last() =~= Seq::<char>::empty());
        assert(decimal_value(Seq::<char>::empty()) == 0);
        lemma_digit_char(n);
        assert(decimal_value(q) == decimal_value(q.drop_last()) * 10 + (q.last() as int - '0' as int));
    }
}

/// The key the demo stores in its `i`-th slot: `key` followed by `i`.
pub open spec fn demo_key(i: nat) -> Seq<char> {
    "key"@ + decimal_digits(i)
}

/// The value the demo stores under its `i`-th key: `value` followed by `i`.
pub open spec fn demo_value(i: nat) -> Seq<char> {
    "value"@ + decimal_digits(i)
}

proof fn lemma_demo_key_facts(a: nat, b: nat)
    ensures
        demo_key(a).len() > 0,
        demo_key(a)[0] == 'k',
        demo_key(a) == demo_key(b) ==> a == b,
{
    reveal_strlit("key");
    lemma_decimal_round_trip(a);
    lemma_decimal_round_trip(b);
    if demo_key(a) == demo_key(b) {
        assert(decimal_digits(a) =~= demo_key(a).subrange(3, demo_key(a).len() as int));
        assert(decimal_digits(b) =~= demo_key(b).subrange(3, demo_key(b).len() as int));
    }
}

/// Calls `format!` to write `prefix` followed by `i` in decimal, as
/// `Display` for `usize` writes it: its digits, with no sign and no leading zeros.
#[verifier::external_body]
fn numbered(prefix: &str, i: usize) -> (r: String)
    ensures
        r@ == prefix@ + decimal_digits(i as nat),
{
    format!("{}{}", prefix, i)
}

/// What the demo workload observed.
pub struct DemoReport {
    /// The number of entries once the cache was filled.
    pub filled: usize,
    /// What the lookup of the first key gave.
    pub touched: Option<String>,
    /// The number of entries after one more key was put into the full cache.
    pub size_after_overflow: usize,
    /// The capacity of the cache.
    pub capacity: usize,
    /// Whether the short-lived key had expired when it was looked up again.
    pub short_lived_expired: bool,
    /// The counters at the end.
    pub stats: Stats,
}

/// Every entry's key begins with one of the given characters.
spec fn keys_begin_with<V>(es: Seq<Entry<V>>, a: char, b: char) -> bool {
    forall|j: int|
        0 <= j < es.len() ==> (#[trigger] es[j]).key.len() > 0 && (es[j].key[0] == a || es[j].key[0]
            == b)
}

/// Runs the workload on a fresh cache of `capacity` entries: puts
/// `key0..key{capacity-1}` (no TTL), looks up `key0`, puts `overflow`, puts
/// `short-lived` with a TTL of 1 ms, all at time `t_fill`, then looks up
/// `short-lived` at time `t_check`.
pub fn demo_report(capacity: usize, t_fill: u64, t_check: u64) -> (r: DemoReport)
    requires
        capacity >= 1,
    ensures
        r.filled == capacity,
        r.touched is Some && r.touched.unwrap()@ == demo_value(0),
        r.size_after_overflow == capacity,
        r.capacity == capacity,
        r.short_lived_expired == is_expired(expiry_after(t_fill, Some(1)), t_check),
        r.stats == (Stats {
            hits: if r.short_lived_expired {
                1
            } else {
                2
            },
            misses: if r.short_lived_expired {
                1
            } else {
                0
            },
            evictions: 2,
            expirations: if r.short_lived_expired {
                1
            } else {
                0
            },
            size: if r.short_lived_expired {
                (capacity - 1) as usize
            } else {
                capacity
            },
        }),
{
    let mut c: Cache<String, SystemClock> = Cache::new(capacity, SystemClock);
    let mut i: usize = 0;
    while i < capacity
        invariant
            c.wf(),
            c.cap() == capacity,
            c.counters() == crate::cache::zero_stats(),
            i <= capacity,
            c@.len() == i,
            forall|a: int| 0 <= a < i ==> (#[trigger] c@[a]).key == demo_key((i - 1 - a) as nat),
            forall|a: int| 0 <= a < i ==> (#[trigger] c@[a]).expires_at is None,
            i > 0 ==> c@[i - 1].value@ == demo_value(0),
        decreases capacity - i,
    {
        let k = numbered("key", i);
        let v = numbered("value", i);
        proof {
            reveal_strlit("key");
            reveal_strlit("value");
            assert(k@ == demo_key(i as nat));
            if holds_key(c@, k@) {
                let a = choose|a: int| 0 <= a < c@.len() && #[trigger] c@[a].key == k@;
                lemma_demo_key_facts((i - 1 - a) as nat, i as nat);
            }
        }
        let ghost v0 = c@;
        c.put_at(k, v, None, t_fill);
        proof {
            assert(c@ == seq![Entry { key: demo_key(i as nat), value: v, expires_at: None }] + v0);
            if i == 0 {
                reveal_strlit("value");
                assert(v@ == demo_value(0));
            }
        }
        i = i + 1;
    }
    let filled = c.len();
    proof {
        reveal_strlit("key0");
        reveal_strlit("key");
        lemma_decimal_round_trip(0);
        assert(decimal_digits(0) == seq!['0']);
        assert("key0"@ =~= demo_key(0));
        assert(c@[capacity - 1].key == demo_key(0));
        lemma_key_position(c@, capacity - 1);
        // every key so far begins with `k`
        assert forall|j: int| 0 <= j < c@.len() implies (#[trigger] c@[j]).key.len() > 0 && c@[j].key[0] == 'k' by {
            lemma_demo_key_facts((capacity - 1 - j) as nat, 0);
        }
    }
    let ghost before_touch = c@;
    let touched = c.get_at("key0", t_fill);
    proof {
        assert(c.counters() == (Stats { hits: 1, ..crate::cache::zero_stats() }));
        assert(c@.len() == capacity);
        // the lookup only reordered the keys, which all begin with `k`, so
        // `overflow` is new
        let es = c@;
        assert(keys_begin_with(es, 'k', 'k')) by {
            assert forall|j: int| 0 <= j < es.len() implies (#[trigger] es[j]).key.len() > 0 && (es[j].key[0]
                == 'k' || es[j].key[0] == 'k') by {
                let x = capacity - 1;
                let j0 = if j == 0 { x } else if j - 1 < x { j - 1 } else { j };
                assert(es[j] == before_touch[j0]);
            }
        }
        reveal_strlit("overflow");
        assert("overflow"@[0] == 'o');
        if holds_key(es, "overflow"@) {
            let a = choose|a: int| 0 <= a < es.len() && #[trigger] es[a].key == "overflow"@;
            assert(es[a].key[0] == 'k');
        }
    }
    let ghost after_touch = c@;
    c.put_at("overflow".to_owned(), "pushed out the LRU entry".to_owned(), None, t_fill);
    let size_after_overflow = c.len();
    proof {
        assert(c.counters() == (Stats { hits: 1, evictions: 1, ..crate::cache::zero_stats() }));
        assert(c@.len() == capacity);
        let es = c@;
        assert(keys_begin_with(es, 'o', 'k')) by {
            assert forall|j: int| 0 <= j < es.len() implies (#[trigger] es[j]).key.len() > 0 && (es[j].key[0]
                == 'o' || es[j].key[0] == 'k') by {
                if j > 0 {
                    assert(es[j] == after_touch[j - 1]);
                }
            }
        }
        // every key now begins with `o` or `k`, so `short-lived` is new
        reveal_strlit("short-lived");
        assert("short-lived"@[0] == 's');
        if holds_key(es, "short-lived"@) {
            let a = choose|a: int| 0 <= a < es.len() && #[trigger] es[a].key == "short-lived"@;
            assert(es[a].key[0] == 'o' || es[a].key[0] == 'k');
        }
    }
    c.put_at("short-lived".to_owned(), "gone soon".to_owned(), Some(1), t_fill);
    proof {
        assert(c.counters() == (Stats { hits: 1, evictions: 2, ..crate::cache::zero_stats() }));
        assert(c@.len() == capacity);
        lemma_key_position(c@, 0);
        reveal_strlit("short-lived");
        assert(c@[0].expires_at == expiry_after(t_fill, Some(1)));
    }
    let late = c.get_at("short-lived", t_check);
    let stats = c.stats();
    DemoReport {
        filled,
        touched,
        size_after_overflow,
        capacity: c.capacity(),
        short_lived_expired: late.is_none(),
        stats,
    }
}

} // verus!
