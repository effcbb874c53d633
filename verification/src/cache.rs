//! The cache itself: a `String`-keyed hash map from keys to slot indices, plus a
//! slab of nodes wired into a doubly linked list that keeps recency order.
use crate::clock::{clock_reads, read_clock, Clock};
use crate::model::{
    after_get, after_put, after_remove, entries_wf, expiry_after, get_returns, holds_key, is_expired,
    key_position, keys_of, lemma_expired_entry_is_dropped, lemma_key_position, lemma_put_keeps_entries_wf,
    lookup_kind, put_evicts, Entry, Lookup,
};
use vstd::hash_map::StringHashMap;
use vstd::prelude::*;

verus! {

/// A single slot in the intrusive LRU list. Slots live in a flat `Vec` so
/// that unlinking and relinking are index swaps, not allocations.
struct Node<V> {
    key: String,
    value: V,
    expires_at: Option<u64>,
    prev: Option<usize>,
    next: Option<usize>,
}

/// Hit/miss/eviction/expiration counters plus the live size.
#[derive(Clone, Copy, Debug, PartialEq, Eq, Structural)]
pub struct Stats {
    pub hits: u64,
    pub misses: u64,
    pub evictions: u64,
    pub expirations: u64,
    pub size: usize,
}

/// All counters at zero.
pub open spec fn zero_stats() -> Stats {
    Stats { hits: 0, misses: 0, evictions: 0, expirations: 0, size: 0 }
}

impl Default for Stats {
    fn default() -> (s: Stats)
        ensures
            s == zero_stats(),
    {
        Stats { hits: 0, misses: 0, evictions: 0, expirations: 0, size: 0 }
    }
}

/// The counters after a lookup with outcome `kind`: a hit counts a hit; a miss
/// counts a miss; an expired entry counts both a miss and an expiration.
pub open spec fn count_lookup(s: Stats, kind: Lookup) -> Stats {
    match kind {
        Lookup::Miss => Stats { misses: (s.misses + 1) as u64, ..s },
        Lookup::Expired => Stats {
            misses: (s.misses + 1) as u64,
            expirations: (s.expirations + 1) as u64,
            ..s
        },
        Lookup::Hit => Stats { hits: (s.hits + 1) as u64, ..s },
    }
}

/// The counters after a `put`: one eviction more when the put evicted.
pub open spec fn count_put(s: Stats, evicted: bool) -> Stats {
    if evicted {
        Stats { evictions: (s.evictions + 1) as u64, ..s }
    } else {
        s
    }
}

/// The counters that a lookup with outcome `kind` increments can each take
/// one more increment.
pub open spec fn lookup_has_room(s: Stats, kind: Lookup) -> bool {
    match kind {
        Lookup::Miss => s.misses < u64::MAX,
        Lookup::Expired => s.misses < u64::MAX && s.expirations < u64::MAX,
        Lookup::Hit => s.hits < u64::MAX,
    }
}

/// Whatever time a `get(k)` reads, the counters it may increment can take one
/// more increment: misses for an absent key, hits for a key without expiry,
/// and all three lookup counters for a key with an expiry.
pub open spec fn get_has_room<V>(es: Seq<Entry<V>>, k: Seq<char>, s: Stats) -> bool {
    if !holds_key(es, k) {
        s.misses < u64::MAX
    } else if es[key_position(es, k)].expires_at is None {
        s.hits < u64::MAX
    } else {
        s.hits < u64::MAX && s.misses < u64::MAX && s.expirations < u64::MAX
    }
}

/// The eviction counter can take the increment that a `put(k)` may make.
pub open spec fn put_has_room<V>(es: Seq<Entry<V>>, cap: nat, k: Seq<char>, s: Stats) -> bool {
    put_evicts(es, cap, k) ==> s.evictions < u64::MAX
}

spec fn entry_of<V>(slot: Option<Node<V>>) -> Entry<V> {
    Entry { key: slot.unwrap().key@, value: slot.unwrap().value, expires_at: slot.unwrap().expires_at }
}

/// Two slabs that agree on which slots are live and on the key, value and
/// expiry of each live slot; only the links may differ.
spec fn payload_same<V>(a: Seq<Option<Node<V>>>, b: Seq<Option<Node<V>>>) -> bool {
    &&& a.len() == b.len()
    &&& forall|x: int|
        #![trigger a[x]]
        #![trigger b[x]]
        0 <= x < a.len() ==> (a[x] is Some <==> b[x] is Some) && (a[x] is Some ==> entry_of(a[x])
            == entry_of(b[x]))
}

/// A capacity-bounded, TTL-aware, LRU cache. Keys are `String`, values are
/// whatever `V` the caller wants.
///
/// Backed by a map from keys to slot indices for lookup plus a slab of nodes
/// wired into a doubly linked list for recency updates and eviction of the
/// least-recently-used entry. A free list lets removed slots be reused.
#[verifier::reject_recursive_types(V)]
pub struct Cache<V, C: Clock> {
    capacity: usize,
    map: StringHashMap<usize>,
    slots: Vec<Option<Node<V>>>,
    free: Vec<usize>,
    head: Option<usize>,
    tail: Option<usize>,
    clock: C,
    stats: Stats,
    /// The slot indices of the live entries, most-recently-used first.
    order: Ghost<Seq<usize>>,
}

impl<V, C: Clock> View for Cache<V, C> {
    type V = Seq<Entry<V>>;

    /// The live entries, most-recently-used first.
    closed spec fn view(&self) -> Seq<Entry<V>> {
        let s = self.slots@;
        self.order@.map_values(|x: usize| entry_of(s[x as int]))
    }
}

impl<V, C: Clock> Cache<V, C> {
    /// The capacity the cache was made with.
    pub closed spec fn cap(&self) -> usize {
        self.capacity
    }

    /// The hit, miss, eviction and expiration counters.
    pub closed spec fn counters(&self) -> Stats {
        self.stats
    }

    /// The clock the cache reads.
    pub closed spec fn time_source(&self) -> C {
        self.clock
    }

    /// The list threads exactly the slots of `order`, in that order.
    spec fn links_ok(&self) -> bool {
        let o = self.order@;
        let s = self.slots@;
        &&& forall|i: int, j: int|
            0 <= i < o.len() && 0 <= j < o.len() && i != j ==> #[trigger] o[i] != #[trigger] o[j]
        &&& forall|i: int| 0 <= i < o.len() ==> #[trigger] o[i] < s.len() && s[o[i] as int] is Some
        &&& forall|i: int, j: int|
            0 <= i < o.len() && j == i + 1 && j < o.len() ==> s[#[trigger] o[i] as int].unwrap().next
                == Some(o[j]) && s[#[trigger] o[j] as int].unwrap().prev == Some(o[i])
        &&& o.len() > 0 ==> s[o[0] as int].unwrap().prev is None && s[o[o.len() - 1] as int].unwrap().next is None
        &&& self.head == (if o.len() == 0 {
            None
        } else {
            Some(o[0])
        })
        &&& self.tail == (if o.len() == 0 {
            None
        } else {
            Some(o[o.len() - 1])
        })
    }

    /// The free list holds distinct empty slots.
    spec fn free_ok(&self) -> bool {
        let s = self.slots@;
        let f = self.free@;
        &&& forall|j: int| 0 <= j < f.len() ==> #[trigger] f[j] < s.len() && s[f[j] as int] is None
        &&& f.no_duplicates()
    }

    /// The key map points each live key at its slot, and every live slot is on the list.
    spec fn map_ok(&self) -> bool {
        let s = self.slots@;
        let m = self.map@;
        &&& m.dom().finite()
        &&& m.len() == self.order@.len()
        &&& forall|k: Seq<char>|
            #[trigger] m.contains_key(k) ==> m[k] < s.len() && s[m[k] as int] is Some && s[m[k] as int].unwrap().key@ == k
        &&& forall|x: int|
            0 <= x < s.len() && (#[trigger] s[x]) is Some ==> m.contains_key(s[x].unwrap().key@)
                && m[s[x].unwrap().key@] == x && self.order@.contains(x as usize)
    }

    /// The representation invariant.
    pub closed spec fn inv(&self) -> bool {
        &&& self.links_ok()
        &&& self.free_ok()
        &&& self.map_ok()
        &&& self.order@.len() <= self.capacity
    }

    /// Well-formed: the representation invariant, and the entries are within
    /// capacity with each key once.
    pub open spec fn wf(&self) -> bool {
        &&& self.inv()
        &&& entries_wf(self@, self.cap() as nat)
    }

    /// Everything but the list and the slab is as in `other`.
    spec fn rest_same(&self, other: &Self) -> bool {
        &&& self.map@ == other.map@
        &&& self.free@ == other.free@
        &&& self.capacity == other.capacity
        &&& self.stats == other.stats
        &&& self.clock == other.clock
    }

    // -- internal list/slab plumbing --------------------------------------

    /// Splices the node at list position `i` (slot `idx`) out of the list,
    /// patching its neighbours' links (or `head`/`tail` at an end).
    fn unlink(&mut self, idx: usize, Ghost(i): Ghost<int>)
        requires
            old(self).links_ok(),
            0 <= i < old(self).order@.len(),
            old(self).order@[i] == idx,
        ensures
            final(self).links_ok(),
            final(self).order@ == old(self).order@.remove(i),
            payload_same(old(self).slots@, final(self).slots@),
            final(self).rest_same(old(self)),
    {
        let ghost o = self.order@;
        let ghost n = o.len();
        proof {
            assert(o[i] == idx);
            if i > 0 {
                assert(o[i - 1] == o[i - 1]);
            }
            if i + 1 < n {
                assert(o[i + 1] == o[i + 1]);
            }
        }
        let prev: Option<usize>;
        let next: Option<usize>;
        match &self.slots[idx] {
            Some(node) => {
                prev = node.prev;
                next = node.next;
            },
            None => {
                prev = None;
                next = None;
            },
        }
        assert(prev == (if i == 0 { None } else { Some(o[i - 1]) }));
        assert(next == (if i + 1 == n { None } else { Some(o[i + 1]) }));
        let ghost s0 = self.slots@;
        match prev {
            Some(p) => {
                if let Some(node) = &mut self.slots[p] {
                    node.next = next;
                }
            },
            None => {
                self.head = next;
            },
        }
        let ghost s1 = self.slots@;
        match next {
            Some(q) => {
                if let Some(node) = &mut self.slots[q] {
                    node.prev = prev;
                }
            },
            None => {
                self.tail = prev;
            },
        }
        proof {
            let s = self.slots@;
            let o2 = o.remove(i);
            self.order@ = o2;
            assert(s.len() == s0.len());
            // Every slot other than the two neighbours is untouched.
            assert forall|x: int|
                0 <= x < s.len() && (prev != Some(x as usize)) && (next != Some(x as usize)) implies #[trigger] s[x]
                == s0[x] by {}
            assert forall|a: int| 0 <= a < o2.len() implies #[trigger] o2[a] == (if a < i {
                o[a]
            } else {
                o[a + 1]
            }) by {}
            assert forall|a: int, b: int|
                0 <= a < o2.len() && 0 <= b < o2.len() && a != b implies #[trigger] o2[a]
                != #[trigger] o2[b] by {
                let a0 = if a < i { a } else { a + 1 };
                let b0 = if b < i { b } else { b + 1 };
                assert(o2[a] == o[a0] && o2[b] == o[b0]);
                assert(o[a0] != o[b0]);
            }
            assert forall|a: int| 0 <= a < o2.len() implies #[trigger] o2[a] < s.len() && s[o2[a] as int] is Some by {
                let a0 = if a < i { a } else { a + 1 };
                assert(o2[a] == o[a0]);
                assert(o[a0] < s0.len());
            }
            assert forall|a: int, b: int|
                0 <= a < o2.len() && b == a + 1 && b < o2.len() implies s[#[trigger] o2[a] as int].unwrap().next
                == Some(o2[b]) && s[#[trigger] o2[b] as int].unwrap().prev == Some(o2[a]) by {
                let a0 = if a < i { a } else { a + 1 };
                let b0 = if b < i { b } else { b + 1 };
                assert(o2[a] == o[a0] && o2[b] == o[b0]);
                assert(o[a0] == o[a0]);
                assert(o[b0] == o[b0]);
                if a0 + 1 == b0 {
                    assert(o[a0 + 1] == o[b0]);
                } else {
                    assert(a0 + 1 == i && b0 == i + 1);
                    assert(o[a0 + 1] == o[i]);
                }
                if b0 - 1 == a0 {
                    assert(o[b0 - 1] == o[a0]);
                }
            }
            if o2.len() > 0 {
                assert(o2[0] == o2[0]);
                assert(o2[o2.len() - 1] == o2[o2.len() - 1]);
                if i == 0 {
                    assert(o2[0] == o[1]);
                } else {
                    assert(o2[0] == o[0]);
                    assert(o[0] == o[0]);
                }
                if i == n - 1 {
                    assert(o2[o2.len() - 1] == o[n - 2]);
                } else {
                    assert(o2[o2.len() - 1] == o[n - 1]);
                    assert(o[n - 1] == o[n - 1]);
                }
            }
            assert forall|x: int|
                #![trigger s0[x]]
                #![trigger s[x]]
                0 <= x < s0.len() implies (s0[x] is Some <==> s[x] is Some) && (s0[x] is Some
                ==> entry_of(s0[x]) == entry_of(s[x])) by {
                assert(s1[x] is Some <==> s0[x] is Some);
            }
        }
    }

    /// Splices the live, unlisted slot `idx` in at the front of the list.
    fn push_front(&mut self, idx: usize)
        requires
            old(self).links_ok(),
            idx < old(self).slots@.len(),
            old(self).slots@[idx as int] is Some,
            !old(self).order@.contains(idx),
        ensures
            final(self).links_ok(),
            final(self).order@ == seq![idx] + old(self).order@,
            payload_same(old(self).slots@, final(self).slots@),
            final(self).rest_same(old(self)),
    {
        let ghost o = self.order@;
        let ghost n = o.len();
        let ghost s0 = self.slots@;
        let h = self.head;
        if let Some(node) = &mut self.slots[idx] {
            node.prev = None;
            node.next = h;
        }
        let ghost s1 = self.slots@;
        if let Some(hh) = h {
            assert(o[0] == hh);
            if let Some(node) = &mut self.slots[hh] {
                node.prev = Some(idx);
            }
        }
        self.head = Some(idx);
        if self.tail.is_none() {
            self.tail = Some(idx);
        }
        proof {
            let s = self.slots@;
            let o2 = seq![idx] + o;
            self.order@ = o2;
            assert forall|a: int| 0 <= a < o2.len() implies #[trigger] o2[a] == (if a == 0 {
                idx
            } else {
                o[a - 1]
            }) by {}
            assert forall|a: int| 0 <= a < n implies #[trigger] o[a] != idx by {
                if o[a] == idx {
                    assert(o.contains(idx));
                }
            }
            assert forall|a: int, b: int|
                0 <= a < o2.len() && 0 <= b < o2.len() && a != b implies #[trigger] o2[a]
                != #[trigger] o2[b] by {
                if a > 0 {
                    assert(o2[a] == o[a - 1]);
                }
                if b > 0 {
                    assert(o2[b] == o[b - 1]);
                }
            }
            assert forall|a: int| 0 <= a < o2.len() implies #[trigger] o2[a] < s.len() && s[o2[a] as int] is Some by {
                if a > 0 {
                    assert(o2[a] == o[a - 1]);
                    assert(o[a - 1] < s0.len());
                }
            }
            assert forall|a: int, b: int|
                0 <= a < o2.len() && b == a + 1 && b < o2.len() implies s[#[trigger] o2[a] as int].unwrap().next
                == Some(o2[b]) && s[#[trigger] o2[b] as int].unwrap().prev == Some(o2[a]) by {
                assert(o2[b] == o[b - 1]);
                assert(o[b - 1] == o[b - 1]);
                if a > 0 {
                    assert(o2[a] == o[a - 1]);
                    assert(o[a - 1] == o[a - 1]);
                    assert(o[a] == o[a]);
                } else {
                    assert(o[0] == o[0]);
                }
            }
            if n > 0 {
                assert(o[n - 1] == o[n - 1]);
                assert(o2[o2.len() - 1] == o[n - 1]);
            }
            assert forall|x: int|
                #![trigger s0[x]]
                #![trigger s[x]]
                0 <= x < s0.len() implies (s0[x] is Some <==> s[x] is Some) && (s0[x] is Some
                ==> entry_of(s0[x]) == entry_of(s[x])) by {
                assert(s1[x] is Some <==> s0[x] is Some);
            }
        }
    }

    /// Moves the live node at list position `i` (slot `idx`) to the front.
    fn touch(&mut self, idx: usize, Ghost(i): Ghost<int>)
        requires
            old(self).inv(),
            0 <= i < old(self).order@.len(),
            old(self).order@[i] == idx,
        ensures
            final(self).inv(),
            final(self)@ == seq![old(self)@[i]] + old(self)@.remove(i),
            final(self).order@[0] == idx,
            final(self).order@ == seq![idx] + old(self).order@.remove(i),
            payload_same(old(self).slots@, final(self).slots@),
            final(self).rest_same(old(self)),
    {
        let ghost v0 = self@;
        let ghost before = *self;
        let ghost o = self.order@;
        if self.head == Some(idx) {
            proof {
                assert(o[0] == idx);
                if i != 0 {
                    assert(o[i] != o[0]);
                }
                assert(seq![v0[0]] + v0.remove(0) =~= v0);
                assert(seq![idx] + o.remove(0) =~= o);
                assert forall|x: int|
                    #![trigger self.slots@[x]]
                    0 <= x < self.slots@.len() implies (self.slots@[x] is Some <==> self.slots@[x] is Some) by {}
            }
            return;
        }
        self.unlink(idx, Ghost(i));
        proof {
            let o2 = self.order@;
            if o2.contains(idx) {
                let a = choose|a: int| 0 <= a < o2.len() && o2[a] == idx;
                let a0 = if a < i { a } else { a + 1 };
                assert(o2[a] == o[a0]);
                assert(o[a0] != o[i]);
            }
        }
        let ghost mid = *self;
        self.push_front(idx);
        proof {
            let o = before.order@;
            Self::lemma_to_front_same_elements(o, i);
            assert forall|x: int|
                #![trigger before.slots@[x]]
                #![trigger self.slots@[x]]
                0 <= x < before.slots@.len() implies (before.slots@[x] is Some <==> self.slots@[x] is Some) && (
                before.slots@[x] is Some ==> self.slots@[x].unwrap().key@ == before.slots@[x].unwrap().key@) by {
                assert(mid.slots@[x] is Some <==> self.slots@[x] is Some);
                if before.slots@[x] is Some {
                    assert(entry_of(before.slots@[x]) == entry_of(mid.slots@[x]));
                    assert(entry_of(mid.slots@[x]) == entry_of(self.slots@[x]));
                }
            }
            Self::lemma_inv_after_relink(&before, self);
            let v2 = self@;
            let want = seq![v0[i]] + v0.remove(i);
            assert forall|a: int| 0 <= a < v2.len() implies #[trigger] v2[a] == want[a] by {
                let a0 = if a == 0 { i } else if a - 1 < i { a - 1 } else { a };
                assert(self.order@[a] == o[a0]);
                assert(o[a0] == o[a0]);
                assert(before.slots@[o[a0] as int] is Some);
                assert(entry_of(before.slots@[o[a0] as int]) == entry_of(mid.slots@[o[a0] as int]));
                assert(entry_of(mid.slots@[o[a0] as int]) == entry_of(self.slots@[o[a0] as int]));
            }
            assert(v2 =~= want);
        }
    }

    /// Takes the live node at list position `i` (slot `idx`) out of the cache:
    /// off the list, out of the key map, and onto the free list.
    fn remove_slot(&mut self, idx: usize, Ghost(i): Ghost<int>)
        requires
            old(self).inv(),
            0 <= i < old(self).order@.len(),
            old(self).order@[i] == idx,
        ensures
            final(self).inv(),
            final(self)@ == old(self)@.remove(i),
            final(self).order@ == old(self).order@.remove(i),
            final(self).map@ == old(self).map@.remove(old(self).slots@[idx as int].unwrap().key@),
            final(self).free@ == old(self).free@.push(idx),
            final(self).slots@.len() == old(self).slots@.len(),
            final(self).slots@[idx as int] is None,
            forall|x: int|
                0 <= x < old(self).slots@.len() && x != idx ==> (#[trigger] final(self).slots@[x] is Some
                    <==> old(self).slots@[x] is Some) && (old(self).slots@[x] is Some ==> entry_of(
                    final(self).slots@[x],
                ) == entry_of(old(self).slots@[x])),
            final(self).capacity == old(self).capacity,
            final(self).stats == old(self).stats,
            final(self).clock == old(self).clock,
    {
        let ghost o = self.order@;
        let ghost s = self.slots@;
        let ghost m = self.map@;
        let ghost v0 = self@;
        proof {
            assert(o[i] == idx);
        }
        self.unlink(idx, Ghost(i));
        let ghost su = self.slots@;
        proof {
            assert(su[idx as int] is Some);
        }
        match &self.slots[idx] {
            Some(node) => {
                self.map.remove(node.key.as_str());
            },
            None => {},
        }
        self.slots[idx] = None;
        self.free.push(idx);
        proof {
            let o2 = self.order@;
            let s2 = self.slots@;
            let m2 = self.map@;
            let f = self.free@;
            let key = s[idx as int].unwrap().key@;
            assert(su[idx as int].unwrap().key@ == key);
            assert(m2 == m.remove(key));
            assert(m.contains_key(key) && m[key] == idx);
            assert(s2 == su.update(idx as int, None));
            assert forall|a: int| 0 <= a < o2.len() implies #[trigger] o2[a] == (if a < i {
                o[a]
            } else {
                o[a + 1]
            }) by {}
            assert forall|a: int| 0 <= a < o2.len() implies #[trigger] o2[a] != idx by {
                let a0 = if a < i { a } else { a + 1 };
                assert(o2[a] == o[a0]);
                assert(o[a0] != o[i]);
            }
            // links
            assert forall|a: int| 0 <= a < o2.len() implies #[trigger] o2[a] < s2.len() && s2[o2[a] as int] is Some by {}
            assert forall|a: int, b: int|
                0 <= a < o2.len() && b == a + 1 && b < o2.len() implies s2[#[trigger] o2[a] as int].unwrap().next
                == Some(o2[b]) && s2[#[trigger] o2[b] as int].unwrap().prev == Some(o2[a]) by {
                assert(su[o2[a] as int].unwrap().next == Some(o2[b]));
            }
            if o2.len() > 0 {
                assert(o2[0] != idx);
                assert(o2[o2.len() - 1] != idx);
            }
            // free list
            assert forall|j: int| 0 <= j < f.len() implies #[trigger] f[j] < s2.len() && s2[f[j] as int] is None by {
                if j < f.len() - 1 {
                    assert(f[j] == self.free@[j]);
                }
            }
            assert(f.no_duplicates()) by {
                assert forall|a: int, b: int| 0 <= a < f.len() && 0 <= b < f.len() && a != b implies f[a] != f[b] by {
                    if a == f.len() - 1 && b < f.len() - 1 {
                        assert(s[f[b] as int] is None);
                        assert(s[idx as int] is Some);
                    }
                    if b == f.len() - 1 && a < f.len() - 1 {
                        assert(s[f[a] as int] is None);
                        assert(s[idx as int] is Some);
                    }
                }
            }
            // key map
            assert(m2.dom() == m.dom().remove(key));
            assert(m2.len() == m.len() - 1);
            assert forall|k: Seq<char>| #[trigger] m2.contains_key(k) implies m2[k] < s2.len() && s2[m2[k] as int] is Some && s2[m2[k] as int].unwrap().key@ == k by {
                assert(m.contains_key(k));
                assert(k != key);
                assert(s[m[k] as int].unwrap().key@ == k);
                assert(m[k] != idx);
                assert(su[m[k] as int] is Some);
            }
            assert forall|x: int| 0 <= x < s2.len() && (#[trigger] s2[x]) is Some implies m2.contains_key(s2[x].unwrap().key@)
                && m2[s2[x].unwrap().key@] == x && o2.contains(x as usize) by {
                assert(x != idx);
                assert(su[x] == s2[x]);
                assert(s[x] is Some);
                assert(entry_of(s[x]) == entry_of(su[x]));
                let kx = s[x].unwrap().key@;
                assert(m.contains_key(kx) && m[kx] == x);
                assert(kx != key);
                assert(o.contains(x as usize));
                let c = choose|c: int| 0 <= c < o.len() && o[c] == x as usize;
                assert(c != i);
                let c2 = if c < i { c } else { c - 1 };
                assert(o2[c2] == x as usize);
            }
            // view
            let v2 = self@;
            let r = v0.remove(i);
            assert forall|a: int| 0 <= a < v2.len() implies #[trigger] v2[a] == r[a] by {
                let a0 = if a < i { a } else { a + 1 };
                assert(o2[a] == o[a0]);
                assert(o[a0] == o[a0]);
                assert(s[o[a0] as int] is Some);
                assert(entry_of(s[o[a0] as int]) == entry_of(su[o[a0] as int]));
                assert(v0[a0] == entry_of(s[o[a0] as int]));
            }
            assert(v2 =~= r);
        }
    }

    /// Stores `node` in a free slot, reusing one from the free list when there
    /// is one and growing the slab otherwise.
    fn alloc_slot(&mut self, node: Node<V>) -> (r: usize)
        requires
            old(self).free_ok(),
        ensures
            final(self).free_ok(),
            r < final(self).slots@.len(),
            final(self).slots@[r as int] == Some(node),
            r < old(self).slots@.len() ==> old(self).slots@[r as int] is None,
            r >= old(self).slots@.len() ==> r == old(self).slots@.len(),
            old(self).free@.len() > 0 ==> r == old(self).free@.last() && final(self).free@
                == old(self).free@.drop_last(),
            old(self).free@.len() == 0 ==> r == old(self).slots@.len() && final(self).free@
                == old(self).free@,
            final(self).slots@.len() == (if r < old(self).slots@.len() {
                old(self).slots@.len()
            } else {
                old(self).slots@.len() + 1
            }),
            forall|x: int|
                0 <= x < old(self).slots@.len() && x != r ==> #[trigger] final(self).slots@[x] == old(
                    self,
                ).slots@[x],
            final(self).map@ == old(self).map@,
            final(self).order@ == old(self).order@,
            final(self).head == old(self).head,
            final(self).tail == old(self).tail,
            final(self).capacity == old(self).capacity,
            final(self).stats == old(self).stats,
            final(self).clock == old(self).clock,
    {
        let ghost f0 = self.free@;
        match self.free.pop() {
            Some(idx) => {
                proof {
                    assert(f0[f0.len() - 1] == idx);
                }
                self.slots[idx] = Some(node);
                proof {
                    let f = self.free@;
                    assert forall|j: int| 0 <= j < f.len() implies #[trigger] f[j] < self.slots@.len()
                        && self.slots@[f[j] as int] is None by {
                        assert(f[j] == f0[j]);
                        assert(f0[j] != f0[f0.len() - 1]);
                    }
                    assert(f.no_duplicates()) by {
                        assert forall|a: int, b: int| 0 <= a < f.len() && 0 <= b < f.len() && a != b implies f[a] != f[b] by {
                            assert(f[a] == f0[a] && f[b] == f0[b]);
                        }
                    }
                }
                idx
            },
            None => {
                self.slots.push(Some(node));
                proof {
                    let f = self.free@;
                    assert forall|j: int| 0 <= j < f.len() implies #[trigger] f[j] < self.slots@.len()
                        && self.slots@[f[j] as int] is None by {}
                }
                self.slots.len() - 1
            },
        }
    }

    /// Evicts the least-recently-used entry, if there is one, and counts it.
    fn evict_lru(&mut self)
        requires
            old(self).inv(),
            old(self).stats.evictions < u64::MAX,
        ensures
            final(self).inv(),
            old(self)@.len() > 0 ==> final(self)@ == old(self)@.drop_last() && final(self).stats
                == count_put(old(self).stats, true),
            old(self)@.len() == 0 ==> final(self)@ == old(self)@ && final(self).stats == old(self).stats,
            final(self).capacity == old(self).capacity,
            final(self).clock == old(self).clock,
    {
        let ghost v0 = self@;
        if let Some(idx) = self.tail {
            let ghost n = self.order@.len();
            self.remove_slot(idx, Ghost(n - 1));
            self.stats.evictions = self.stats.evictions + 1;
            proof {
                assert(v0.remove(n - 1) =~= v0.drop_last());
            }
        }
    }

    /// After the list was re-threaded over the same live slots (same keys,
    /// same liveness) with the key map and free list untouched, the
    /// representation invariant still holds.
    proof fn lemma_inv_after_relink(old_c: &Self, new_c: &Self)
        requires
            old_c.inv(),
            new_c.links_ok(),
            new_c.order@.len() == old_c.order@.len(),
            forall|x: usize| old_c.order@.contains(x) ==> #[trigger] new_c.order@.contains(x),
            old_c.slots@.len() == new_c.slots@.len(),
            forall|x: int|
                #![trigger old_c.slots@[x]]
                #![trigger new_c.slots@[x]]
                0 <= x < old_c.slots@.len() ==> (old_c.slots@[x] is Some <==> new_c.slots@[x] is Some) && (
                old_c.slots@[x] is Some ==> new_c.slots@[x].unwrap().key@ == old_c.slots@[x].unwrap().key@),
            new_c.map@ == old_c.map@,
            new_c.free@ == old_c.free@,
            new_c.capacity == old_c.capacity,
        ensures
            new_c.inv(),
    {
        let s = new_c.slots@;
        let m = new_c.map@;
        assert forall|k: Seq<char>| #[trigger] m.contains_key(k) implies m[k] < s.len() && s[m[k] as int] is Some
            && s[m[k] as int].unwrap().key@ == k by {
            assert(old_c.map@.contains_key(k));
            assert(old_c.slots@[m[k] as int] is Some);
        }
        assert forall|x: int| 0 <= x < s.len() && (#[trigger] s[x]) is Some implies m.contains_key(s[x].unwrap().key@)
            && m[s[x].unwrap().key@] == x && new_c.order@.contains(x as usize) by {
            assert(old_c.slots@[x] is Some);
            assert(old_c.order@.contains(x as usize));
        }
        assert forall|j: int| 0 <= j < new_c.free@.len() implies #[trigger] new_c.free@[j] < s.len()
            && s[new_c.free@[j] as int] is None by {
            assert(old_c.slots@[old_c.free@[j] as int] is None);
        }
    }

    /// Moving the element at position `i` to the front keeps the set of elements.
    proof fn lemma_to_front_same_elements(o: Seq<usize>, i: int)
        requires
            0 <= i < o.len(),
        ensures
            (seq![o[i]] + o.remove(i)).len() == o.len(),
            forall|x: usize| o.contains(x) ==> #[trigger] (seq![o[i]] + o.remove(i)).contains(x),
    {
        let o2 = seq![o[i]] + o.remove(i);
        assert forall|x: usize| o.contains(x) implies #[trigger] o2.contains(x) by {
            let c = choose|c: int| 0 <= c < o.len() && o[c] == x;
            if c == i {
                assert(o2[0] == x);
            } else if c < i {
                assert(o2[c + 1] == x);
            } else {
                assert(o2[c] == x);
            }
        }
    }

    /// Where slot `idx` stands on the list, given that the key map points a key at it.
    proof fn lemma_position_of_mapped(&self, k: Seq<char>) -> (i: int)
        requires
            self.inv(),
            self.map@.contains_key(k),
        ensures
            0 <= i < self.order@.len(),
            self.order@[i] == self.map@[k],
            self@[i].key == k,
            holds_key(self@, k),
            key_position(self@, k) == i,
    {
        let idx = self.map@[k];
        let s = self.slots@;
        assert(s[idx as int] is Some);
        assert(self.order@.contains(idx));
        let i = choose|i: int| 0 <= i < self.order@.len() && self.order@[i] == idx;
        self.lemma_inv_entries_wf();
        assert(self@[i].key == k);
        lemma_key_position(self@, i);
        i
    }

    /// A key the map does not hold is held by no entry.
    proof fn lemma_unmapped_key_absent(&self, k: Seq<char>)
        requires
            self.inv(),
            !self.map@.contains_key(k),
        ensures
            !holds_key(self@, k),
    {
        if holds_key(self@, k) {
            let i = choose|i: int| 0 <= i < self@.len() && #[trigger] self@[i].key == k;
            let x = self.order@[i];
            assert(self.slots@[x as int] is Some);
        }
    }

    /// The representation invariant gives the model's invariant, and the
    /// entries, the list and the key map all have the same size.
    proof fn lemma_inv_entries_wf(&self)
        requires
            self.inv(),
        ensures
            entries_wf(self@, self.cap() as nat),
            self@.len() == self.order@.len(),
            self@.len() == self.map@.len(),
    {
        let es = self@;
        let o = self.order@;
        let s = self.slots@;
        assert forall|i: int, j: int|
            0 <= i < es.len() && 0 <= j < es.len() && #[trigger] es[i].key == #[trigger] es[j].key implies i
            == j by {
            assert(o[i] == o[i]);
            assert(o[j] == o[j]);
            assert(s[o[i] as int] is Some);
            assert(s[o[j] as int] is Some);
            if i != j {
                assert(o[i] != o[j]);
            }
        }
    }
}

impl<V: Clone, C: Clock> Cache<V, C> {
    /// Overwrites the value and expiry of the entry at list position `i`
    /// (slot `idx`) and moves it to the front.
    fn refresh_entry(&mut self, idx: usize, Ghost(i): Ghost<int>, value: V, expires_at: Option<u64>)
        requires
            old(self).inv(),
            0 <= i < old(self).order@.len(),
            old(self).order@[i] == idx,
        ensures
            final(self).inv(),
            final(self)@ == seq![Entry { key: old(self)@[i].key, value, expires_at }] + old(self)@.remove(i),
            final(self).capacity == old(self).capacity,
            final(self).stats == old(self).stats,
            final(self).clock == old(self).clock,
    {
        let ghost v0 = self@;
        let ghost before = *self;
        proof {
            assert(self.order@[i] == idx);
            assert(self.slots@[idx as int] is Some);
        }
        if let Some(node) = &mut self.slots[idx] {
            node.value = value;
            node.expires_at = expires_at;
        }
        let ghost sm = self.slots@;
        proof {
            let o = self.order@;
            assert forall|a: int| 0 <= a < o.len() implies #[trigger] o[a] < sm.len() && sm[o[a] as int] is Some by {
                assert(before.slots@[o[a] as int] is Some);
            }
            assert forall|a: int, b: int|
                0 <= a < o.len() && b == a + 1 && b < o.len() implies sm[#[trigger] o[a] as int].unwrap().next
                == Some(o[b]) && sm[#[trigger] o[b] as int].unwrap().prev == Some(o[a]) by {
                assert(before.slots@[o[a] as int].unwrap().next == Some(o[b]));
            }
            if o.len() > 0 {
                assert(o[0] == o[0]);
                assert(o[o.len() - 1] == o[o.len() - 1]);
            }
            assert(self.links_ok());
        }
        proof {
            assert forall|x: int|
                #![trigger before.slots@[x]]
                #![trigger self.slots@[x]]
                0 <= x < before.slots@.len() implies (before.slots@[x] is Some <==> self.slots@[x] is Some) && (
                before.slots@[x] is Some ==> self.slots@[x].unwrap().key@ == before.slots@[x].unwrap().key@) by {}
            assert forall|x: usize| before.order@.contains(x) implies #[trigger] self.order@.contains(x) by {}
            Self::lemma_inv_after_relink(&before, self);
            let v1 = self@;
            assert(v1 =~= v0.update(i, Entry { key: v0[i].key, value, expires_at }));
            assert(v1.remove(i) =~= v0.remove(i));
        }
        self.touch(idx, Ghost(i));
    }

    /// Puts a new entry for `key`, which the cache does not hold, at the front.
    fn insert_front(&mut self, key: String, value: V, expires_at: Option<u64>)
        requires
            old(self).inv(),
            !old(self).map@.contains_key(key@),
            old(self).order@.len() < old(self).capacity,
        ensures
            final(self).inv(),
            final(self)@ == seq![Entry { key: key@, value, expires_at }] + old(self)@,
            final(self).capacity == old(self).capacity,
            final(self).stats == old(self).stats,
            final(self).clock == old(self).clock,
    {
        let ghost v1 = self@;
        let ghost before = *self;
        proof {
            self.lemma_inv_entries_wf();
        }
        let idx = self.alloc_slot(
            Node { key: key.clone(), value, expires_at, prev: None, next: None },
        );
        self.map.insert(key, idx);
        proof {
            let o = self.order@;
            let s = self.slots@;
            assert forall|a: int| 0 <= a < o.len() implies #[trigger] o[a] < s.len() && s[o[a] as int] is Some && o[a] != idx by {
                assert(before.slots@[o[a] as int] is Some);
            }
            assert forall|a: int, b: int|
                0 <= a < o.len() && b == a + 1 && b < o.len() implies s[#[trigger] o[a] as int].unwrap().next
                == Some(o[b]) && s[#[trigger] o[b] as int].unwrap().prev == Some(o[a]) by {
                assert(before.slots@[o[a] as int].unwrap().next == Some(o[b]));
                assert(o[a] != idx && o[b] != idx);
            }
            if o.len() > 0 {
                assert(o[0] == o[0]);
                assert(o[o.len() - 1] == o[o.len() - 1]);
            }
            assert(self.links_ok());
            if o.contains(idx) {
                let a = choose|a: int| 0 <= a < o.len() && o[a] == idx;
                assert(o[a] == o[a]);
            }
        }
        let ghost mid = *self;
        self.push_front(idx);
        proof {
            let o0 = before.order@;
            let o = self.order@;
            let s0 = before.slots@;
            let s = self.slots@;
            let m0 = before.map@;
            let m = self.map@;
            assert(s[idx as int] is Some);
            assert(entry_of(mid.slots@[idx as int]) == entry_of(s[idx as int]));
            assert(s[idx as int].unwrap().key@ == key@);
            assert(!m0.contains_key(key@));
            // free list
            assert forall|j: int| 0 <= j < self.free@.len() implies #[trigger] self.free@[j] < s.len()
                && s[self.free@[j] as int] is None by {
                assert(mid.slots@[self.free@[j] as int] is None);
            }
            // key map
            assert(m.dom() == m0.dom().insert(key@));
            assert(m.len() == m0.len() + 1);
            assert forall|k: Seq<char>| #[trigger] m.contains_key(k) implies m[k] < s.len() && s[m[k] as int] is Some
                && s[m[k] as int].unwrap().key@ == k by {
                if k != key@ {
                    assert(m0.contains_key(k));
                    assert(s0[m0[k] as int] is Some);
                    assert(m0[k] != idx);
                    assert(mid.slots@[m0[k] as int] == s0[m0[k] as int]);
                    assert(entry_of(mid.slots@[m0[k] as int]) == entry_of(s[m0[k] as int]));
                }
            }
            assert forall|x: int| 0 <= x < s.len() && (#[trigger] s[x]) is Some implies m.contains_key(s[x].unwrap().key@)
                && m[s[x].unwrap().key@] == x && o.contains(x as usize) by {
                if x == idx {
                    assert(o[0] == idx);
                } else {
                    assert(mid.slots@[x] is Some);
                    assert(entry_of(mid.slots@[x]) == entry_of(s[x]));
                    assert(x < s0.len());
                    assert(s0[x] == mid.slots@[x]);
                    let kx = s0[x].unwrap().key@;
                    assert(m0.contains_key(kx) && m0[kx] == x);
                    assert(kx != key@);
                    assert(o0.contains(x as usize));
                    let c = choose|c: int| 0 <= c < o0.len() && o0[c] == x as usize;
                    assert(o[c + 1] == x as usize);
                }
            }
            // the entries
            let v2 = self@;
            let want = seq![Entry { key: key@, value, expires_at }] + v1;
            assert forall|a: int| 0 <= a < v2.len() implies #[trigger] v2[a] == want[a] by {
                if a > 0 {
                    let y = o0[a - 1];
                    assert(o[a] == y);
                    assert(o0[a - 1] == o0[a - 1]);
                    assert(s0[y as int] is Some);
                    assert(y != idx);
                    assert(mid.slots@[y as int] == s0[y as int]);
                    assert(entry_of(mid.slots@[y as int]) == entry_of(s[y as int]));
                }
            }
            assert(v2 =~= want);
            self.lemma_inv_entries_wf();
        }
    }

    /// `capacity` of 0 is legal: the cache simply never retains anything.
    pub fn new(capacity: usize, clock: C) -> (r: Self)
        ensures
            r.wf(),
            r@ == Seq::<Entry<V>>::empty(),
            r.cap() == capacity,
            r.counters() == zero_stats(),
            r.time_source() == clock,
    {
        let r = Cache {
            capacity,
            map: StringHashMap::new(),
            slots: Vec::new(),
            free: Vec::new(),
            head: None,
            tail: None,
            clock,
            stats: Stats::default(),
            order: Ghost(Seq::empty()),
        };
        proof {
            assert(r.map@.dom() =~= Set::empty());
            r.lemma_inv_entries_wf();
        }
        r
    }

    pub fn capacity(&self) -> (r: usize)
        ensures
            r == self.cap(),
    {
        self.capacity
    }

    pub fn len(&self) -> (r: usize)
        requires
            self.wf(),
        ensures
            r == self@.len(),
    {
        proof {
            self.lemma_inv_entries_wf();
        }
        self.map.len()
    }

    pub fn is_empty(&self) -> (r: bool)
        requires
            self.wf(),
        ensures
            r == (self@.len() == 0),
    {
        proof {
            self.lemma_inv_entries_wf();
        }
        self.map.is_empty()
    }

    /// The counters, with `size` set to the number of live entries.
    pub fn stats(&self) -> (r: Stats)
        requires
            self.wf(),
        ensures
            r == (Stats { size: self@.len() as usize, ..self.counters() }),
    {
        proof {
            self.lemma_inv_entries_wf();
        }
        let mut s = self.stats;
        s.size = self.map.len();
        s
    }

    /// Keys most-recently-used first. Reads the order without changing it.
    pub fn keys_by_recency(&self) -> (r: Vec<String>)
        requires
            self.wf(),
        ensures
            r@.map_values(|k: String| k@) == keys_of(self@),
    {
        proof {
            self.lemma_inv_entries_wf();
        }
        let ghost o = self.order@;
        let ghost n = o.len();
        let mut out: Vec<String> = Vec::with_capacity(self.map.len());
        let mut cur = self.head;
        let ghost mut k: int = 0;
        while cur.is_some()
            invariant
                self.links_ok(),
                o == self.order@,
                n == o.len(),
                0 <= k <= n,
                cur == (if k < n {
                    Some(o[k])
                } else {
                    None::<usize>
                }),
                out@.len() == k,
                forall|j: int| 0 <= j < k ==> #[trigger] out@[j]@ == self@[j].key,
            decreases n - k,
        {
            let idx = cur.unwrap();
            proof {
                assert(o[k] == idx);
                if k + 1 < n {
                    assert(o[k + 1] == o[k + 1]);
                }
            }
            match &self.slots[idx] {
                Some(node) => {
                    out.push(node.key.clone());
                    cur = node.next;
                },
                None => {
                    cur = None;
                },
            }
            proof {
                k = k + 1;
            }
        }
        proof {
            assert(out@.map_values(|s: String| s@) =~= keys_of(self@));
        }
        out
    }

    /// Insert or overwrite `key` at time `now`. `ttl_millis` of `None` means
    /// "never expires". If the cache is at capacity and `key` is new, the
    /// least-recently-used entry is evicted first.
    pub fn put_at(&mut self, key: String, value: V, ttl_millis: Option<u64>, now: u64)
        requires
            old(self).wf(),
            put_has_room(old(self)@, old(self).cap() as nat, key@, old(self).counters()),
        ensures
            final(self).wf(),
            final(self)@ == after_put(
                old(self)@,
                old(self).cap() as nat,
                key@,
                value,
                expiry_after(now, ttl_millis),
            ),
            final(self).counters() == count_put(
                old(self).counters(),
                put_evicts(old(self)@, old(self).cap() as nat, key@),
            ),
            final(self).cap() == old(self).cap(),
            final(self).time_source() == old(self).time_source(),
    {
        let ghost v0 = self@;
        proof {
            self.lemma_inv_entries_wf();
        }
        if self.capacity == 0 {
            return;
        }
        let expires_at = match ttl_millis {
            Some(d) => Some(now.saturating_add(d)),
            None => None,
        };
        let found = match self.map.get(key.as_str()) {
            Some(r) => Some(*r),
            None => None,
        };
        if let Some(idx) = found {
            let ghost i = self.lemma_position_of_mapped(key@);
            self.refresh_entry(idx, Ghost(i), value, expires_at);
            proof {
                self.lemma_inv_entries_wf();
            }
            return;
        }
        proof {
            self.lemma_unmapped_key_absent(key@);
        }
        if self.map.len() >= self.capacity {
            self.evict_lru();
            proof {
                assert(self@ == v0.drop_last());
                if holds_key(self@, key@) {
                    let a = choose|a: int| 0 <= a < self@.len() && #[trigger] self@[a].key == key@;
                    assert(v0[a].key == key@);
                }
            }
        }
        proof {
            self.lemma_inv_entries_wf();
            if self.map@.contains_key(key@) {
                self.lemma_position_of_mapped(key@);
            }
        }
        self.insert_front(key, value, expires_at);
        proof {
            self.lemma_inv_entries_wf();
        }
    }

    /// Insert or overwrite `key`, stamping its expiry from the cache's clock.
    /// `ttl_millis` of `None` means "never expires". If the cache is at
    /// capacity and `key` is new, the least-recently-used entry is evicted
    /// first. Never exceeds `capacity`.
    pub fn put(&mut self, key: String, value: V, ttl_millis: Option<u64>)
        requires
            old(self).wf(),
            put_has_room(old(self)@, old(self).cap() as nat, key@, old(self).counters()),
        ensures
            final(self).wf(),
            exists|now: u64|
                final(self)@ == after_put(
                    old(self)@,
                    old(self).cap() as nat,
                    key@,
                    value,
                    expiry_after(now, ttl_millis),
                ),
            stamped_put(*old(self), *final(self), key@, value, ttl_millis),
            final(self).counters() == count_put(
                old(self).counters(),
                put_evicts(old(self)@, old(self).cap() as nat, key@),
            ),
            final(self).cap() == old(self).cap(),
            final(self).time_source() == old(self).time_source(),
    {
        let ghost c0 = *self;
        if self.capacity == 0 {
            proof {
                assert(self@ == after_put(self@, 0, key@, value, expiry_after(0, ttl_millis)));
                let w: u64 = 0;
                assert((c0.cap() > 0 ==> clock_reads(c0.time_source(), w)) && self@ == after_put(
                    c0@,
                    c0.cap() as nat,
                    key@,
                    value,
                    expiry_after(w, ttl_millis),
                ));
            }
            return;
        }
        let now = read_clock(&self.clock);
        self.put_at(key, value, ttl_millis, now);
        proof {
            assert((c0.cap() > 0 ==> clock_reads(c0.time_source(), now)) && self@ == after_put(
                c0@,
                c0.cap() as nat,
                key@,
                value,
                expiry_after(now, ttl_millis),
            ));
        }
    }

    /// The lookup of a key that the cache holds in slot `idx`, at time `now`.
    fn get_present(&mut self, key: &str, idx: usize, now: u64) -> (r: Option<V>)
        requires
            old(self).wf(),
            old(self).map@.contains_key(key@),
            old(self).map@[key@] == idx,
            lookup_has_room(old(self).counters(), lookup_kind(old(self)@, key@, now)),
        ensures
            final(self).wf(),
            final(self)@ == after_get(old(self)@, key@, now),
            final(self).counters() == count_lookup(old(self).counters(), lookup_kind(old(self)@, key@, now)),
            get_returns(old(self)@, key@, now, r),
            final(self).cap() == old(self).cap(),
            final(self).time_source() == old(self).time_source(),
    {
        let ghost v0 = self@;
        let ghost i = self.lemma_position_of_mapped(key@);
        proof {
            assert(self.order@[i] == idx);
            assert(self.slots@[idx as int] is Some);
        }
        let expired = match &self.slots[idx] {
            Some(node) => match node.expires_at {
                Some(exp) => now >= exp,
                None => false,
            },
            None => false,
        };
        proof {
            assert(v0[i] == entry_of(self.slots@[idx as int]));
            assert(expired == is_expired(v0[i].expires_at, now));
        }
        if expired {
            self.remove_slot(idx, Ghost(i));
            self.stats.misses = self.stats.misses + 1;
            self.stats.expirations = self.stats.expirations + 1;
            proof {
                self.lemma_inv_entries_wf();
            }
            return None;
        }
        self.touch(idx, Ghost(i));
        self.stats.hits = self.stats.hits + 1;
        proof {
            self.lemma_inv_entries_wf();
            assert(self.order@[0] == idx);
            assert(self@[0] == v0[i]);
        }
        match &self.slots[idx] {
            Some(node) => Some(node.value.clone()),
            None => None,
        }
    }

    /// Whether the counters can take what a `put(key)` may add: true unless
    /// the put would evict while the eviction counter is full.
    pub fn put_has_room_for(&self, key: &str) -> (r: bool)
        requires
            self.wf(),
        ensures
            r == put_has_room(self@, self.cap() as nat, key@, self.counters()),
    {
        proof {
            self.lemma_inv_entries_wf();
        }
        if self.capacity == 0 || self.map.contains_key(key) || self.map.len() < self.capacity {
            proof {
                if self.map@.contains_key(key@) {
                    self.lemma_position_of_mapped(key@);
                }
            }
            return true;
        }
        proof {
            self.lemma_unmapped_key_absent(key@);
        }
        self.stats.evictions < u64::MAX
    }

    /// Whether the counters can take what a `get(key)` may add, whatever time
    /// it reads.
    pub fn get_has_room_for(&self, key: &str) -> (r: bool)
        requires
            self.wf(),
        ensures
            r == get_has_room(self@, key@, self.counters()),
    {
        let found = match self.map.get(key) {
            Some(r) => Some(*r),
            None => None,
        };
        match found {
            Some(idx) => {
                let ghost i = self.lemma_position_of_mapped(key@);
                proof {
                    assert(self.order@[i] == idx);
                    assert(self.slots@[idx as int] is Some);
                    assert(self@[i] == entry_of(self.slots@[idx as int]));
                }
                let no_expiry = match &self.slots[idx] {
                    Some(node) => node.expires_at.is_none(),
                    None => true,
                };
                if no_expiry {
                    self.stats.hits < u64::MAX
                } else {
                    self.stats.hits < u64::MAX && self.stats.misses < u64::MAX && self.stats.expirations
                        < u64::MAX
                }
            },
            None => {
                proof {
                    self.lemma_unmapped_key_absent(key@);
                }
                self.stats.misses < u64::MAX
            },
        }
    }

    /// Look up `key` at time `now`. An expired entry is removed and counted as
    /// a miss and an expiration. A live hit refreshes recency. Returns a clone
    /// of the value so the cache keeps ownership.
    pub fn get_at(&mut self, key: &str, now: u64) -> (r: Option<V>)
        requires
            old(self).wf(),
            lookup_has_room(old(self).counters(), lookup_kind(old(self)@, key@, now)),
        ensures
            final(self).wf(),
            final(self)@ == after_get(old(self)@, key@, now),
            final(self).counters() == count_lookup(old(self).counters(), lookup_kind(old(self)@, key@, now)),
            get_returns(old(self)@, key@, now, r),
            final(self).cap() == old(self).cap(),
            final(self).time_source() == old(self).time_source(),
    {
        let found = match self.map.get(key) {
            Some(r) => Some(*r),
            None => None,
        };
        match found {
            Some(idx) => self.get_present(key, idx, now),
            None => {
                proof {
                    self.lemma_unmapped_key_absent(key@);
                }
                self.stats.misses = self.stats.misses + 1;
                None
            },
        }
    }

    /// Look up `key`, reading the time from the cache's clock once the key is
    /// found. An expired entry is removed and counted as a miss and an
    /// expiration. A live hit refreshes recency. Returns a clone of the value
    /// so the cache keeps ownership.
    pub fn get(&mut self, key: &str) -> (r: Option<V>)
        requires
            old(self).wf(),
            get_has_room(old(self)@, key@, old(self).counters()),
        ensures
            final(self).wf(),
            exists|now: u64|
                final(self)@ == after_get(old(self)@, key@, now) && final(self).counters() == count_lookup(
                    old(self).counters(),
                    lookup_kind(old(self)@, key@, now),
                ) && get_returns(old(self)@, key@, now, r),
            timed_get(*old(self), *final(self), key@, r),
            final(self).cap() == old(self).cap(),
            final(self).time_source() == old(self).time_source(),
    {
        let ghost c0 = *self;
        let ghost v0 = self@;
        let ghost s0 = self.stats;
        let found = match self.map.get(key) {
            Some(r) => Some(*r),
            None => None,
        };
        match found {
            Some(idx) => {
                let now = read_clock(&self.clock);
                proof {
                    self.lemma_position_of_mapped(key@);
                }
                let r = self.get_present(key, idx, now);
                proof {
                    assert((holds_key(c0@, key@) ==> clock_reads(c0.time_source(), now)) && self@ == after_get(
                        c0@,
                        key@,
                        now,
                    ) && self.counters() == count_lookup(c0.counters(), lookup_kind(c0@, key@, now))
                        && get_returns(c0@, key@, now, r));
                }
                r
            },
            None => {
                proof {
                    self.lemma_unmapped_key_absent(key@);
                }
                self.stats.misses = self.stats.misses + 1;
                proof {
                    assert(lookup_kind(v0, key@, 0) == Lookup::Miss);
                    assert(self@ == after_get(v0, key@, 0));
                    assert(self.counters() == count_lookup(s0, lookup_kind(v0, key@, 0)));
                    let w: u64 = 0;
                    assert((holds_key(c0@, key@) ==> clock_reads(c0.time_source(), w)) && self@ == after_get(
                        c0@,
                        key@,
                        w,
                    ) && self.counters() == count_lookup(c0.counters(), lookup_kind(c0@, key@, w))
                        && get_returns(c0@, key@, w, None::<V>));
                }
                None
            },
        }
    }

    /// Remove `key` outright, regardless of expiry. Not counted as a miss or
    /// an expiration since it was not a lookup. Returns whether it was there.
    pub fn remove(&mut self, key: &str) -> (r: bool)
        requires
            old(self).wf(),
        ensures
            final(self).wf(),
            r == holds_key(old(self)@, key@),
            final(self)@ == after_remove(old(self)@, key@),
            final(self).counters() == old(self).counters(),
            final(self).cap() == old(self).cap(),
            final(self).time_source() == old(self).time_source(),
    {
        let found = match self.map.get(key) {
            Some(r) => Some(*r),
            None => None,
        };
        match found {
            Some(idx) => {
                let ghost i = self.lemma_position_of_mapped(key@);
                self.remove_slot(idx, Ghost(i));
                proof {
                    self.lemma_inv_entries_wf();
                }
                true
            },
            None => {
                proof {
                    self.lemma_unmapped_key_absent(key@);
                }
                false
            },
        }
    }

    /// Drops every entry. The counters are kept.
    pub fn clear(&mut self)
        requires
            old(self).wf(),
        ensures
            final(self).wf(),
            final(self)@ == Seq::<Entry<V>>::empty(),
            final(self).counters() == old(self).counters(),
            final(self).cap() == old(self).cap(),
            final(self).time_source() == old(self).time_source(),
    {
        self.map.clear();
        self.slots.clear();
        self.free.clear();
        self.head = None;
        self.tail = None;
        proof {
            self.order@ = Seq::empty();
            assert(self.map@.dom() =~= Set::empty());
            self.lemma_inv_entries_wf();
        }
    }
}

/// `c1` is `c0` after a `put(key, value, ttl)` that stamped the entry's expiry
/// from a reading of the cache's clock taken during that call (a cache of
/// capacity 0 reads no clock and keeps nothing).
pub open spec fn stamped_put<V, C: Clock>(
    c0: Cache<V, C>,
    c1: Cache<V, C>,
    key: Seq<char>,
    value: V,
    ttl: Option<u64>,
) -> bool {
    exists|now: u64|
        #![trigger expiry_after(now, ttl)]
        (c0.cap() > 0 ==> clock_reads(c0.time_source(), now)) && c1@ == after_put(
            c0@,
            c0.cap() as nat,
            key,
            value,
            expiry_after(now, ttl),
        )
}

/// `c1` and `r` are `c0` and the result after a `get(key)` that decided expiry
/// at a reading of the cache's clock taken during that call (a lookup of an
/// absent key reads no clock).
pub open spec fn timed_get<V: Clone, C: Clock>(
    c0: Cache<V, C>,
    c1: Cache<V, C>,
    key: Seq<char>,
    r: Option<V>,
) -> bool {
    exists|now: u64|
        #![trigger lookup_kind(c0@, key, now)]
        (holds_key(c0@, key) ==> clock_reads(c0.time_source(), now)) && c1@ == after_get(c0@, key, now)
            && c1.counters() == count_lookup(c0.counters(), lookup_kind(c0@, key, now)) && get_returns(
            c0@,
            key,
            now,
            r,
        )
}

/// Law: `put` stamps the entry's expiry from the reading its clock gave during
/// the call. When the clock could only have read `t`, a put of `key` with a
/// TTL of `d` ms into a cache with room leaves `key` first, with the value put
/// and the stamp `t + d` (saturating at `u64::MAX`), whatever stamp the key had
/// before; and a lookup at any time before that stamp is a hit.
pub proof fn lemma_put_stamps_the_reading<V, C: Clock>(
    c0: Cache<V, C>,
    c1: Cache<V, C>,
    key: Seq<char>,
    value: V,
    d: u64,
    t: u64,
)
    requires
        c0.wf(),
        c0.cap() > 0,
        stamped_put(c0, c1, key, value, Some(d)),
        forall|x: u64| #[trigger] clock_reads(c0.time_source(), x) ==> x == t,
    ensures
        c1@.len() > 0,
        c1@[0].key == key,
        c1@[0].value == value,
        c1@[0].expires_at == Some(
            if t + d > u64::MAX {
                u64::MAX
            } else {
                (t + d) as u64
            },
        ),
        forall|later: u64|
            later < t + d && later < u64::MAX ==> #[trigger] lookup_kind(c1@, key, later) == Lookup::Hit,
{
    let now = choose|now: u64|
        #![trigger expiry_after(now, Some(d))]
        (c0.cap() > 0 ==> clock_reads(c0.time_source(), now)) && c1@ == after_put(
            c0@,
            c0.cap() as nat,
            key,
            value,
            expiry_after(now, Some(d)),
        );
    assert(now == t);
    lemma_put_keeps_entries_wf(c0@, c0.cap() as nat, key, value, expiry_after(t, Some(d)));
    assert(c1@[0].key == key);
    lemma_key_position(c1@, 0);
}

/// Law: `get` decides expiry at the reading its clock gave during the call.
/// When the clock could only have read `t` and the cache holds `key` with
/// expiry stamp `e`: if `t >= e`, the get returns nothing, the key is gone,
/// and one miss and one expiration are counted; otherwise it returns a clone
/// of the value, the key moves to the front, and one hit is counted.
pub proof fn lemma_get_decides_at_the_reading<V: Clone, C: Clock>(
    c0: Cache<V, C>,
    c1: Cache<V, C>,
    key: Seq<char>,
    r: Option<V>,
    t: u64,
)
    requires
        c0.wf(),
        holds_key(c0@, key),
        get_has_room(c0@, key, c0.counters()),
        timed_get(c0, c1, key, r),
        forall|x: u64| #[trigger] clock_reads(c0.time_source(), x) ==> x == t,
    ensures
        ({
            let e = c0@[key_position(c0@, key)];
            if e.expires_at is Some && t >= e.expires_at.unwrap() {
                &&& r is None
                &&& !holds_key(c1@, key)
                &&& c1.counters().misses == c0.counters().misses + 1
                &&& c1.counters().expirations == c0.counters().expirations + 1
                &&& c1.counters().hits == c0.counters().hits
            } else {
                &&& r is Some
                &&& cloned(e.value, r.unwrap())
                &&& c1@[0] == e
                &&& c1.counters().hits == c0.counters().hits + 1
                &&& c1.counters().misses == c0.counters().misses
            }
        }),
{
    let now = choose|now: u64|
        #![trigger lookup_kind(c0@, key, now)]
        (holds_key(c0@, key) ==> clock_reads(c0.time_source(), now)) && c1@ == after_get(c0@, key, now)
            && c1.counters() == count_lookup(c0.counters(), lookup_kind(c0@, key, now)) && get_returns(
            c0@,
            key,
            now,
            r,
        );
    assert(now == t);
    if lookup_kind(c0@, key, t) == Lookup::Expired {
        lemma_expired_entry_is_dropped(c0@, c0.cap() as nat, key, t);
    }
}

/// Law: a well-formed cache never holds more entries than its capacity, and
/// its size as the counters report it is the number of its entries.
pub proof fn lemma_size_within_capacity<V, C: Clock>(c: &Cache<V, C>)
    requires
        c.wf(),
    ensures
        c@.len() <= c.cap(),
        c.cap() == 0 ==> c@.len() == 0,
{
}

} // verus!
