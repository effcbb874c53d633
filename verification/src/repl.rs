//! The interactive front end's command language: how a line's whitespace-split
//! tokens become a command, and what each command does to a cache and answers.
use crate::cache::{
    count_lookup, count_put, get_has_room, lemma_get_decides_at_the_reading, lemma_put_stamps_the_reading,
    put_has_room, stamped_put, timed_get, Cache, Stats,
};
use crate::clock::{clock_reads, Clock};
use crate::model::{
    after_get, after_put, after_remove, expiry_after, get_returns, holds_key, key_position, keys_of, lookup_kind,
    put_evicts,
};
use vstd::prelude::*;
use vstd::string::StrSliceExecFns;

verus! {

/// An ASCII decimal digit.
pub open spec fn is_digit(c: char) -> bool {
    '0' <= c <= '9'
}

/// The number that a string of decimal digits writes, most significant first.
pub open spec fn digits_value(d: Seq<char>) -> int
    decreases d.len(),
{
    if d.len() == 0 {
        0
    } else {
        digits_value(d.drop_last()) * 10 + (d.last() as int - '0' as int)
    }
}

/// The text after an optional leading `+`.
pub open spec fn unsigned_digits(s: Seq<char>) -> Seq<char> {
    if s.len() > 0 && s[0] == '+' {
        s.subrange(1, s.len() as int)
    } else {
        s
    }
}

/// What `str::parse::<u64>` gives: an optional `+`, then one or more ASCII
/// digits whose value fits in a `u64`; anything else is refused (`None`).
pub open spec fn parse_u64_spec(s: Seq<char>) -> Option<u64> {
    let d = unsigned_digits(s);
    if d.len() > 0 && (forall|i: int| 0 <= i < d.len() ==> is_digit(#[trigger] d[i])) && digits_value(d)
        <= u64::MAX {
        Some(digits_value(d) as u64)
    } else {
        None
    }
}

proof fn lemma_digits_value_nonneg(d: Seq<char>)
    requires
        forall|i: int| 0 <= i < d.len() ==> is_digit(#[trigger] d[i]),
    ensures
        digits_value(d) >= 0,
    decreases d.len(),
{
    if d.len() > 0 {
        lemma_digits_value_nonneg(d.drop_last());
        assert(is_digit(d[d.len() - 1]));
    }
}

/// A prefix of a digit string never writes a larger number than the whole.
proof fn lemma_prefix_value_le(d: Seq<char>, k: int)
    requires
        forall|i: int| 0 <= i < d.len() ==> is_digit(#[trigger] d[i]),
        0 <= k <= d.len(),
    ensures
        digits_value(d.subrange(0, k)) <= digits_value(d),
    decreases d.len(),
{
    if k < d.len() {
        let p = d.drop_last();
        lemma_prefix_value_le(p, k);
        assert(p.subrange(0, k) =~= d.subrange(0, k));
        lemma_digits_value_nonneg(p);
        assert(is_digit(d[d.len() - 1]));
    } else {
        assert(d.subrange(0, k) =~= d);
    }
}

/// Parses a decimal `u64` the way `str::parse::<u64>` does.
pub fn parse_u64_decimal(s: &String) -> (r: Option<u64>)
    ensures
        r == parse_u64_spec(s@),
{
    let text = s.as_str();
    let n = text.unicode_len();
    let start: usize = if n > 0 && text.get_char(0) == '+' {
        1
    } else {
        0
    };
    let ghost d = unsigned_digits(s@);
    proof {
        assert(d =~= s@.subrange(start as int, n as int));
    }
    if start >= n {
        return None;
    }
    let mut acc: u64 = 0;
    let mut i: usize = start;
    while i < n
        invariant
            text@ == s@,
            n == s@.len(),
            start <= i <= n,
            d =~= s@.subrange(start as int, n as int),
            d == unsigned_digits(s@),
            forall|j: int| 0 <= j < i - start ==> is_digit(#[trigger] d[j]),
            acc == digits_value(d.subrange(0, i - start)),
        decreases n - i,
    {
        let c = text.get_char(i);
        proof {
            assert(d[i - start] == c);
        }
        if !('0' <= c && c <= '9') {
            proof {
                assert(!is_digit(d[i - start]));
            }
            return None;
        }
        let digit: u64 = (c as u64) - ('0' as u64);
        let ghost prefix = d.subrange(0, i - start);
        let ghost longer = d.subrange(0, i + 1 - start);
        proof {
            assert(longer.drop_last() =~= prefix);
            assert(longer.last() == c);
        }
        let next = match acc.checked_mul(10) {
            Some(t) => t.checked_add(digit),
            None => None,
        };
        match next {
            Some(v) => {
                acc = v;
            },
            None => {
                proof {
                    assert(digits_value(longer) == acc * 10 + digit);
                    assert(digits_value(longer) > u64::MAX);
                    if forall|j: int| 0 <= j < d.len() ==> is_digit(#[trigger] d[j]) {
                        lemma_prefix_value_le(d, i + 1 - start);
                        assert(digits_value(d) > u64::MAX);
                    }
                }
                return None;
            },
        }
        i = i + 1;
    }
    proof {
        assert(d.subrange(0, n - start) =~= d);
    }
    Some(acc)
}

/// Whether token `t` is the word `w`.
fn token_is(t: &String, w: &str) -> (r: bool)
    ensures
        r == (t@ == w@),
{
    let a = t.as_str();
    let n = a.unicode_len();
    if n != w.unicode_len() {
        return false;
    }
    let mut i: usize = 0;
    while i < n
        invariant
            a@ == t@,
            n == t@.len(),
            n == w@.len(),
            0 <= i <= n,
            forall|j: int| 0 <= j < i ==> t@[j] == w@[j],
        decreases n - i,
    {
        if a.get_char(i) != w.get_char(i) {
            return false;
        }
        i = i + 1;
    }
    proof {
        assert(t@ =~= w@);
    }
    true
}

/// A command of the interactive front end.
pub enum ReplCommand {
    /// An empty line.
    Blank,
    /// `quit` or `exit`.
    Quit,
    /// `set <key> <value>` or `set <key> <value> <ttl_ms>`.
    Store(String, String, Option<u64>),
    /// `set <key> <value> <ttl_ms>` whose TTL is not a `u64`.
    BadTtl,
    /// `get <key>`.
    Get(String),
    /// `del <key>`.
    Del(String),
    /// `keys`.
    Keys,
    /// `stats`.
    Stats,
    /// Anything else.
    Unrecognized,
}

/// A command as plain values.
pub enum CommandModel {
    Blank,
    Quit,
    Store(Seq<char>, Seq<char>, Option<u64>),
    BadTtl,
    Get(Seq<char>),
    Del(Seq<char>),
    Keys,
    Stats,
    Unrecognized,
}

impl View for ReplCommand {
    type V = CommandModel;

    open spec fn view(&self) -> CommandModel {
        match self {
            ReplCommand::Blank => CommandModel::Blank,
            ReplCommand::Quit => CommandModel::Quit,
            ReplCommand::Store(k, v, t) => CommandModel::Store(k@, v@, *t),
            ReplCommand::BadTtl => CommandModel::BadTtl,
            ReplCommand::Get(k) => CommandModel::Get(k@),
            ReplCommand::Del(k) => CommandModel::Del(k@),
            ReplCommand::Keys => CommandModel::Keys,
            ReplCommand::Stats => CommandModel::Stats,
            ReplCommand::Unrecognized => CommandModel::Unrecognized,
        }
    }
}

/// The command that a line's tokens make, tried in this order: no tokens;
/// `quit`/`exit`; `set k v`; `set k v ttl` (with a TTL that parses as a `u64`,
/// else a bad TTL); `get k`; `del k`; `keys`; `stats`; anything else.
pub open spec fn repl_command_of(t: Seq<Seq<char>>) -> CommandModel {
    if t.len() == 0 {
        CommandModel::Blank
    } else if t.len() == 1 && (t[0] == "quit"@ || t[0] == "exit"@) {
        CommandModel::Quit
    } else if t.len() == 3 && t[0] == "set"@ {
        CommandModel::Store(t[1], t[2], None)
    } else if t.len() == 4 && t[0] == "set"@ {
        match parse_u64_spec(t[3]) {
            Some(ms) => CommandModel::Store(t[1], t[2], Some(ms)),
            None => CommandModel::BadTtl,
        }
    } else if t.len() == 2 && t[0] == "get"@ {
        CommandModel::Get(t[1])
    } else if t.len() == 2 && t[0] == "del"@ {
        CommandModel::Del(t[1])
    } else if t.len() == 1 && t[0] == "keys"@ {
        CommandModel::Keys
    } else if t.len() == 1 && t[0] == "stats"@ {
        CommandModel::Stats
    } else {
        CommandModel::Unrecognized
    }
}

/// Reads the command that a line's whitespace-split tokens make.
pub fn parse_repl_tokens(tokens: &Vec<String>) -> (r: ReplCommand)
    ensures
        r@ == repl_command_of(tokens@.map_values(|t: String| t@)),
{
    let ghost t = tokens@.map_values(|t: String| t@);
    let n = tokens.len();
    if n == 0 {
        return ReplCommand::Blank;
    }
    let first = &tokens[0];
    assert(t[0] == first@);
    if n == 1 && (token_is(first, "quit") || token_is(first, "exit")) {
        return ReplCommand::Quit;
    }
    if n == 3 && token_is(first, "set") {
        assert(t[1] == tokens@[1]@ && t[2] == tokens@[2]@);
        return ReplCommand::Store(tokens[1].clone(), tokens[2].clone(), None);
    }
    if n == 4 && token_is(first, "set") {
        assert(t[1] == tokens@[1]@ && t[2] == tokens@[2]@ && t[3] == tokens@[3]@);
        return match parse_u64_decimal(&tokens[3]) {
            Some(ms) => ReplCommand::Store(tokens[1].clone(), tokens[2].clone(), Some(ms)),
            None => ReplCommand::BadTtl,
        };
    }
    if n == 2 && token_is(first, "get") {
        assert(t[1] == tokens@[1]@);
        return ReplCommand::Get(tokens[1].clone());
    }
    if n == 2 && token_is(first, "del") {
        assert(t[1] == tokens@[1]@);
        return ReplCommand::Del(tokens[1].clone());
    }
    if n == 1 && token_is(first, "keys") {
        return ReplCommand::Keys;
    }
    if n == 1 && token_is(first, "stats") {
        return ReplCommand::Stats;
    }
    ReplCommand::Unrecognized
}

/// What the front end answers to a command.
pub enum ReplReply {
    /// Nothing to print (an empty line).
    Silent,
    /// Leave the loop.
    Stop,
    /// `ok`.
    Done,
    /// The TTL was not a number of milliseconds.
    BadTtl,
    /// The value found.
    Value(String),
    /// `(miss)`.
    Miss,
    /// `(not found)`.
    NotFound,
    /// The keys, most-recently-used first.
    Keys(Vec<String>),
    /// The statistics.
    Stats(Stats),
    /// The command was not recognised.
    Unrecognized,
}

/// The value a `get` reply carries, if any.
pub open spec fn reply_value(r: ReplReply) -> Option<String> {
    match r {
        ReplReply::Value(v) => Some(v),
        _ => None,
    }
}

/// The counters that `cmd` may increment on `c` can take one more increment.
pub open spec fn repl_has_room<C: Clock>(c: Cache<String, C>, cmd: ReplCommand) -> bool {
    match cmd {
        ReplCommand::Store(k, _, _) => put_has_room(c@, c.cap() as nat, k@, c.counters()),
        ReplCommand::Get(k) => get_has_room(c@, k@, c.counters()),
        _ => true,
    }
}

/// What a command does to the cache (`c0` before, `c1` after) and answers (`r`).
pub open spec fn repl_effect<C: Clock>(
    c0: Cache<String, C>,
    c1: Cache<String, C>,
    cmd: ReplCommand,
    r: ReplReply,
) -> bool {
    match cmd {
        ReplCommand::Blank => c1 == c0 && r is Silent,
        ReplCommand::Quit => c1 == c0 && r is Stop,
        ReplCommand::Store(k, v, ttl) => {
            let k = k@;
            &&& r is Done
            &&& stamped_put(c0, c1, k, v, ttl)
            &&& c1.counters() == count_put(c0.counters(), put_evicts(c0@, c0.cap() as nat, k))
            &&& exists|now: u64|
                c1@ == after_put(c0@, c0.cap() as nat, k, v, expiry_after(now, ttl))
        },
        ReplCommand::BadTtl => c1 == c0 && r is BadTtl,
        ReplCommand::Get(k) => {
            let k = k@;
            &&& (r is Value || r is Miss)
            &&& timed_get(c0, c1, k, reply_value(r))
            &&& exists|now: u64|
                c1@ == after_get(c0@, k, now) && c1.counters() == count_lookup(
                    c0.counters(),
                    lookup_kind(c0@, k, now),
                ) && get_returns(c0@, k, now, reply_value(r))
        },
        ReplCommand::Del(k) => {
            let k = k@;
            &&& c1@ == after_remove(c0@, k)
            &&& c1.counters() == c0.counters()
            &&& if holds_key(c0@, k) {
                r is Done
            } else {
                r is NotFound
            }
        },
        ReplCommand::Keys => c1 == c0 && match r {
            ReplReply::Keys(ks) => ks@.map_values(|s: String| s@) == keys_of(c0@),
            _ => false,
        },
        ReplCommand::Stats => c1 == c0 && r == ReplReply::Stats(
            Stats { size: c0@.len() as usize, ..c0.counters() },
        ),
        ReplCommand::Unrecognized => c1 == c0 && r is Unrecognized,
    }
}

/// Carries out one command on the cache and says what to answer.
pub fn repl_step<C: Clock>(cache: &mut Cache<String, C>, cmd: ReplCommand) -> (r: ReplReply)
    requires
        old(cache).wf(),
        repl_has_room(*old(cache), cmd),
    ensures
        final(cache).wf(),
        final(cache).cap() == old(cache).cap(),
        final(cache).time_source() == old(cache).time_source(),
        repl_effect(*old(cache), *final(cache), cmd, r),
{
    match cmd {
        ReplCommand::Blank => ReplReply::Silent,
        ReplCommand::Quit => ReplReply::Stop,
        ReplCommand::Store(k, v, ttl) => {
            cache.put(k, v, ttl);
            ReplReply::Done
        },
        ReplCommand::BadTtl => ReplReply::BadTtl,
        ReplCommand::Get(k) => match cache.get(k.as_str()) {
            Some(v) => ReplReply::Value(v),
            None => ReplReply::Miss,
        },
        ReplCommand::Del(k) => {
            if cache.remove(k.as_str()) {
                ReplReply::Done
            } else {
                ReplReply::NotFound
            }
        },
        ReplCommand::Keys => ReplReply::Keys(cache.keys_by_recency()),
        ReplCommand::Stats => ReplReply::Stats(cache.stats()),
        ReplCommand::Unrecognized => ReplReply::Unrecognized,
    }
}

/// Law: the front end's `get` decides expiry at the reading the cache's clock
/// gave during the step. When the clock could only have read `t` and the cache
/// holds key `k` with expiry stamp `e`: the answer is a miss if `t >= e`, and
/// otherwise the stored value itself.
pub proof fn lemma_repl_get_decides_at_the_reading<C: Clock>(
    c0: Cache<String, C>,
    c1: Cache<String, C>,
    k: String,
    r: ReplReply,
    t: u64,
)
    requires
        c0.wf(),
        holds_key(c0@, k@),
        get_has_room(c0@, k@, c0.counters()),
        repl_effect(c0, c1, ReplCommand::Get(k), r),
        forall|x: u64| #[trigger] clock_reads(c0.time_source(), x) ==> x == t,
    ensures
        ({
            let e = c0@[key_position(c0@, k@)];
            if e.expires_at is Some && t >= e.expires_at.unwrap() {
                r is Miss
            } else {
                r == ReplReply::Value(e.value)
            }
        }),
{
    lemma_get_decides_at_the_reading(c0, c1, k@, reply_value(r), t);
}

/// Law: the front end's `set k v ttl` stamps the entry from the reading the
/// cache's clock gave during the step. When the clock could only have read `t`,
/// on a cache with room the answer is `ok` and `k` comes first with value `v`
/// and stamp `t + ttl` (saturating at `u64::MAX`).
pub proof fn lemma_repl_set_stamps_the_reading<C: Clock>(
    c0: Cache<String, C>,
    c1: Cache<String, C>,
    k: String,
    v: String,
    d: u64,
    r: ReplReply,
    t: u64,
)
    requires
        c0.wf(),
        c0.cap() > 0,
        repl_effect(c0, c1, ReplCommand::Store(k, v, Some(d)), r),
        forall|x: u64| #[trigger] clock_reads(c0.time_source(), x) ==> x == t,
    ensures
        r is Done,
        c1@[0].key == k@,
        c1@[0].value == v,
        c1@[0].expires_at == Some(
            if t + d > u64::MAX {
                u64::MAX
            } else {
                (t + d) as u64
            },
        ),
{
    lemma_put_stamps_the_reading(c0, c1, k@, v, d, t);
}

} // verus!
