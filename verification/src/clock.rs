//! Sources of "now", in milliseconds since an arbitrary epoch. The cache reads
//! time only through the `Clock` trait, so TTL behaviour can be driven by hand.
use std::time::{Duration, SystemTime, SystemTimeError};
use vstd::cell::invcell::InvCell;
use vstd::prelude::*;
use vstd::predicate::Predicate;

verus! {

/// Anything that can report "now" as milliseconds since an arbitrary epoch.
/// Nothing is promised of the reading: callers state what holds for every value.
pub trait Clock {
    fn now_millis(&self) -> u64;
}

/// `t` is a reading that a call of `c.now_millis()` gave.
pub open spec fn clock_reads<C: Clock>(c: C, t: u64) -> bool {
    call_ensures(C::now_millis, (&c,), t)
}

/// Calls `f` on `a`, keeping in the contract that the result is what `f` gave.
fn call_unary<A, R, F: Fn(&A) -> R>(f: F, a: &A) -> (r: R)
    requires
        f.requires((a,)),
    ensures
        f.ensures((a,), r),
{
    f(a)
}

/// Calls `f`, keeping in the contract that the result is what `f` gave.
fn call_nullary<R, F: Fn() -> R>(f: F) -> (r: R)
    requires
        f.requires(()),
    ensures
        f.ensures((), r),
{
    f()
}

/// Reads the clock `c` once.
pub fn read_clock<C: Clock>(c: &C) -> (t: u64)
    ensures
        clock_reads(*c, t),
{
    call_unary(C::now_millis, c)
}

#[verifier::external_type_specification]
#[verifier::external_body]
pub struct ExSystemTime(SystemTime);

#[verifier::external_type_specification]
#[verifier::external_body]
pub struct ExSystemTimeError(SystemTimeError);

/// Calls `std::time::SystemTime::now`. The reading comes from the machine's
/// wall clock, so nothing is claimed of it.
#[verifier::external_body]
fn wall_clock_now() -> SystemTime {
    SystemTime::now()
}

/// Calls `SystemTime::duration_since` with `std::time::UNIX_EPOCH` as the
/// earlier instant. Whether it succeeds depends on the reading, which is
/// opaque here, so nothing is claimed of the result.
#[verifier::external_body]
fn since_unix_epoch(t: &SystemTime) -> Result<Duration, SystemTimeError> {
    t.duration_since(std::time::UNIX_EPOCH)
}

/// Calls `Duration::as_millis`. `Duration` is opaque here, so nothing is
/// claimed of the number of whole milliseconds it returns.
#[verifier::external_body]
fn whole_millis(d: &Duration) -> u128 {
    d.as_millis()
}

/// A clock reading from a count of whole milliseconds since the Unix epoch:
/// that count truncated to 64 bits, or 0 when the time lies before the epoch
/// (`None`).
pub open spec fn clock_millis(ms: Option<u128>) -> u64 {
    match ms {
        Some(x) => x as u64,
        None => 0u64,
    }
}

/// `ms` is what one reading of the wall clock gives: the whole milliseconds
/// (`Duration::as_millis`) of the time from `UNIX_EPOCH` to a reading of
/// `SystemTime::now`, or `None` when that reading lies before the epoch.
pub closed spec fn millis_since_epoch(ms: Option<u128>) -> bool {
    exists|w: SystemTime, d: Result<Duration, SystemTimeError>|
        #![trigger call_ensures(wall_clock_now, (), w), call_ensures(since_unix_epoch, (&w,), d)]
        call_ensures(wall_clock_now, (), w) && call_ensures(since_unix_epoch, (&w,), d) && match d {
            Ok(du) => ms is Some && call_ensures(whole_millis, (&du,), ms.unwrap()),
            Err(_) => ms is None,
        }
}

/// The reading of the wall clock from its whole milliseconds since the Unix
/// epoch: that count truncated to 64 bits, or 0 when the time lies before the
/// epoch (`None`).
pub fn millis_or_zero(ms: Option<u128>) -> (r: u64)
    ensures
        r == (match ms {
            Some(x) => x as u64,
            None => 0u64,
        }),
        r == clock_millis(ms),
{
    match ms {
        Some(x) => {
            #[verifier::truncate]
            (x as u64)
        },
        None => 0,
    }
}

/// The real wall clock: milliseconds since the Unix epoch, 0 before it.
pub struct SystemClock;

impl Default for SystemClock {
    fn default() -> (r: SystemClock)
        ensures
            r == SystemClock,
    {
        SystemClock
    }
}

impl Clock for SystemClock {
    /// The wall clock's whole milliseconds since the Unix epoch, truncated to
    /// 64 bits, or 0 before the epoch.
    fn now_millis(&self) -> (r: u64)
        ensures
            exists|ms: Option<u128>| millis_since_epoch(ms) && r == clock_millis(ms),
    {
        let now = call_nullary(wall_clock_now);
        let since = call_unary(since_unix_epoch, &now);
        let ms = match since {
            Ok(d) => Some(call_unary(whole_millis, &d)),
            Err(_) => None,
        };
        proof {
            assert(millis_since_epoch(ms));
        }
        millis_or_zero(ms)
    }
}

/// Law: the wall clock reads whole milliseconds since the Unix epoch. Every
/// reading of a `SystemClock` comes from one count `m` of whole milliseconds
/// from `UNIX_EPOCH` to a reading of `SystemTime::now` and is `m` modulo 2^64
/// (exactly `m` when `m` fits in 64 bits), or is 0 when that reading lies
/// before the epoch.
pub proof fn lemma_wall_clock_reads_whole_millis(r: u64)
    requires
        clock_reads(SystemClock, r),
    ensures
        exists|ms: Option<u128>|
            millis_since_epoch(ms) && match ms {
                Some(m) => r as int == m % 0x1_0000_0000_0000_0000 && (m <= u64::MAX ==> r == m),
                None => r == 0,
            },
{
    let ms = choose|ms: Option<u128>| millis_since_epoch(ms) && r == clock_millis(ms);
    if let Some(m) = ms {
        assert((m as u64) as int == m % 0x1_0000_0000_0000_0000) by (bit_vector);
    }
}

/// Every `u64` is an admissible reading of a `TestClock`.
pub struct AnyReading;

impl Predicate<u64> for AnyReading {
    open spec fn predicate(&self, v: u64) -> bool {
        true
    }
}

/// A clock whose value is set by hand, through a shared reference, so that a
/// test can hold it while a cache reads it.
pub struct TestClock {
    now: InvCell<u64, AnyReading>,
}

impl TestClock {
    pub fn new(start_millis: u64) -> Self {
        TestClock { now: InvCell::new(start_millis, Ghost(AnyReading)) }
    }

    pub fn set(&self, millis: u64) {
        self.now.set(millis);
    }

    /// Moves the clock forward by `millis`, saturating at `u64::MAX`.
    pub fn advance(&self, millis: u64) {
        let cur = self.now.get();
        self.now.set(cur.saturating_add(millis));
    }
}

impl Clock for TestClock {
    fn now_millis(&self) -> u64 {
        self.now.get()
    }
}

} // verus!
