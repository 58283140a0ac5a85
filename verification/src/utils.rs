//! Time units, the time source, and the small per-request helpers: window
//! arithmetic, reset calculation, and the effective hits addend.

use vstd::prelude::*;

verus! {

/// Rate limit time units: the fixed window sizes a limit can be declared over.
#[derive(Debug, Clone, Copy, PartialEq, Eq, Structural)]
pub enum Unit {
    Second,
    Minute,
    Hour,
    Day,
}

impl Unit {
    /// Window length of this unit, in seconds.
    pub open spec fn seconds(self) -> u64 {
        match self {
            Unit::Second => 1,
            Unit::Minute => 60,
            Unit::Hour => 3600,
            Unit::Day => 86400,
        }
    }

    /// Convert unit to its window length in seconds.
    pub fn to_seconds(self) -> (r: u64)
        ensures
            r == self.seconds(),
    {
        match self {
            Unit::Second => 1,
            Unit::Minute => 60,
            Unit::Hour => 3600,
            Unit::Day => 86400,
        }
    }

    /// Divisor for window-index calculations; equals the window length.
    pub fn to_divisor(self) -> (r: u64)
        ensures
            r == self.seconds(),
    {
        self.to_seconds()
    }

    /// Check if this is the per-second unit.
    pub fn is_per_second(self) -> (r: bool)
        ensures
            r == (self == Unit::Second),
    {
        matches!(self, Unit::Second)
    }
}

/// Reads the wall clock in whole seconds since the Unix epoch.
///
/// Relies on std::time::SystemTime::now, measured from the Unix epoch with
/// duration_since; a clock set before the epoch reads as zero. The result
/// depends on the machine's clock, so nothing is promised of it.
#[verifier::external_body]
fn read_system_clock_seconds() -> u64 {
    match std::time::SystemTime::now().duration_since(std::time::UNIX_EPOCH) {
        Ok(d) => d.as_secs(),
        Err(_) => 0,
    }
}

/// Source of the current time for rate-limiting calculations: the system
/// clock, or a fixed instant injected for reproducible decisions.
#[derive(Debug, Clone, Copy)]
pub struct TimeSource {
    fixed: Option<u64>,
}

impl TimeSource {
    /// The injected instant, if this source was pinned.
    pub closed spec fn fixed_time(self) -> Option<u64> {
        self.fixed
    }

    /// A source that reads the system clock.
    pub fn new() -> (r: Self)
        ensures
            r.fixed_time() is None,
    {
        TimeSource { fixed: None }
    }

    /// A source pinned to `now_unix_seconds`; every reading returns it.
    pub fn fixed(now_unix_seconds: u64) -> (r: Self)
        ensures
            r.fixed_time() == Some(now_unix_seconds),
    {
        TimeSource { fixed: Some(now_unix_seconds) }
    }

    /// Get the current Unix timestamp in seconds.
    pub fn unix_now(&self) -> (r: u64)
        ensures
            self.fixed_time() matches Some(t) ==> r == t,
    {
        match self.fixed {
            Some(t) => t,
            None => read_system_clock_seconds(),
        }
    }
}

impl Default for TimeSource {
    /// The default source reads the system clock.
    fn default() -> (r: Self)
        ensures
            r.fixed_time() is None,
    {
        TimeSource::new()
    }
}

/// The fixed window an instant falls into: `floor(now / unit.seconds())`.
pub open spec fn spec_window(now: u64, unit: Unit) -> int {
    now as int / unit.seconds() as int
}

/// Seconds until the next window of `unit` starts, seen from `now`.
pub open spec fn spec_reset(now: u64, unit: Unit) -> int {
    unit.seconds() as int - now as int % unit.seconds() as int
}

/// Compute the index of the window that `now` falls into.
pub fn window_index(now: u64, unit: Unit) -> (r: u64)
    ensures
        r as int == spec_window(now, unit),
{
    now / unit.to_seconds()
}

/// Calculate when the current window of `unit` resets, as seconds from `now`.
pub fn calculate_reset_at(unit: Unit, now: u64) -> (r: u64)
    ensures
        r as int == spec_reset(now, unit),
        0 < r <= unit.seconds(),
{
    let s = unit.to_seconds();
    s - now % s
}

/// Calculate when the rate limit window will reset, in seconds from now.
pub fn calculate_reset(unit: &Unit, time_source: &TimeSource) -> (r: u64)
    ensures
        0 < r <= unit.seconds(),
        time_source.fixed_time() matches Some(t) ==> r as int == spec_reset(t, *unit),
{
    calculate_reset_at(*unit, time_source.unix_now())
}

/// Generate the cache key for a rate limit bucket: the domain, the
/// descriptor's steps, and the window index that the current time falls
/// into for `unit`, joined with `:`.
pub fn generate_cache_key(
    domain: &str,
    descriptors: &[(&str, &str)],
    unit: Unit,
    time_source: &TimeSource,
) -> (r: String)
    ensures
        (exists|now: u64|
            r@ == crate::keys::cache_key_view(
                domain@,
                crate::keys::str_entry_views(descriptors@),
                spec_window(now, unit),
            )),
        time_source.fixed_time() matches Some(t) ==> r@ == crate::keys::cache_key_view(
            domain@,
            crate::keys::str_entry_views(descriptors@),
            spec_window(t, unit),
        ),
{
    let now = time_source.unix_now();
    let r = crate::keys::build_cache_key(domain, descriptors, unit, now);
    proof {
        assert(exists|t: u64|
            r@ == crate::keys::cache_key_view(
                domain@,
                crate::keys::str_entry_views(descriptors@),
                spec_window(t, unit),
            )) by {
            assert(r@ == crate::keys::cache_key_view(
                domain@,
                crate::keys::str_entry_views(descriptors@),
                spec_window(now, unit),
            ));
        }
    }
    r
}

/// The number of hits a request consumes: a `hits_addend` of zero means one.
pub open spec fn spec_effective_hits(hits_addend: u32) -> u64 {
    if hits_addend == 0 {
        1
    } else {
        hits_addend as u64
    }
}

/// A hits addend of zero and a hits addend of one consume the same single
/// hit: decisions read the addend only through `spec_effective_hits`, so
/// the two are indistinguishable.
pub proof fn lemma_hits_addend_default()
    ensures
        spec_effective_hits(0) == spec_effective_hits(1),
        spec_effective_hits(0) == 1,
{
}

/// Advancing the clock by exactly one window length of `unit` moves to the
/// next window index.
pub proof fn lemma_window_rotation(now: u64, unit: Unit)
    requires
        now + unit.seconds() <= u64::MAX,
    ensures
        spec_window((now + unit.seconds()) as u64, unit) == spec_window(now, unit) + 1,
{
    vstd::arithmetic::div_mod::lemma_div_plus_one(now as int, unit.seconds() as int);
}

/// Extract hits addend from a request value, defaulting zero to one.
pub fn get_hits_addend(hits_addend: u32) -> (r: u64)
    ensures
        r == spec_effective_hits(hits_addend),
{
    if hits_addend == 0 {
        1
    } else {
        hits_addend as u64
    }
}

} // verus!
