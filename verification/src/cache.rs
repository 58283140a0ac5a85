//! The decision engine: classify each descriptor of a request against its
//! resolved limit, batch the needed counter increments to the store pool in
//! one pipelined round trip per connection, and assemble the per-descriptor
//! statuses. An in-process near-cache suppresses store load for keys already
//! known to be over limit in the current window.

use vstd::prelude::*;
use crate::config::{CompiledRateLimit, LimitModel};
use crate::error::RateLimitError;
use crate::keys::{cache_key_view, entry_views};
use crate::redis::RedisClientPool;
use crate::store::{op_views, CounterStore};
use crate::utils::{spec_effective_hits, spec_reset, spec_window, TimeSource, Unit};

verus! {

/// Response codes for rate limiting.
#[derive(Debug, Clone, Copy, PartialEq, Eq, Structural)]
pub enum ResponseCode {
    Okay,
    OverLimit,
}

/// The limit reported back to the caller for one descriptor.
#[derive(Debug, Clone, Copy, PartialEq, Eq, Structural)]
pub struct RateLimit {
    pub requests_per_unit: u32,
    pub unit: Unit,
}

/// Response status for a single descriptor.
#[derive(Debug, Clone, Copy, PartialEq, Eq, Structural)]
pub struct DescriptorStatus {
    pub code: ResponseCode,
    pub current_limit: Option<RateLimit>,
    pub limit_remaining: u32,
    pub duration_until_reset_secs: u64,
}

/// Rate limit request descriptor: an ordered list of key/value pairs.
#[derive(Debug)]
pub struct RateLimitDescriptor {
    pub entries: Vec<(String, String)>,
}

/// Rate limit request.
#[derive(Debug)]
pub struct RateLimitRequest {
    pub domain: String,
    pub descriptors: Vec<RateLimitDescriptor>,
    pub hits_addend: u32,
}

/// How long a near-cache entry lives: one window of its unit.
#[derive(Debug, Clone, Copy, PartialEq, Eq, Structural)]
pub enum Expiration {
    Duration(Unit),
}

impl Expiration {
    /// The lifetime this expiration stands for, in seconds.
    pub open spec fn spec_secs(self) -> u64 {
        match self {
            Expiration::Duration(unit) => unit.seconds(),
        }
    }

    /// The lifetime in seconds, when one applies.
    pub fn as_duration(&self) -> (r: Option<u64>)
        ensures
            r == Some(self.spec_secs()),
    {
        match self {
            Expiration::Duration(unit) => Some(unit.to_seconds()),
        }
    }
}

/// A computed cache key together with its routing class.
#[derive(Debug, Clone)]
pub struct CacheKey {
    pub key: String,
    pub per_second: bool,
}

/// The near-cache container type.
///
/// Relies on moka's synchronous `Cache`: a bounded, thread-safe map that may
/// evict entries at any time. Verified code treats a value of it as opaque.
#[verifier::external_type_specification]
#[verifier::external_body]
#[verifier::reject_recursive_types(K)]
#[verifier::reject_recursive_types(V)]
#[verifier::reject_recursive_types(S)]
pub struct ExMokaCache<K, V, S>(moka::sync::Cache<K, V, S>);

/// Relies on moka::sync::Cache::new: an empty cache bounded to `capacity`
/// entries, least-recently-used entries leaving first.
#[verifier::external_body]
fn new_local_cache(capacity: u64) -> moka::sync::Cache<String, u64> {
    moka::sync::Cache::new(capacity)
}

/// Relies on moka::sync::Cache::insert: records the value under the key
/// until eviction. Nothing is promised of the cache contents.
#[verifier::external_body]
fn local_cache_insert(cache: &moka::sync::Cache<String, u64>, key: &str, expires_at: u64) {
    cache.insert(key.to_owned(), expires_at)
}

/// The near-cache container: a bounded moka cache of `(key, expires_at)`
/// entries, together with the mathematical set of entries ever recorded
/// in it. The set only grows; the cache below may evict at will.
struct NearCache {
    inner: moka::sync::Cache<String, u64>,
    history: Ghost<Set<(Seq<char>, u64)>>,
}

impl NearCache {
    /// The entries ever recorded, as `(key, expires_at)` pairs.
    closed spec fn spec_history(self) -> Set<(Seq<char>, u64)> {
        self.history@
    }

    /// An empty near-cache bounded to `capacity` entries.
    fn new(capacity: u64) -> (r: Self)
        ensures
            r.spec_history() == Set::<(Seq<char>, u64)>::empty(),
    {
        NearCache { inner: new_local_cache(capacity), history: Ghost(Set::empty()) }
    }

    /// Record an entry; the history gains exactly it.
    fn insert(&mut self, key: &str, expires_at: u64)
        ensures
            final(self).spec_history() == old(self).spec_history().insert((key@, expires_at)),
    {
        local_cache_insert(&self.inner, key, expires_at);
        proof {
            self.history@ = self.history@.insert((key@, expires_at));
        }
    }

    /// Look a key up; any hit was recorded earlier under this key.
    ///
    /// Relies on moka::sync::Cache::get returning only values stored under
    /// the key; every store on this container goes through `insert` above,
    /// which records the entry, so a hit is always in the history.
    /// Eviction may drop entries at any time, so a miss promises nothing:
    /// the near-cache can give false negatives but never false positives.
    #[verifier::external_body]
    fn get(&self, key: &str) -> (r: Option<u64>)
        ensures
            r matches Some(expires_at) ==> self.spec_history().contains((key@, expires_at)),
    {
        self.inner.get(key)
    }
}

/// The key for one descriptor, with the configured prefix prepended.
pub open spec fn prefixed_key(prefix: Seq<char>, key: Seq<char>) -> Seq<char> {
    if prefix.len() == 0 {
        key
    } else {
        prefix + seq![':'] + key
    }
}

/// The model of the limit resolved for descriptor `i`, if any.
pub open spec fn limit_model_at(limits: Seq<Option<&CompiledRateLimit>>, i: int) -> Option<
    LimitModel,
> {
    match limits[i] {
        Some(l) => Some(l.model()),
        None => None,
    }
}

/// Whether a resolved limit needs no counting: none configured, or an
/// unlimited one.
pub open spec fn no_count_needed(l: Option<LimitModel>) -> bool {
    match l {
        None => true,
        Some(m) => m.unlimited,
    }
}

/// A status assembled from a code, an optional limit, and a remaining
/// count, with the reset seconds of the limit's window at `now`.
pub open spec fn spec_status_of(
    code: ResponseCode,
    l: Option<LimitModel>,
    limit_remaining: u32,
    now: u64,
) -> DescriptorStatus {
    DescriptorStatus {
        code,
        current_limit: match l {
            Some(m) => Some(RateLimit { requests_per_unit: m.requests_per_unit, unit: m.unit }),
            None => None,
        },
        limit_remaining,
        duration_until_reset_secs: match l {
            Some(m) => spec_reset(now, m.unit) as u64,
            None => 0,
        },
    }
}

/// The status of a descriptor with no limit configured: allowed through.
pub open spec fn spec_status_no_limit() -> DescriptorStatus {
    spec_status_of(ResponseCode::Okay, None, 0, 0)
}

/// The status of a descriptor under an unlimited limit.
pub open spec fn spec_status_unlimited(l: LimitModel, now: u64) -> DescriptorStatus {
    spec_status_of(ResponseCode::Okay, Some(l), u32::MAX, now)
}

/// The status of a descriptor whose key the near-cache reported over limit:
/// the authoritative increment already happened in a prior request.
pub open spec fn spec_status_cached_over(l: LimitModel, now: u64) -> DescriptorStatus {
    spec_status_of(
        if l.shadow_mode {
            ResponseCode::Okay
        } else {
            ResponseCode::OverLimit
        },
        Some(l),
        0,
        now,
    )
}

/// Whether a post-increment count `n` is over the limit.
pub open spec fn spec_over_limit(l: LimitModel, n: u64) -> bool {
    n > l.requests_per_unit
}

/// The remaining budget after a post-increment count `n`, saturating at
/// zero.
pub open spec fn spec_remaining(l: LimitModel, n: u64) -> u32 {
    if n >= l.requests_per_unit {
        0
    } else {
        (l.requests_per_unit - n) as u32
    }
}

/// The status decided from the post-increment count `n` returned by the
/// store: over limit when `n` exceeds the budget, reported `Ok` in shadow
/// mode.
pub open spec fn spec_status_counted(l: LimitModel, n: u64, now: u64) -> DescriptorStatus {
    spec_status_of(
        if spec_over_limit(l, n) && !l.shadow_mode {
            ResponseCode::OverLimit
        } else {
            ResponseCode::Okay
        },
        Some(l),
        spec_remaining(l, n),
        now,
    )
}

/// What may be returned for one descriptor resolved to `lopt`, at `now`:
/// exactly the no-limit status when no limit is configured; exactly the
/// unlimited status for an unlimited limit; otherwise either the near-cache
/// short-circuit or the status decided from some post-increment count.
pub open spec fn status_valid(lopt: Option<LimitModel>, s: DescriptorStatus, now: u64) -> bool {
    match lopt {
        None => s == spec_status_no_limit(),
        Some(l) => {
            if l.unlimited {
                s == spec_status_unlimited(l, now)
            } else {
                s == spec_status_cached_over(l, now) || (exists|n: u64|
                    s == spec_status_counted(l, n, now))
            }
        },
    }
}

/// Every status is valid for its descriptor's resolved limit.
pub open spec fn all_statuses_valid(
    limits: Seq<Option<&CompiledRateLimit>>,
    statuses: Seq<DescriptorStatus>,
    now: u64,
) -> bool {
    forall|i: int|
        0 <= i < statuses.len() ==> status_valid(limit_model_at(limits, i), #[trigger] statuses[i], now)
}

/// The generated key entries fit a request at `now`: one entry per
/// descriptor with a resolved limit, carrying the prefixed key of that
/// limit's window and routed per second exactly for the second unit.
pub open spec fn cache_keys_match(
    prefix: Seq<char>,
    domain: Seq<char>,
    descs: Seq<RateLimitDescriptor>,
    limits: Seq<Option<&CompiledRateLimit>>,
    keys: Seq<Option<CacheKey>>,
    now: u64,
) -> bool {
    &&& keys.len() == descs.len()
    &&& forall|i: int|
        0 <= i < keys.len() ==> (match limit_model_at(limits, i) {
            Some(l) => #[trigger] keys[i] matches Some(ck) && ck.key@ == prefixed_key(
                prefix,
                cache_key_view(domain, entry_views(descs[i].entries@), spec_window(now, l.unit)),
            ) && ck.per_second == (l.unit == Unit::Second),
            None => keys[i] is None,
        })
}

/// Whether descriptor `i` must be counted: it resolved to a limit that is
/// not unlimited, and the near-cache did not short-circuit it.
pub open spec fn must_count_at(
    limits: Seq<Option<&CompiledRateLimit>>,
    flags: Seq<bool>,
    i: int,
) -> bool {
    &&& !flags[i]
    &&& limit_model_at(limits, i) matches Some(l) && !l.unlimited
}

/// The operation the engine submits for descriptor `i` when it must be
/// counted under limit `l`: the descriptor's prefixed key for the limit's
/// window at `now`, the request's effective hits as the increment, and one
/// window of the limit's unit as time to live.
pub open spec fn descriptor_op(
    l: LimitModel,
    prefix: Seq<char>,
    domain: Seq<char>,
    descs: Seq<RateLimitDescriptor>,
    hits_addend: u32,
    now: u64,
    i: int,
) -> (Seq<char>, u64, u64) {
    (
        prefixed_key(
            prefix,
            cache_key_view(domain, entry_views(descs[i].entries@), spec_window(now, l.unit)),
        ),
        spec_effective_hits(hits_addend),
        l.unit.seconds(),
    )
}

/// One submitted operation belongs to descriptor `i` of the request,
/// routed per second exactly when its limit's unit is the second.
pub open spec fn op_for_descriptor(
    op: (Seq<char>, u64, u64),
    per_second: bool,
    prefix: Seq<char>,
    domain: Seq<char>,
    descs: Seq<RateLimitDescriptor>,
    limits: Seq<Option<&CompiledRateLimit>>,
    hits_addend: u32,
    now: u64,
    i: int,
) -> bool {
    &&& 0 <= i < descs.len()
    &&& limit_model_at(limits, i) matches Some(l) && !l.unlimited && per_second == (l.unit
        == Unit::Second) && op == descriptor_op(l, prefix, domain, descs, hits_addend, now, i)
}

/// The status of one descriptor as the engine's branches decide it: the
/// exact no-limit or unlimited status, the near-cache short-circuit status
/// exactly when the flag is set, and otherwise the status of some
/// post-increment count.
pub open spec fn flagged_status_at(
    lopt: Option<LimitModel>,
    s: DescriptorStatus,
    flag: bool,
    now: u64,
) -> bool {
    match lopt {
        None => s == spec_status_no_limit(),
        Some(l) => {
            if l.unlimited {
                s == spec_status_unlimited(l, now)
            } else if flag {
                s == spec_status_cached_over(l, now)
            } else {
                exists|n: u64| s == spec_status_counted(l, n, now)
            }
        },
    }
}

/// A near-cache short-circuit needs evidence: the flag for descriptor `i`
/// may be set only when an unexpired entry for exactly that descriptor's
/// key was recorded earlier. A cold cache can never short-circuit.
pub open spec fn flag_evidence_at(
    limits: Seq<Option<&CompiledRateLimit>>,
    flags: Seq<bool>,
    prefix: Seq<char>,
    domain: Seq<char>,
    descs: Seq<RateLimitDescriptor>,
    history: Set<(Seq<char>, u64)>,
    now: u64,
    i: int,
) -> bool {
    flags[i] ==> (match limit_model_at(limits, i) {
        Some(l) => exists|e: u64|
            history.contains(
                (
                    prefixed_key(
                        prefix,
                        cache_key_view(
                            domain,
                            entry_views(descs[i].entries@),
                            spec_window(now, l.unit),
                        ),
                    ),
                    e,
                ),
            ) && now < e,
        None => false,
    })
}

/// The statuses follow the engine's branch structure for some near-cache
/// flags, and every set flag is evidenced by a recorded unexpired entry.
pub open spec fn statuses_flagged_valid(
    limits: Seq<Option<&CompiledRateLimit>>,
    statuses: Seq<DescriptorStatus>,
    flags: Seq<bool>,
    prefix: Seq<char>,
    domain: Seq<char>,
    descs: Seq<RateLimitDescriptor>,
    history: Set<(Seq<char>, u64)>,
    now: u64,
) -> bool {
    &&& flags.len() == statuses.len()
    &&& forall|i: int|
        0 <= i < statuses.len() ==> flagged_status_at(
            limit_model_at(limits, i),
            #[trigger] statuses[i],
            flags[i],
            now,
        )
    &&& forall|i: int|
        0 <= i < flags.len() ==> #[trigger] flag_evidence_at(
            limits,
            flags,
            prefix,
            domain,
            descs,
            history,
            now,
            i,
        )
}

/// Against a cold near-cache nothing is short-circuited: when no entries
/// have been recorded, every status follows the branch structure with all
/// flags clear, so a descriptor with a countable limit always carries the
/// status of some post-increment count.
pub proof fn lemma_cold_cache_never_short_circuits(
    limits: Seq<Option<&CompiledRateLimit>>,
    statuses: Seq<DescriptorStatus>,
    flags: Seq<bool>,
    prefix: Seq<char>,
    domain: Seq<char>,
    descs: Seq<RateLimitDescriptor>,
    now: u64,
)
    requires
        statuses_flagged_valid(
            limits,
            statuses,
            flags,
            prefix,
            domain,
            descs,
            Set::<(Seq<char>, u64)>::empty(),
            now,
        ),
    ensures
        forall|i: int|
            0 <= i < statuses.len() ==> flagged_status_at(
                limit_model_at(limits, i),
                #[trigger] statuses[i],
                false,
                now,
            ),
{
    assert forall|i: int| 0 <= i < statuses.len() implies flagged_status_at(
        limit_model_at(limits, i),
        #[trigger] statuses[i],
        false,
        now,
    ) by {
        assert(flag_evidence_at(
            limits,
            flags,
            prefix,
            domain,
            descs,
            Set::<(Seq<char>, u64)>::empty(),
            now,
            i,
        ));
        if flags[i] {
            match limit_model_at(limits, i) {
                Some(l) => {
                    let e = choose|e: u64|
                        Set::<(Seq<char>, u64)>::empty().contains(
                            (
                                prefixed_key(
                                    prefix,
                                    cache_key_view(
                                        domain,
                                        entry_views(descs[i].entries@),
                                        spec_window(now, l.unit),
                                    ),
                                ),
                                e,
                            ),
                        ) && now < e;
                    assert(false);
                },
                None => {},
            }
        }
        assert(flagged_status_at(limit_model_at(limits, i), statuses[i], flags[i], now));
    }
}

/// One operation belongs to some descriptor of the request.
pub open spec fn op_listed(
    op: (Seq<char>, u64, u64),
    per_second: bool,
    prefix: Seq<char>,
    domain: Seq<char>,
    descs: Seq<RateLimitDescriptor>,
    limits: Seq<Option<&CompiledRateLimit>>,
    hits_addend: u32,
    now: u64,
) -> bool {
    exists|i: int|
        op_for_descriptor(op, per_second, prefix, domain, descs, limits, hits_addend, now, i)
}

/// Every operation of a batch belongs to some descriptor of the request,
/// under the batch's routing class.
pub open spec fn ops_valid(
    ops: Seq<(Seq<char>, u64, u64)>,
    per_second: bool,
    prefix: Seq<char>,
    domain: Seq<char>,
    descs: Seq<RateLimitDescriptor>,
    limits: Seq<Option<&CompiledRateLimit>>,
    hits_addend: u32,
    now: u64,
) -> bool {
    forall|k: int|
        0 <= k < ops.len() ==> op_listed(
            #[trigger] ops[k],
            per_second,
            prefix,
            domain,
            descs,
            limits,
            hits_addend,
            now,
        )
}

/// A submitted batch fits the request: every operation in it belongs to
/// some descriptor, under the batch's routing class.
pub open spec fn batch_valid(
    batch: (bool, Seq<(Seq<char>, u64, u64)>),
    prefix: Seq<char>,
    domain: Seq<char>,
    descs: Seq<RateLimitDescriptor>,
    limits: Seq<Option<&CompiledRateLimit>>,
    hits_addend: u32,
    now: u64,
) -> bool {
    ops_valid(batch.1, batch.0, prefix, domain, descs, limits, hits_addend, now)
}

/// Appending one more fitting operation keeps a batch fitting.
proof fn lemma_ops_valid_push(
    ops: Seq<(Seq<char>, u64, u64)>,
    op: (Seq<char>, u64, u64),
    per_second: bool,
    prefix: Seq<char>,
    domain: Seq<char>,
    descs: Seq<RateLimitDescriptor>,
    limits: Seq<Option<&CompiledRateLimit>>,
    hits_addend: u32,
    now: u64,
    i: int,
)
    requires
        ops_valid(ops, per_second, prefix, domain, descs, limits, hits_addend, now),
        op_for_descriptor(op, per_second, prefix, domain, descs, limits, hits_addend, now, i),
    ensures
        ops_valid(ops.push(op), per_second, prefix, domain, descs, limits, hits_addend, now),
{
    assert(op_listed(op, per_second, prefix, domain, descs, limits, hits_addend, now));
    assert forall|k: int| 0 <= k < ops.push(op).len() implies op_listed(
        #[trigger] ops.push(op)[k],
        per_second,
        prefix,
        domain,
        descs,
        limits,
        hits_addend,
        now,
    ) by {
        if k < ops.len() {
            assert(ops.push(op)[k] == ops[k]);
            assert(op_listed(ops[k], per_second, prefix, domain, descs, limits, hits_addend, now));
        } else {
            assert(ops.push(op)[k] == op);
        }
    }
}

/// Membership in a pushed sequence: the old members and the new element.
proof fn lemma_contains_push(s: Seq<usize>, x: usize, y: usize)
    ensures
        s.push(x).contains(y) <==> (s.contains(y) || x == y),
{
    if s.contains(y) {
        let j = choose|j: int| 0 <= j < s.len() && s[j] == y;
        assert(s.push(x)[j] == y);
    }
    if x == y {
        assert(s.push(x)[s.len() as int] == y);
    }
    if s.push(x).contains(y) && x != y {
        let j = choose|j: int| 0 <= j < s.push(x).len() && s.push(x)[j] == y;
        if j < s.len() {
            assert(s[j] == y);
        }
    }
}

/// What one successful decision handed to the counter stores: the prior
/// submission history extended by at most one pipelined batch per store —
/// the per-second batch first when both are present — every operation of
/// which belongs to a descriptor of the request.
pub open spec fn submission_valid(
    old_submitted: Seq<(bool, Seq<(Seq<char>, u64, u64)>)>,
    new_submitted: Seq<(bool, Seq<(Seq<char>, u64, u64)>)>,
    prefix: Seq<char>,
    domain: Seq<char>,
    descs: Seq<RateLimitDescriptor>,
    limits: Seq<Option<&CompiledRateLimit>>,
    hits_addend: u32,
    now: u64,
) -> bool {
    &&& old_submitted.len() <= new_submitted.len() <= old_submitted.len() + 2
    &&& (forall|b: int| 0 <= b < old_submitted.len() ==> #[trigger] new_submitted[b] == old_submitted[b])
    &&& (forall|b: int|
        old_submitted.len() <= b < new_submitted.len() ==> batch_valid(
            #[trigger] new_submitted[b],
            prefix,
            domain,
            descs,
            limits,
            hits_addend,
            now,
        ))
    &&& (new_submitted.len() == old_submitted.len() + 2 ==> new_submitted[old_submitted.len() as int].0
        && !new_submitted[old_submitted.len() as int + 1].0)
}

/// Every descriptor that had to be counted has its operation in one of
/// the newly submitted batches, on its unit's store: nothing owed to the
/// stores is dropped.
pub open spec fn submission_complete(
    limits: Seq<Option<&CompiledRateLimit>>,
    flags: Seq<bool>,
    old_submitted: Seq<(bool, Seq<(Seq<char>, u64, u64)>)>,
    new_submitted: Seq<(bool, Seq<(Seq<char>, u64, u64)>)>,
    prefix: Seq<char>,
    domain: Seq<char>,
    descs: Seq<RateLimitDescriptor>,
    hits_addend: u32,
    now: u64,
) -> bool {
    forall|i: int|
        0 <= i < flags.len() && #[trigger] must_count_at(limits, flags, i) ==> (
        match limit_model_at(limits, i) {
            Some(l) => exists|b: int, k: int|
                old_submitted.len() <= b < new_submitted.len() && 0 <= k
                    < new_submitted[b].1.len() && #[trigger] new_submitted[b].1[k]
                    == descriptor_op(l, prefix, domain, descs, hits_addend, now, i)
                    && new_submitted[b].0 == (l.unit == Unit::Second),
            None => false,
        })
}

/// A successful decision at one instant `now`: every status is valid for
/// its descriptor's resolved limit, and the submission history grew by
/// exactly that decision's batches.
pub open spec fn decision_trace_valid(
    limits: Seq<Option<&CompiledRateLimit>>,
    statuses: Seq<DescriptorStatus>,
    old_submitted: Seq<(bool, Seq<(Seq<char>, u64, u64)>)>,
    new_submitted: Seq<(bool, Seq<(Seq<char>, u64, u64)>)>,
    history: Set<(Seq<char>, u64)>,
    prefix: Seq<char>,
    domain: Seq<char>,
    descs: Seq<RateLimitDescriptor>,
    hits_addend: u32,
    now: u64,
) -> bool {
    &&& all_statuses_valid(limits, statuses, now)
    &&& (exists|flags: Seq<bool>|
        statuses_flagged_valid(limits, statuses, flags, prefix, domain, descs, history, now)
            && submission_complete(
            limits,
            flags,
            old_submitted,
            new_submitted,
            prefix,
            domain,
            descs,
            hits_addend,
            now,
        ))
    &&& submission_valid(
        old_submitted,
        new_submitted,
        prefix,
        domain,
        descs,
        limits,
        hits_addend,
        now,
    )
}

/// The remaining budget plus the consumed part of the window equals the
/// budget: `limit_remaining + min(n, requests_per_unit) ==
/// requests_per_unit` for the status decided from a post-increment count
/// `n`.
pub proof fn lemma_remaining_budget(l: LimitModel, n: u64, now: u64)
    ensures
        spec_status_counted(l, n, now).limit_remaining + (if n <= l.requests_per_unit {
            n as int
        } else {
            l.requests_per_unit as int
        }) == l.requests_per_unit,
{
}

/// Whenever a status carries a current limit, its reset delay is positive
/// and at most one window of the limit's unit.
pub proof fn lemma_reset_bounds(lopt: Option<LimitModel>, s: DescriptorStatus, now: u64)
    requires
        status_valid(lopt, s, now),
        s.current_limit is Some,
    ensures
        0 < s.duration_until_reset_secs,
        (lopt matches Some(l) ==> s.duration_until_reset_secs <= l.unit.seconds()),
{
    match lopt {
        None => {
            assert(s == spec_status_no_limit());
            assert(s.current_limit is None);
        },
        Some(l) => {
            vstd::arithmetic::div_mod::lemma_mod_division_less_than_divisor(
                now as int,
                l.unit.seconds() as int,
            );
            if l.unlimited {
            } else if s == spec_status_cached_over(l, now) {
            } else {
                let n = choose|n: u64| s == spec_status_counted(l, n, now);
                assert(s == spec_status_counted(l, n, now));
            }
        },
    }
}

/// A status valid for a shadow-mode limit always reports within limit:
/// shadow descriptors never contribute an over-limit code.
pub proof fn lemma_shadow_status_ok(lopt: Option<LimitModel>, s: DescriptorStatus, now: u64)
    requires
        status_valid(lopt, s, now),
        (lopt matches Some(l) ==> l.shadow_mode),
    ensures
        s.code != ResponseCode::OverLimit ==> s.code == ResponseCode::Okay,
        (lopt matches Some(l) && l.shadow_mode ==> s.code == ResponseCode::Okay),
        lopt is None ==> s.code == ResponseCode::Okay,
{
    match lopt {
        None => {},
        Some(l) => {
            if l.unlimited {
            } else if s == spec_status_cached_over(l, now) {
            } else {
                let n = choose|n: u64| s == spec_status_counted(l, n, now);
                assert(s == spec_status_counted(l, n, now));
            }
        },
    }
}

/// The decision interface of a rate limit cache: decide every descriptor of
/// a request against its resolved limit.
pub trait RateLimitCache {
    /// The batches this cache has handed to its counter stores so far,
    /// oldest first: the routing class (true for the per-second store) and
    /// the `(key, increment, ttl_seconds)` operations of one pipelined
    /// round trip.
    spec fn submitted(&self) -> Seq<(bool, Seq<(Seq<char>, u64, u64)>)>;

    /// The prefix this cache prepends to every counter key.
    spec fn key_prefix(&self) -> Seq<char>;

    /// The near-cache entries ever recorded, as `(key, expires_at)` pairs.
    spec fn nc_recorded(&self) -> Set<(Seq<char>, u64)>;

    /// Perform the rate limiting decision for the given request, whose
    /// descriptors have been resolved to `limits`, one entry per
    /// descriptor.
    fn do_limit(
        &mut self,
        request: &RateLimitRequest,
        limits: &Vec<Option<&CompiledRateLimit>>,
    ) -> (r: Result<Vec<DescriptorStatus>, RateLimitError>)
        requires
            limits@.len() == request.descriptors@.len(),
        ensures
            (r matches Ok(statuses) ==> statuses@.len() == request.descriptors@.len()),
            (r matches Ok(statuses) ==> exists|now: u64|
                decision_trace_valid(
                    limits@,
                    statuses@,
                    old(self).submitted(),
                    final(self).submitted(),
                    old(self).nc_recorded(),
                    old(self).key_prefix(),
                    request.domain@,
                    request.descriptors@,
                    request.hits_addend,
                    now,
                )),
            (r matches Err(e) ==> (match e {
                RateLimitError::Service(_) => request.descriptors@.len() == 0,
                RateLimitError::Store(_) => request.descriptors@.len() > 0,
                _ => false,
            })),
            (request.descriptors@.len() == 0 ==> (r matches Err(RateLimitError::Service(m)) && m@
                == "Rate limit descriptor list must not be empty"@)),
            (r matches Err(RateLimitError::Service(_)) ==> final(self).submitted() == old(
                self,
            ).submitted() && final(self).nc_recorded() == old(self).nc_recorded()),
            final(self).key_prefix() == old(self).key_prefix(),
            (request.descriptors@.len() > 0 && (forall|i: int|
                0 <= i < limits@.len() ==> no_count_needed(limit_model_at(limits@, i)))) ==> r is Ok,
    ;

    /// Health check for the cache.
    fn health_check(&mut self) -> (r: Result<(), RateLimitError>);
}

/// The counter-backed rate limit cache: resolver results in, statuses out,
/// counting through a pooled store and short-circuiting through the
/// near-cache.
pub struct RedisRateLimitCache<C> {
    redis_pool: RedisClientPool<C>,
    local_cache: NearCache,
    time_source: TimeSource,
    cache_key_prefix: String,
    submitted_log: Ghost<Seq<(bool, Seq<(Seq<char>, u64, u64)>)>>,
}

impl<C> RedisRateLimitCache<C> {
    /// The time source decisions read the clock from.
    pub closed spec fn spec_time_source(self) -> TimeSource {
        self.time_source
    }

    /// The configured cache key prefix.
    pub closed spec fn spec_prefix(self) -> Seq<char> {
        self.cache_key_prefix@
    }

    /// The batches handed to the counter stores so far.
    pub closed spec fn spec_submitted(self) -> Seq<(bool, Seq<(Seq<char>, u64, u64)>)> {
        self.submitted_log@
    }

    /// The near-cache entries ever recorded, as `(key, expires_at)` pairs.
    pub closed spec fn spec_nc_recorded(self) -> Set<(Seq<char>, u64)> {
        self.local_cache.spec_history()
    }

    /// Create a cache over the given store pool, reading the system clock.
    pub fn new(redis_pool: RedisClientPool<C>, local_cache_size: u64, cache_key_prefix: String) -> (r:
        Self)
        ensures
            r.spec_prefix() == cache_key_prefix@,
            r.spec_time_source().fixed_time() is None,
            r.spec_pool() == redis_pool,
            r.spec_submitted() == Seq::<(bool, Seq<(Seq<char>, u64, u64)>)>::empty(),
            r.spec_nc_recorded() == Set::<(Seq<char>, u64)>::empty(),
    {
        RedisRateLimitCache {
            redis_pool,
            local_cache: NearCache::new(local_cache_size),
            time_source: TimeSource::new(),
            cache_key_prefix,
            submitted_log: Ghost(Seq::empty()),
        }
    }

    /// Create a cache reading time from the given source; with a fixed
    /// source, decisions are reproducible.
    pub fn new_with_time_source(
        redis_pool: RedisClientPool<C>,
        local_cache_size: u64,
        cache_key_prefix: String,
        time_source: TimeSource,
    ) -> (r: Self)
        ensures
            r.spec_prefix() == cache_key_prefix@,
            r.spec_time_source() == time_source,
            r.spec_pool() == redis_pool,
            r.spec_submitted() == Seq::<(bool, Seq<(Seq<char>, u64, u64)>)>::empty(),
            r.spec_nc_recorded() == Set::<(Seq<char>, u64)>::empty(),
    {
        RedisRateLimitCache {
            redis_pool,
            local_cache: NearCache::new(local_cache_size),
            time_source,
            cache_key_prefix,
            submitted_log: Ghost(Seq::empty()),
        }
    }

    /// The store pool behind this cache.
    pub closed spec fn spec_pool(self) -> RedisClientPool<C> {
        self.redis_pool
    }

    /// Borrow the store pool, so that callers can probe the stores.
    pub fn pool(&self) -> (r: &RedisClientPool<C>)
        ensures
            *r == self.spec_pool(),
    {
        &self.redis_pool
    }

    /// Replace the time source; moving a fixed source forward simulates
    /// the passage of time.
    pub fn set_time_source(&mut self, time_source: TimeSource)
        ensures
            final(self).spec_time_source() == time_source,
            final(self).spec_prefix() == old(self).spec_prefix(),
            final(self).spec_pool() == old(self).spec_pool(),
            final(self).spec_submitted() == old(self).spec_submitted(),
            final(self).spec_nc_recorded() == old(self).spec_nc_recorded(),
    {
        self.time_source = time_source;
    }

    /// The cache key of one descriptor for a limit's unit, at `now`, with
    /// the configured prefix.
    fn one_cache_key(&self, domain: &str, entries: &Vec<(String, String)>, unit: Unit, now: u64) -> (r:
        String)
        ensures
            r@ == prefixed_key(
                self.spec_prefix(),
                cache_key_view(domain@, entry_views(entries@), spec_window(now, unit)),
            ),
    {
        let pairs = crate::keys::entry_refs(entries);
        let base = crate::keys::build_cache_key(domain, pairs.as_slice(), unit, now);
        if self.cache_key_prefix.as_str().is_empty() {
            base
        } else {
            let mut s = self.cache_key_prefix.clone();
            s.append(":");
            s.append(base.as_str());
            proof {
                reveal_strlit(":");
                assert(":"@ =~= seq![':']);
                assert(s@ =~= prefixed_key(self.spec_prefix(), base@));
            }
            s
        }
    }

    /// Generate the cache keys for a request's descriptors at `now`: one
    /// per descriptor with a resolved limit, routed per second exactly when
    /// the limit's unit is the second.
    fn generate_cache_keys_at(
        &self,
        request: &RateLimitRequest,
        limits: &Vec<Option<&CompiledRateLimit>>,
        now: u64,
    ) -> (r: Vec<Option<CacheKey>>)
        requires
            limits@.len() == request.descriptors@.len(),
        ensures
            cache_keys_match(
                self.spec_prefix(),
                request.domain@,
                request.descriptors@,
                limits@,
                r@,
                now,
            ),
    {
        let n = request.descriptors.len();
        let mut r: Vec<Option<CacheKey>> = Vec::new();
        for i in 0..n
            invariant
                n == request.descriptors@.len(),
                limits@.len() == n,
                r@.len() == i,
                forall|k: int|
                    0 <= k < i ==> (match limit_model_at(limits@, k) {
                        Some(l) => #[trigger] r@[k] matches Some(ck) && ck.key@ == prefixed_key(
                            self.spec_prefix(),
                            cache_key_view(
                                request.domain@,
                                entry_views(request.descriptors@[k].entries@),
                                spec_window(now, l.unit),
                            ),
                        ) && ck.per_second == (l.unit == Unit::Second),
                        None => r@[k] is None,
                    }),
        {
            let entry = match limits[i] {
                Some(l) => {
                    let key = self.one_cache_key(
                        request.domain.as_str(),
                        &request.descriptors[i].entries,
                        l.unit,
                        now,
                    );
                    Some(CacheKey { key, per_second: l.unit.is_per_second() })
                },
                None => None,
            };
            r.push(entry);
        }
        r
    }

    /// Generate cache keys for a request's descriptors, one per resolved
    /// limit, at the time this cache's source reads now: the prefixed key
    /// of the limit's window, routed per second exactly for the second
    /// unit.
    pub fn generate_cache_keys(
        &self,
        request: &RateLimitRequest,
        limits: &Vec<Option<&CompiledRateLimit>>,
    ) -> (r: Vec<Option<CacheKey>>)
        requires
            limits@.len() == request.descriptors@.len(),
        ensures
            r@.len() == request.descriptors@.len(),
            forall|i: int| 0 <= i < r@.len() ==> (#[trigger] r@[i] is Some <==> limits@[i] is Some),
            (exists|now: u64|
                cache_keys_match(
                    self.spec_prefix(),
                    request.domain@,
                    request.descriptors@,
                    limits@,
                    r@,
                    now,
                )),
            (self.spec_time_source().fixed_time() matches Some(t) ==> cache_keys_match(
                self.spec_prefix(),
                request.domain@,
                request.descriptors@,
                limits@,
                r@,
                t,
            )),
    {
        let now = self.time_source.unix_now();
        let r = self.generate_cache_keys_at(request, limits, now);
        proof {
            assert(exists|t: u64|
                cache_keys_match(
                    self.spec_prefix(),
                    request.domain@,
                    request.descriptors@,
                    limits@,
                    r@,
                    t,
                )) by {
                assert(cache_keys_match(
                    self.spec_prefix(),
                    request.domain@,
                    request.descriptors@,
                    limits@,
                    r@,
                    now,
                ));
            }
            assert forall|i: int| 0 <= i < r@.len() implies (#[trigger] r@[i] is Some <==> limits@[i]
                is Some) by {
                match limit_model_at(limits@, i) {
                    Some(_) => {},
                    None => {},
                }
            }
        }
        r
    }

    /// Check if a key is over limit in the local cache: an entry must be
    /// present and unexpired at `now`. A hit implies a matching entry was
    /// recorded earlier; the near-cache is never authoritative, and a miss
    /// only costs one store round trip.
    fn is_over_limit_with_local_cache(&self, key: &str, now: u64) -> (r: bool)
        ensures
            r ==> exists|e: u64| self.spec_nc_recorded().contains((key@, e)) && now < e,
    {
        match self.local_cache.get(key) {
            Some(expires_at) => {
                let hit = now < expires_at;
                proof {
                    if hit {
                        assert(exists|e: u64|
                            self.spec_nc_recorded().contains((key@, e)) && now < e) by {
                            assert(self.spec_nc_recorded().contains((key@, expires_at)) && now
                                < expires_at);
                        }
                    }
                }
                hit
            },
            None => false,
        }
    }

    /// Record a key as over limit until the end of its unit's window.
    fn add_to_local_cache(&mut self, key: &str, unit: &Unit, now: u64)
        ensures
            final(self).spec_submitted() == old(self).spec_submitted(),
            final(self).spec_prefix() == old(self).spec_prefix(),
            final(self).spec_time_source() == old(self).spec_time_source(),
            final(self).spec_pool() == old(self).spec_pool(),
    {
        let secs = unit.to_seconds();
        let expires_at = if now <= u64::MAX - secs {
            now + secs
        } else {
            u64::MAX
        };
        self.local_cache.insert(key, expires_at);
    }

    /// Generate the response status for one descriptor.
    fn generate_response_descriptor_status(
        &self,
        code: ResponseCode,
        limit: Option<&CompiledRateLimit>,
        limit_remaining: u32,
        now: u64,
    ) -> (r: DescriptorStatus)
        ensures
            r == spec_status_of(
                code,
                match limit {
                    Some(l) => Some(l.model()),
                    None => None,
                },
                limit_remaining,
                now,
            ),
    {
        let (current_limit, duration_until_reset_secs) = match limit {
            Some(l) => {
                (
                    Some(RateLimit { requests_per_unit: l.requests_per_unit, unit: l.unit }),
                    crate::utils::calculate_reset_at(l.unit, now),
                )
            },
            None => (None, 0),
        };
        DescriptorStatus { code, current_limit, limit_remaining, duration_until_reset_secs }
    }
}

impl<C: CounterStore> RateLimitCache for RedisRateLimitCache<C> {
    closed spec fn submitted(&self) -> Seq<(bool, Seq<(Seq<char>, u64, u64)>)> {
        self.spec_submitted()
    }

    closed spec fn key_prefix(&self) -> Seq<char> {
        self.spec_prefix()
    }

    closed spec fn nc_recorded(&self) -> Set<(Seq<char>, u64)> {
        self.spec_nc_recorded()
    }

    fn do_limit(
        &mut self,
        request: &RateLimitRequest,
        limits: &Vec<Option<&CompiledRateLimit>>,
    ) -> (r: Result<Vec<DescriptorStatus>, RateLimitError>) {
        let ghost prefix = self.spec_prefix();
        let ghost domain = request.domain@;
        let ghost descs = request.descriptors@;
        let ghost old_sub = self.spec_submitted();
        let ghost nc0 = self.spec_nc_recorded();
        let n = request.descriptors.len();
        if n == 0 {
            return Err(
                RateLimitError::Service("Rate limit descriptor list must not be empty".to_owned()),
            );
        }
        let now = self.time_source.unix_now();
        let hits_addend = crate::utils::get_hits_addend(request.hits_addend);

        let cache_keys = self.generate_cache_keys_at(request, limits, now);
        let ghost keys_v = cache_keys@;

        // Check the local cache for keys already over limit this window.
        let mut over_limit_local_cache: Vec<bool> = Vec::new();
        for i in 0..n
            invariant
                n == request.descriptors@.len(),
                limits@.len() == n,
                keys_v == cache_keys@,
                domain == request.domain@,
                descs == request.descriptors@,
                prefix == self.spec_prefix(),
                cache_keys_match(prefix, domain, descs, limits@, keys_v, now),
                over_limit_local_cache@.len() == i,
                self.spec_submitted() == old_sub,
                self.spec_nc_recorded() == nc0,
                forall|k: int|
                    0 <= k < i ==> #[trigger] flag_evidence_at(
                        limits@,
                        over_limit_local_cache@,
                        prefix,
                        domain,
                        descs,
                        nc0,
                        now,
                        k,
                    ),
        {
            let ghost flags0 = over_limit_local_cache@;
            let hit = match &cache_keys[i] {
                Some(ck) => self.is_over_limit_with_local_cache(ck.key.as_str(), now),
                None => false,
            };
            over_limit_local_cache.push(hit);
            proof {
                assert forall|k: int|
                    0 <= k < i + 1 implies #[trigger] flag_evidence_at(
                    limits@,
                    over_limit_local_cache@,
                    prefix,
                    domain,
                    descs,
                    nc0,
                    now,
                    k,
                ) by {
                    assert(over_limit_local_cache@ == flags0.push(hit));
                    if k < i {
                        assert(over_limit_local_cache@[k] == flags0[k]);
                        assert(flag_evidence_at(
                            limits@,
                            flags0,
                            prefix,
                            domain,
                            descs,
                            nc0,
                            now,
                            k,
                        ));
                    } else {
                        if hit {
                            match limit_model_at(limits@, i as int) {
                                Some(l) => {
                                    assert(keys_v[i as int] matches Some(ck2) && ck2.key@
                                        == prefixed_key(
                                        prefix,
                                        cache_key_view(
                                            domain,
                                            entry_views(descs[i as int].entries@),
                                            spec_window(now, l.unit),
                                        ),
                                    ));
                                },
                                None => {
                                    assert(keys_v[i as int] is None);
                                },
                            }
                        }
                    }
                }
            }
        }
        let ghost flags = over_limit_local_cache@;

        // Batch the must-count operations, split by store routing.
        let mut per_second_ops: Vec<(String, u64, u64)> = Vec::new();
        let mut per_second_indices: Vec<usize> = Vec::new();
        let mut other_ops: Vec<(String, u64, u64)> = Vec::new();
        let mut other_indices: Vec<usize> = Vec::new();
        for i in 0..n
            invariant
                n == request.descriptors@.len(),
                limits@.len() == n,
                keys_v == cache_keys@,
                flags == over_limit_local_cache@,
                flags.len() == n,
                domain == request.domain@,
                descs == request.descriptors@,
                prefix == self.spec_prefix(),
                self.spec_submitted() == old_sub,
                hits_addend == spec_effective_hits(request.hits_addend),
                cache_keys_match(prefix, domain, descs, limits@, keys_v, now),
                per_second_indices@.len() == per_second_ops@.len(),
                other_indices@.len() == other_ops@.len(),
                forall|j: int|
                    0 <= j < per_second_indices@.len() ==> #[trigger] per_second_indices@[j] < n,
                forall|j: int| 0 <= j < other_indices@.len() ==> #[trigger] other_indices@[j] < n,
                ops_valid(
                    op_views(per_second_ops@),
                    true,
                    prefix,
                    domain,
                    descs,
                    limits@,
                    request.hits_addend,
                    now,
                ),
                ops_valid(
                    op_views(other_ops@),
                    false,
                    prefix,
                    domain,
                    descs,
                    limits@,
                    request.hits_addend,
                    now,
                ),
                (forall|i2: int|
                    0 <= i2 < i && #[trigger] must_count_at(limits@, flags, i2)
                        ==> per_second_indices@.contains(i2 as usize) || other_indices@.contains(
                        i2 as usize,
                    )),
                (forall|j: int|
                    0 <= j < per_second_indices@.len() ==> (match limit_model_at(
                        limits@,
                        #[trigger] per_second_indices@[j] as int,
                    ) {
                        Some(l) => op_views(per_second_ops@)[j] == descriptor_op(
                            l,
                            prefix,
                            domain,
                            descs,
                            request.hits_addend,
                            now,
                            per_second_indices@[j] as int,
                        ) && l.unit == Unit::Second,
                        None => false,
                    })),
                (forall|j: int|
                    0 <= j < other_indices@.len() ==> (match limit_model_at(
                        limits@,
                        #[trigger] other_indices@[j] as int,
                    ) {
                        Some(l) => op_views(other_ops@)[j] == descriptor_op(
                            l,
                            prefix,
                            domain,
                            descs,
                            request.hits_addend,
                            now,
                            other_indices@[j] as int,
                        ) && l.unit != Unit::Second,
                        None => false,
                    })),
                (forall|k: int| 0 <= k < n ==> no_count_needed(limit_model_at(limits@, k)))
                    ==> per_second_ops@.len() == 0 && other_ops@.len() == 0,
        {
            match limits[i] {
                Some(l) => {
                    if !over_limit_local_cache[i] && !l.unlimited {
                        proof {
                            assert(!no_count_needed(limit_model_at(limits@, i as int)));
                            assert(must_count_at(limits@, flags, i as int));
                        }
                        match &cache_keys[i] {
                            Some(ck) => {
                                let op = (ck.key.clone(), hits_addend, l.unit.to_seconds());
                                let ghost opv = (op.0@, op.1, op.2);
                                proof {
                                    assert(keys_v[i as int] matches Some(ck2) && ck2 == *ck);
                                    assert(op_for_descriptor(
                                        opv,
                                        ck.per_second,
                                        prefix,
                                        domain,
                                        descs,
                                        limits@,
                                        request.hits_addend,
                                        now,
                                        i as int,
                                    ));
                                }
                                if ck.per_second {
                                    let ghost ov0 = op_views(per_second_ops@);
                                    let ghost idx0 = per_second_indices@;
                                    let ghost oidx = other_indices@;
                                    per_second_ops.push(op);
                                    per_second_indices.push(i);
                                    proof {
                                        assert forall|k: int|
                                            0 <= k < per_second_ops@.len() implies #[trigger] op_views(
                                            per_second_ops@,
                                        )[k] == ov0.push(opv)[k] by {
                                            assert(op_views(per_second_ops@)[k] == (
                                            per_second_ops@[k].0@,
                                            per_second_ops@[k].1,
                                            per_second_ops@[k].2,
                                            ));
                                            if k < ov0.len() {
                                                assert(ov0[k] == (
                                                per_second_ops@[k].0@,
                                                per_second_ops@[k].1,
                                                per_second_ops@[k].2,
                                                ));
                                            }
                                        }
                                        assert(op_views(per_second_ops@) =~= ov0.push(opv));
                                        lemma_ops_valid_push(
                                            ov0,
                                            opv,
                                            true,
                                            prefix,
                                            domain,
                                            descs,
                                            limits@,
                                            request.hits_addend,
                                            now,
                                            i as int,
                                        );
                                        assert forall|i2: int|
                                            0 <= i2 < i + 1 && #[trigger] must_count_at(
                                            limits@,
                                            flags,
                                            i2,
                                        ) implies per_second_indices@.contains(i2 as usize)
                                            || other_indices@.contains(i2 as usize) by {
                                            lemma_contains_push(idx0, i, i2 as usize);
                                            if i2 < i {
                                                assert(idx0.contains(i2 as usize)
                                                    || oidx.contains(i2 as usize));
                                            }
                                        }
                                        assert forall|j: int|
                                            0 <= j < per_second_indices@.len() implies (
                                        match limit_model_at(
                                            limits@,
                                            #[trigger] per_second_indices@[j] as int,
                                        ) {
                                            Some(l) => op_views(per_second_ops@)[j]
                                                == descriptor_op(
                                                l,
                                                prefix,
                                                domain,
                                                descs,
                                                request.hits_addend,
                                                now,
                                                per_second_indices@[j] as int,
                                            ) && l.unit == Unit::Second,
                                            None => false,
                                        }) by {
                                            assert(per_second_indices@ == idx0.push(i));
                                            assert(op_views(per_second_ops@) == ov0.push(opv));
                                            if j < idx0.len() {
                                                assert(per_second_indices@[j] == idx0[j]);
                                                assert(op_views(per_second_ops@)[j] == ov0[j]);
                                            } else {
                                                assert(per_second_indices@[j] == i);
                                                assert(op_views(per_second_ops@)[j] == opv);
                                            }
                                        }
                                    }
                                } else {
                                    let ghost ov0 = op_views(other_ops@);
                                    let ghost idx0 = other_indices@;
                                    let ghost pidx = per_second_indices@;
                                    other_ops.push(op);
                                    other_indices.push(i);
                                    proof {
                                        assert forall|k: int|
                                            0 <= k < other_ops@.len() implies #[trigger] op_views(
                                            other_ops@,
                                        )[k] == ov0.push(opv)[k] by {
                                            assert(op_views(other_ops@)[k] == (
                                            other_ops@[k].0@,
                                            other_ops@[k].1,
                                            other_ops@[k].2,
                                            ));
                                            if k < ov0.len() {
                                                assert(ov0[k] == (
                                                other_ops@[k].0@,
                                                other_ops@[k].1,
                                                other_ops@[k].2,
                                                ));
                                            }
                                        }
                                        assert(op_views(other_ops@) =~= ov0.push(opv));
                                        lemma_ops_valid_push(
                                            ov0,
                                            opv,
                                            false,
                                            prefix,
                                            domain,
                                            descs,
                                            limits@,
                                            request.hits_addend,
                                            now,
                                            i as int,
                                        );
                                        assert forall|i2: int|
                                            0 <= i2 < i + 1 && #[trigger] must_count_at(
                                            limits@,
                                            flags,
                                            i2,
                                        ) implies per_second_indices@.contains(i2 as usize)
                                            || other_indices@.contains(i2 as usize) by {
                                            lemma_contains_push(idx0, i, i2 as usize);
                                            if i2 < i {
                                                assert(pidx.contains(i2 as usize)
                                                    || idx0.contains(i2 as usize));
                                            }
                                        }
                                        assert forall|j: int|
                                            0 <= j < other_indices@.len() implies (
                                        match limit_model_at(
                                            limits@,
                                            #[trigger] other_indices@[j] as int,
                                        ) {
                                            Some(l) => op_views(other_ops@)[j] == descriptor_op(
                                                l,
                                                prefix,
                                                domain,
                                                descs,
                                                request.hits_addend,
                                                now,
                                                other_indices@[j] as int,
                                            ) && l.unit != Unit::Second,
                                            None => false,
                                        }) by {
                                            assert(other_indices@ == idx0.push(i));
                                            assert(op_views(other_ops@) == ov0.push(opv));
                                            if j < idx0.len() {
                                                assert(other_indices@[j] == idx0[j]);
                                                assert(op_views(other_ops@)[j] == ov0[j]);
                                            } else {
                                                assert(other_indices@[j] == i);
                                                assert(op_views(other_ops@)[j] == opv);
                                            }
                                        }
                                    }
                                }
                            },
                            None => {
                                proof {
                                    assert(keys_v[i as int] is Some);
                                    assert(false);
                                }
                            },
                        }
                    } else {
                        proof {
                            assert(!must_count_at(limits@, flags, i as int));
                        }
                    }
                },
                None => {
                    proof {
                        assert(!must_count_at(limits@, flags, i as int));
                    }
                },
            }
        }

        // Execute each sub-batch as one pipelined round trip on its store,
        // recording what was handed over.
        let ghost ps_batch = op_views(per_second_ops@);
        let ghost ps_nonempty = per_second_ops@.len() > 0;
        let per_second_results = if per_second_ops.len() > 0 {
            proof {
                self.submitted_log@ = self.submitted_log@.push((true, ps_batch));
            }
            match self.redis_pool.execute(true, per_second_ops) {
                Ok(counts) => counts,
                Err(e) => {
                    return Err(e);
                },
            }
        } else {
            Vec::new()
        };
        let ghost ob_batch = op_views(other_ops@);
        let ghost ob_nonempty = other_ops@.len() > 0;
        let other_results = if other_ops.len() > 0 {
            proof {
                self.submitted_log@ = self.submitted_log@.push((false, ob_batch));
            }
            match self.redis_pool.execute(false, other_ops) {
                Ok(counts) => counts,
                Err(e) => {
                    return Err(e);
                },
            }
        } else {
            Vec::new()
        };
        let ghost new_sub = self.spec_submitted();

        // Stitch the post-increment counts back by original index.
        let mut counts: Vec<Option<u64>> = Vec::new();
        for i in 0..n
            invariant
                counts@.len() == i,
        {
            counts.push(None);
        }
        let m1 = per_second_indices.len();
        for j in 0..m1
            invariant
                m1 == per_second_indices@.len(),
                per_second_results@.len() == m1,
                counts@.len() == n,
                forall|k: int| 0 <= k < m1 ==> #[trigger] per_second_indices@[k] < n,
                forall|k: int|
                    0 <= k < j ==> #[trigger] counts@[per_second_indices@[k] as int] is Some,
        {
            let idx = per_second_indices[j];
            counts[idx] = Some(per_second_results[j]);
        }
        let m2 = other_indices.len();
        for j in 0..m2
            invariant
                m2 == other_indices@.len(),
                other_results@.len() == m2,
                counts@.len() == n,
                forall|k: int| 0 <= k < m1 ==> #[trigger] per_second_indices@[k] < n,
                forall|k: int| 0 <= k < m2 ==> #[trigger] other_indices@[k] < n,
                m1 == per_second_indices@.len(),
                forall|k: int|
                    0 <= k < m1 ==> #[trigger] counts@[per_second_indices@[k] as int] is Some,
                forall|k: int| 0 <= k < j ==> #[trigger] counts@[other_indices@[k] as int] is Some,
        {
            let idx = other_indices[j];
            counts[idx] = Some(other_results[j]);
        }
        proof {
            assert forall|i2: int|
                0 <= i2 < n && #[trigger] must_count_at(limits@, flags, i2) implies counts@[i2]
                is Some by {
                if per_second_indices@.contains(i2 as usize) {
                    let j = choose|j: int|
                        0 <= j < per_second_indices@.len() && per_second_indices@[j] == i2 as usize;
                    assert(counts@[per_second_indices@[j] as int] is Some);
                } else {
                    assert(other_indices@.contains(i2 as usize));
                    let j = choose|j: int|
                        0 <= j < other_indices@.len() && other_indices@[j] == i2 as usize;
                    assert(counts@[other_indices@[j] as int] is Some);
                }
            }
        }

        // Assemble the per-descriptor statuses.
        let mut results: Vec<DescriptorStatus> = Vec::new();
        for i in 0..n
            invariant
                n == request.descriptors@.len(),
                limits@.len() == n,
                keys_v == cache_keys@,
                keys_v.len() == n,
                flags == over_limit_local_cache@,
                flags.len() == n,
                counts@.len() == n,
                results@.len() == i,
                self.spec_submitted() == new_sub,
                self.spec_prefix() == prefix,
                forall|i2: int|
                    0 <= i2 < n && #[trigger] must_count_at(limits@, flags, i2) ==> counts@[i2]
                        is Some,
                forall|k: int|
                    0 <= k < i ==> status_valid(
                        limit_model_at(limits@, k),
                        #[trigger] results@[k],
                        now,
                    ),
                forall|k: int|
                    0 <= k < i ==> flagged_status_at(
                        limit_model_at(limits@, k),
                        #[trigger] results@[k],
                        flags[k],
                        now,
                    ),
        {
            let status = match limits[i] {
                Some(l) => {
                    if l.unlimited {
                        let s = self.generate_response_descriptor_status(
                            ResponseCode::Okay,
                            Some(l),
                            u32::MAX,
                            now,
                        );
                        proof {
                            assert(s == spec_status_unlimited(l.model(), now));
                        }
                        s
                    } else if over_limit_local_cache[i] {
                        let code = if l.shadow_mode {
                            ResponseCode::Okay
                        } else {
                            ResponseCode::OverLimit
                        };
                        let s = self.generate_response_descriptor_status(code, Some(l), 0, now);
                        proof {
                            assert(s == spec_status_cached_over(l.model(), now));
                        }
                        s
                    } else {
                        proof {
                            assert(must_count_at(limits@, flags, i as int));
                            assert(counts@[i as int] is Some);
                        }
                        let current_count = counts[i].unwrap();
                        let over = current_count > l.requests_per_unit as u64;
                        if over && !l.shadow_mode {
                            match &cache_keys[i] {
                                Some(ck) => {
                                    self.add_to_local_cache(ck.key.as_str(), &l.unit, now);
                                },
                                None => {},
                            }
                            let s = self.generate_response_descriptor_status(
                                ResponseCode::OverLimit,
                                Some(l),
                                0,
                                now,
                            );
                            proof {
                                assert(s == spec_status_counted(l.model(), current_count, now));
                            }
                            s
                        } else {
                            let remaining = if current_count >= l.requests_per_unit as u64 {
                                0
                            } else {
                                (l.requests_per_unit as u64 - current_count) as u32
                            };
                            let s = self.generate_response_descriptor_status(
                                ResponseCode::Okay,
                                Some(l),
                                remaining,
                                now,
                            );
                            proof {
                                assert(s == spec_status_counted(l.model(), current_count, now));
                            }
                            s
                        }
                    }
                },
                None => {
                    let s = self.generate_response_descriptor_status(
                        ResponseCode::Okay,
                        None,
                        0,
                        now,
                    );
                    proof {
                        assert(s == spec_status_no_limit());
                    }
                    s
                },
            };
            results.push(status);
        }
        let r: Result<Vec<DescriptorStatus>, RateLimitError> = Ok(results);
        proof {
            match &r {
                Ok(statuses) => {
                    assert(all_statuses_valid(limits@, statuses@, now));
                    assert(statuses_flagged_valid(
                        limits@,
                        statuses@,
                        flags,
                        prefix,
                        domain,
                        descs,
                        nc0,
                        now,
                    ));
                    let base = old_sub.len() as int;
                    assert forall|i2: int|
                        0 <= i2 < flags.len() && #[trigger] must_count_at(
                        limits@,
                        flags,
                        i2,
                    ) implies (match limit_model_at(limits@, i2) {
                        Some(l) => exists|b: int, k: int|
                            old_sub.len() <= b < new_sub.len() && 0 <= k < new_sub[b].1.len()
                                && #[trigger] new_sub[b].1[k] == descriptor_op(
                                l,
                                prefix,
                                domain,
                                descs,
                                request.hits_addend,
                                now,
                                i2,
                            ) && new_sub[b].0 == (l.unit == Unit::Second),
                        None => false,
                    }) by {
                        match limit_model_at(limits@, i2) {
                            Some(l) => {
                                if per_second_indices@.contains(i2 as usize) {
                                    let j = choose|j: int|
                                        0 <= j < per_second_indices@.len()
                                            && per_second_indices@[j] == i2 as usize;
                                    assert(per_second_indices@[j] as int == i2);
                                    assert(ps_batch[j] == descriptor_op(
                                        l,
                                        prefix,
                                        domain,
                                        descs,
                                        request.hits_addend,
                                        now,
                                        i2,
                                    ));
                                    assert(l.unit == Unit::Second);
                                    assert(ps_nonempty);
                                    assert(new_sub[base] == (true, ps_batch));
                                    assert(old_sub.len() <= base < new_sub.len() && 0 <= j
                                        < new_sub[base].1.len() && new_sub[base].1[j]
                                        == descriptor_op(
                                        l,
                                        prefix,
                                        domain,
                                        descs,
                                        request.hits_addend,
                                        now,
                                        i2,
                                    ) && new_sub[base].0 == (l.unit == Unit::Second));
                                } else {
                                    assert(other_indices@.contains(i2 as usize));
                                    let j = choose|j: int|
                                        0 <= j < other_indices@.len() && other_indices@[j]
                                            == i2 as usize;
                                    assert(other_indices@[j] as int == i2);
                                    assert(ob_batch[j] == descriptor_op(
                                        l,
                                        prefix,
                                        domain,
                                        descs,
                                        request.hits_addend,
                                        now,
                                        i2,
                                    ));
                                    assert(l.unit != Unit::Second);
                                    assert(ob_nonempty);
                                    let b0 = base + (if ps_nonempty {
                                        1int
                                    } else {
                                        0int
                                    });
                                    assert(new_sub[b0] == (false, ob_batch));
                                    assert(old_sub.len() <= b0 < new_sub.len() && 0 <= j
                                        < new_sub[b0].1.len() && new_sub[b0].1[j]
                                        == descriptor_op(
                                        l,
                                        prefix,
                                        domain,
                                        descs,
                                        request.hits_addend,
                                        now,
                                        i2,
                                    ) && new_sub[b0].0 == (l.unit == Unit::Second));
                                }
                            },
                            None => {},
                        }
                    }
                    assert(submission_complete(
                        limits@,
                        flags,
                        old_sub,
                        new_sub,
                        prefix,
                        domain,
                        descs,
                        request.hits_addend,
                        now,
                    ));
                    assert(exists|fl: Seq<bool>|
                        statuses_flagged_valid(
                            limits@,
                            statuses@,
                            fl,
                            prefix,
                            domain,
                            descs,
                            nc0,
                            now,
                        ) && submission_complete(
                            limits@,
                            fl,
                            old_sub,
                            new_sub,
                            prefix,
                            domain,
                            descs,
                            request.hits_addend,
                            now,
                        )) by {
                        assert(statuses_flagged_valid(
                            limits@,
                            statuses@,
                            flags,
                            prefix,
                            domain,
                            descs,
                            nc0,
                            now,
                        ) && submission_complete(
                            limits@,
                            flags,
                            old_sub,
                            new_sub,
                            prefix,
                            domain,
                            descs,
                            request.hits_addend,
                            now,
                        ));
                    }
                    assert(submission_valid(
                        old_sub,
                        new_sub,
                        prefix,
                        domain,
                        descs,
                        limits@,
                        request.hits_addend,
                        now,
                    )) by {
                        if ps_nonempty {
                            assert(batch_valid(
                                (true, ps_batch),
                                prefix,
                                domain,
                                descs,
                                limits@,
                                request.hits_addend,
                                now,
                            ));
                        }
                        if ob_nonempty {
                            assert(batch_valid(
                                (false, ob_batch),
                                prefix,
                                domain,
                                descs,
                                limits@,
                                request.hits_addend,
                                now,
                            ));
                        }
                    }
                    assert(old_sub == old(self).submitted());
                    assert(self.spec_submitted() == new_sub);
                    assert(self.submitted() == self.spec_submitted());
                    assert(prefix == old(self).key_prefix());
                    assert(self.key_prefix() == old(self).key_prefix());
                    assert(nc0 == old(self).nc_recorded());
                    assert(decision_trace_valid(
                        limits@,
                        statuses@,
                        old(self).submitted(),
                        self.submitted(),
                        old(self).nc_recorded(),
                        old(self).key_prefix(),
                        request.domain@,
                        request.descriptors@,
                        request.hits_addend,
                        now,
                    ));
                    assert(exists|t: u64|
                        decision_trace_valid(
                            limits@,
                            statuses@,
                            old(self).submitted(),
                            self.submitted(),
                            old(self).nc_recorded(),
                            old(self).key_prefix(),
                            request.domain@,
                            request.descriptors@,
                            request.hits_addend,
                            t,
                        )) by {
                        assert(decision_trace_valid(
                            limits@,
                            statuses@,
                            old(self).submitted(),
                            self.submitted(),
                            old(self).nc_recorded(),
                            old(self).key_prefix(),
                            request.domain@,
                            request.descriptors@,
                            request.hits_addend,
                            now,
                        ));
                    }
                },
                Err(_) => {},
            }
        }
        r
    }

    fn health_check(&mut self) -> (r: Result<(), RateLimitError>) {
        self.redis_pool.health_check()
    }
}

} // verus!
