//! The rate limiter: per-domain compiled configurations and the decision
//! entry point that validates a request, resolves each descriptor to at
//! most one limit, delegates counting to the cache, and aggregates the
//! overall response code.

use vstd::prelude::*;
use crate::cache::{
    limit_model_at, no_count_needed, status_valid, DescriptorStatus, RateLimitCache,
    RateLimitRequest, ResponseCode,
};
use crate::config::{spec_find_limit, CompiledRateLimit, CompiledRateLimitConfig};
use crate::error::RateLimitError;
use crate::keys::entry_views;

verus! {

/// Response for a rate limit check: the aggregate code and one status per
/// request descriptor, in request order.
#[derive(Debug)]
pub struct RateLimitResponse {
    pub overall_code: ResponseCode,
    pub statuses: Vec<DescriptorStatus>,
}

/// The first installed configuration for `domain`, if any.
pub open spec fn spec_find_config(s: Seq<CompiledRateLimitConfig>, domain: Seq<char>) -> Option<
    CompiledRateLimitConfig,
>
    decreases s.len(),
{
    if s.len() == 0 {
        None
    } else if s[0].domain_view() == domain {
        Some(s[0])
    } else {
        spec_find_config(s.subrange(1, s.len() as int), domain)
    }
}

/// No two installed configurations share a domain.
pub open spec fn domains_distinct(s: Seq<CompiledRateLimitConfig>) -> bool {
    forall|i: int, j: int|
        0 <= i < j < s.len() ==> (#[trigger] s[i]).domain_view() != (#[trigger] s[j]).domain_view()
}

/// Replacing the first configuration of a domain leaves every other
/// domain's lookup unchanged and makes that domain's lookup find the
/// replacement.
proof fn lemma_find_config_update(s: Seq<CompiledRateLimitConfig>, j: int, c: CompiledRateLimitConfig)
    requires
        0 <= j < s.len(),
        s[j].domain_view() == c.domain_view(),
        forall|k: int| 0 <= k < j ==> (#[trigger] s[k]).domain_view() != c.domain_view(),
    ensures
        spec_find_config(s.update(j, c), c.domain_view()) == Some(c),
        forall|d2: Seq<char>|
            d2 != c.domain_view() ==> spec_find_config(s.update(j, c), d2) == spec_find_config(
                s,
                d2,
            ),
    decreases s.len(),
{
    let t = s.update(j, c);
    let tail = s.subrange(1, s.len() as int);
    assert(t.len() == s.len());
    if j == 0 {
        assert(t[0] == c);
        assert(t.subrange(1, t.len() as int) =~= tail);
        assert forall|d2: Seq<char>| d2 != c.domain_view() implies spec_find_config(t, d2)
            == spec_find_config(s, d2) by {
            assert(s[0].domain_view() == c.domain_view());
            assert(spec_find_config(t, d2) == spec_find_config(tail, d2));
            assert(spec_find_config(s, d2) == spec_find_config(tail, d2));
        }
    } else {
        assert(t[0] == s[0]);
        assert(s[0].domain_view() != c.domain_view());
        assert(t.subrange(1, t.len() as int) =~= tail.update(j - 1, c));
        lemma_find_config_update(tail, j - 1, c);
        assert(spec_find_config(t, c.domain_view()) == spec_find_config(
            tail.update(j - 1, c),
            c.domain_view(),
        ));
        assert forall|d2: Seq<char>| d2 != c.domain_view() implies spec_find_config(t, d2)
            == spec_find_config(s, d2) by {
            if s[0].domain_view() == d2 {
                assert(spec_find_config(t, d2) == Some(s[0]));
                assert(spec_find_config(s, d2) == Some(s[0]));
            } else {
                assert(spec_find_config(t, d2) == spec_find_config(tail.update(j - 1, c), d2));
                assert(spec_find_config(tail.update(j - 1, c), d2) == spec_find_config(tail, d2));
                assert(spec_find_config(s, d2) == spec_find_config(tail, d2));
            }
        }
    }
}

/// Appending a configuration for a fresh domain makes its lookup find it
/// and leaves every other domain's lookup unchanged.
proof fn lemma_find_config_push(s: Seq<CompiledRateLimitConfig>, c: CompiledRateLimitConfig)
    requires
        forall|k: int| 0 <= k < s.len() ==> (#[trigger] s[k]).domain_view() != c.domain_view(),
    ensures
        spec_find_config(s.push(c), c.domain_view()) == Some(c),
        forall|d2: Seq<char>|
            d2 != c.domain_view() ==> spec_find_config(s.push(c), d2) == spec_find_config(s, d2),
    decreases s.len(),
{
    let t = s.push(c);
    let tail = s.subrange(1, s.len() as int);
    if s.len() == 0 {
        assert(t[0] == c);
        assert(t.subrange(1, t.len() as int) =~= Seq::<CompiledRateLimitConfig>::empty());
        assert forall|d2: Seq<char>| d2 != c.domain_view() implies spec_find_config(t, d2)
            == spec_find_config(s, d2) by {
            assert(spec_find_config(t, d2) == spec_find_config(
                Seq::<CompiledRateLimitConfig>::empty(),
                d2,
            ));
        }
    } else {
        assert(t[0] == s[0]);
        assert(t.subrange(1, t.len() as int) =~= tail.push(c));
        lemma_find_config_push(tail, c);
        assert(s[0].domain_view() != c.domain_view());
        assert(spec_find_config(t, c.domain_view()) == spec_find_config(
            tail.push(c),
            c.domain_view(),
        ));
        assert forall|d2: Seq<char>| d2 != c.domain_view() implies spec_find_config(t, d2)
            == spec_find_config(s, d2) by {
            if s[0].domain_view() == d2 {
                assert(spec_find_config(t, d2) == Some(s[0]));
                assert(spec_find_config(s, d2) == Some(s[0]));
            } else {
                assert(spec_find_config(t, d2) == spec_find_config(tail.push(c), d2));
                assert(spec_find_config(tail.push(c), d2) == spec_find_config(tail, d2));
                assert(spec_find_config(s, d2) == spec_find_config(tail, d2));
            }
        }
    }
}

/// Removing the only configuration of a domain empties its lookup and
/// leaves every other domain's lookup unchanged.
proof fn lemma_find_config_remove(s: Seq<CompiledRateLimitConfig>, j: int)
    requires
        0 <= j < s.len(),
        domains_distinct(s),
        forall|k: int| 0 <= k < j ==> (#[trigger] s[k]).domain_view() != s[j].domain_view(),
    ensures
        spec_find_config(s.remove(j), s[j].domain_view()) is None,
        forall|d2: Seq<char>|
            d2 != s[j].domain_view() ==> spec_find_config(s.remove(j), d2) == spec_find_config(
                s,
                d2,
            ),
    decreases s.len(),
{
    let t = s.remove(j);
    let d = s[j].domain_view();
    if j == 0 {
        assert(t =~= s.subrange(1, s.len() as int));
        assert forall|k: int| 0 <= k < t.len() implies (#[trigger] t[k]).domain_view() != d by {
            assert(t[k] == s[k + 1]);
        }
        lemma_find_config_absent(t, d);
        assert forall|d2: Seq<char>| d2 != d implies spec_find_config(t, d2) == spec_find_config(
            s,
            d2,
        ) by {
            assert(spec_find_config(s, d2) == spec_find_config(s.subrange(1, s.len() as int), d2));
        }
    } else {
        assert(t[0] == s[0]);
        assert(t.subrange(1, t.len() as int) =~= s.subrange(1, s.len() as int).remove(j - 1));
        let tail = s.subrange(1, s.len() as int);
        assert(tail[j - 1] == s[j]);
        assert forall|i2: int, j2: int| 0 <= i2 < j2 < tail.len() implies (
        #[trigger] tail[i2]).domain_view() != (#[trigger] tail[j2]).domain_view() by {
            assert(tail[i2] == s[i2 + 1]);
            assert(tail[j2] == s[j2 + 1]);
        }
        assert forall|k: int| 0 <= k < j - 1 implies (#[trigger] tail[k]).domain_view()
            != tail[j - 1].domain_view() by {
            assert(tail[k] == s[k + 1]);
        }
        lemma_find_config_remove(tail, j - 1);
        assert(s[0].domain_view() != d);
        assert(spec_find_config(t, d) == spec_find_config(tail.remove(j - 1), d));
        assert forall|d2: Seq<char>| d2 != d implies spec_find_config(t, d2) == spec_find_config(
            s,
            d2,
        ) by {
            if s[0].domain_view() == d2 {
                assert(spec_find_config(t, d2) == Some(s[0]));
                assert(spec_find_config(s, d2) == Some(s[0]));
            } else {
                assert(spec_find_config(t, d2) == spec_find_config(tail.remove(j - 1), d2));
                assert(spec_find_config(tail.remove(j - 1), d2) == spec_find_config(tail, d2));
                assert(spec_find_config(s, d2) == spec_find_config(tail, d2));
            }
        }
    }
}

/// A domain held by no configuration is not found.
proof fn lemma_find_config_absent(s: Seq<CompiledRateLimitConfig>, d: Seq<char>)
    requires
        forall|k: int| 0 <= k < s.len() ==> (#[trigger] s[k]).domain_view() != d,
    ensures
        spec_find_config(s, d) is None,
    decreases s.len(),
{
    if s.len() > 0 {
        let tail = s.subrange(1, s.len() as int);
        assert forall|k: int| 0 <= k < tail.len() implies (#[trigger] tail[k]).domain_view()
            != d by {
            assert(tail[k] == s[k + 1]);
        }
        lemma_find_config_absent(tail, d);
    }
}

/// The aggregate code is over limit exactly when some status is.
pub open spec fn spec_overall_ok(resp: RateLimitResponse) -> bool {
    (resp.overall_code == ResponseCode::OverLimit) <==> (exists|i: int|
        0 <= i < resp.statuses@.len() && (#[trigger] resp.statuses@[i]).code
            == ResponseCode::OverLimit)
}

/// The limit resolved for one request descriptor: the most specific
/// declared prefix of its entries.
pub open spec fn spec_resolved_limit(
    cfg: CompiledRateLimitConfig,
    desc: crate::cache::RateLimitDescriptor,
) -> Option<crate::config::LimitModel> {
    spec_find_limit(cfg.limits_view(), entry_views(desc.entries@), desc.entries@.len() as int)
}

/// Every status is valid for the limit the configuration resolves for its
/// descriptor, at one instant `now`.
pub open spec fn statuses_resolved_valid(
    cfg: CompiledRateLimitConfig,
    descs: Seq<crate::cache::RateLimitDescriptor>,
    statuses: Seq<DescriptorStatus>,
    now: u64,
) -> bool {
    forall|i: int|
        0 <= i < descs.len() ==> status_valid(
            spec_resolved_limit(cfg, descs[i]),
            (#[trigger] statuses[i]),
            now,
        )
}

/// A successful decision: one status per descriptor, each valid for the
/// limit the configuration resolves for it at one instant, and the
/// aggregate code reflecting the statuses.
pub open spec fn spec_decision_valid(
    cfg: CompiledRateLimitConfig,
    descs: Seq<crate::cache::RateLimitDescriptor>,
    resp: RateLimitResponse,
) -> bool {
    &&& resp.statuses@.len() == descs.len()
    &&& (exists|now: u64| statuses_resolved_valid(cfg, descs, resp.statuses@, now))
    &&& spec_overall_ok(resp)
}

/// Main rate limiter: per-domain compiled configurations and a decision
/// cache.
pub struct RateLimiter<K> {
    configurations: Vec<CompiledRateLimitConfig>,
    cache: K,
}

impl<K> RateLimiter<K> {
    /// The installed configurations, in installation order.
    pub closed spec fn spec_configs(self) -> Seq<CompiledRateLimitConfig> {
        self.configurations@
    }

    /// No two installed configurations share a domain.
    pub open spec fn wf(self) -> bool {
        domains_distinct(self.spec_configs())
    }

    /// Create a new rate limiter with the given cache implementation.
    pub fn new(cache: K) -> (r: Self)
        ensures
            r.wf(),
            r.spec_configs() == Seq::<CompiledRateLimitConfig>::empty(),
    {
        RateLimiter { configurations: Vec::new(), cache }
    }

    /// Find the installed configuration for a domain.
    fn find_in<'a>(configs: &'a Vec<CompiledRateLimitConfig>, domain: &String) -> (r: Option<
        &'a CompiledRateLimitConfig,
    >)
        ensures
            (match r {
                Some(c) => spec_find_config(configs@, domain@) == Some(*c),
                None => spec_find_config(configs@, domain@) is None,
            }),
    {
        let n = configs.len();
        proof {
            assert(configs@.skip(0) =~= configs@);
        }
        for j in 0..n
            invariant
                n == configs@.len(),
                spec_find_config(configs@, domain@) == spec_find_config(
                    configs@.skip(j as int),
                    domain@,
                ),
        {
            proof {
                assert(configs@.skip(j as int)[0] == configs@[j as int]);
                assert(configs@.skip(j as int).subrange(
                    1,
                    configs@.skip(j as int).len() as int,
                ) =~= configs@.skip(j + 1));
            }
            if configs[j].domain_matches(domain) {
                return Some(&configs[j]);
            }
        }
        None
    }

    /// Add a configuration for a domain, replacing any configuration the
    /// domain already has; every other domain's configuration is untouched.
    pub fn add_config(&mut self, config: CompiledRateLimitConfig)
        requires
            old(self).wf(),
        ensures
            final(self).wf(),
            spec_find_config(final(self).spec_configs(), config.domain_view()) == Some(config),
            forall|d2: Seq<char>|
                d2 != config.domain_view() ==> spec_find_config(final(self).spec_configs(), d2)
                    == spec_find_config(old(self).spec_configs(), d2),
    {
        let n = self.configurations.len();
        let ghost s = self.configurations@;
        for j in 0..n
            invariant
                n == self.configurations@.len(),
                s == self.configurations@,
                old(self).wf(),
                self.configurations@ == old(self).spec_configs(),
                forall|k: int|
                    0 <= k < j ==> (#[trigger] s[k]).domain_view() != config.domain_view(),
        {
            let matches_domain = {
                let d = config.domain().to_owned();
                self.configurations[j].domain_matches(&d)
            };
            if matches_domain {
                proof {
                    lemma_find_config_update(s, j as int, config);
                }
                self.configurations[j] = config;
                proof {
                    assert(self.spec_configs() == s.update(j as int, config));
                    assert forall|i2: int, j2: int|
                        0 <= i2 < j2 < self.spec_configs().len() implies (
                    #[trigger] self.spec_configs()[i2]).domain_view() != (
                    #[trigger] self.spec_configs()[j2]).domain_view() by {
                        assert(s[j as int].domain_view() == config.domain_view());
                    }
                }
                return ;
            }
        }
        proof {
            lemma_find_config_push(s, config);
        }
        self.configurations.push(config);
        proof {
            assert forall|i2: int, j2: int|
                0 <= i2 < j2 < self.spec_configs().len() implies (
            #[trigger] self.spec_configs()[i2]).domain_view() != (
            #[trigger] self.spec_configs()[j2]).domain_view() by {
                if j2 < s.len() {
                } else {
                    assert(self.spec_configs()[i2] == s[i2]);
                }
            }
        }
    }

    /// Remove the configuration for a domain, returning it if one was
    /// installed; every other domain's configuration is untouched.
    pub fn remove_config(&mut self, domain: &str) -> (r: Option<CompiledRateLimitConfig>)
        requires
            old(self).wf(),
        ensures
            final(self).wf(),
            spec_find_config(final(self).spec_configs(), domain@) is None,
            forall|d2: Seq<char>|
                d2 != domain@ ==> spec_find_config(final(self).spec_configs(), d2)
                    == spec_find_config(old(self).spec_configs(), d2),
            (match r {
                Some(c) => spec_find_config(old(self).spec_configs(), domain@) == Some(c),
                None => spec_find_config(old(self).spec_configs(), domain@) is None,
            }),
    {
        let d = domain.to_owned();
        let n = self.configurations.len();
        let ghost s = self.configurations@;
        for j in 0..n
            invariant
                n == self.configurations@.len(),
                s == self.configurations@,
                old(self).wf(),
                self.configurations@ == old(self).spec_configs(),
                forall|k: int| 0 <= k < j ==> (#[trigger] s[k]).domain_view() != d@,
                d@ == domain@,
        {
            if self.configurations[j].domain_matches(&d) {
                proof {
                    assert(spec_find_config(s, domain@) == spec_find_config(
                        s.skip(j as int),
                        domain@,
                    )) by {
                        lemma_find_config_skip_to(s, domain@, j as int);
                    }
                    assert(s.skip(j as int)[0] == s[j as int]);
                    lemma_find_config_remove(s, j as int);
                }
                let removed = self.configurations.remove(j);
                proof {
                    assert(self.spec_configs() == s.remove(j as int));
                    assert forall|i2: int, j2: int|
                        0 <= i2 < j2 < s.remove(j as int).len() implies (#[trigger] s.remove(
                        j as int,
                    )[i2]).domain_view() != (#[trigger] s.remove(j as int)[j2]).domain_view() by {
                        if i2 < j && j2 < j {
                        } else if i2 < j {
                            assert(s.remove(j as int)[j2] == s[j2 + 1]);
                        } else {
                            assert(s.remove(j as int)[i2] == s[i2 + 1]);
                            assert(s.remove(j as int)[j2] == s[j2 + 1]);
                        }
                    }
                }
                return Some(removed);
            }
        }
        proof {
            lemma_find_config_absent(s, domain@);
        }
        None
    }

    /// Get the configuration for a domain.
    pub fn get_config(&self, domain: &str) -> (r: Option<&CompiledRateLimitConfig>)
        ensures
            (match r {
                Some(c) => spec_find_config(self.spec_configs(), domain@) == Some(*c),
                None => spec_find_config(self.spec_configs(), domain@) is None,
            }),
    {
        let d = domain.to_owned();
        Self::find_in(&self.configurations, &d)
    }
}

/// Skipping past positions that do not hold the domain leaves the lookup
/// unchanged.
proof fn lemma_find_config_skip_to(s: Seq<CompiledRateLimitConfig>, d: Seq<char>, j: int)
    requires
        0 <= j <= s.len(),
        forall|k: int| 0 <= k < j ==> (#[trigger] s[k]).domain_view() != d,
    ensures
        spec_find_config(s, d) == spec_find_config(s.skip(j), d),
    decreases j,
{
    if j > 0 {
        let tail = s.subrange(1, s.len() as int);
        assert forall|k: int| 0 <= k < j - 1 implies (#[trigger] tail[k]).domain_view() != d by {
            assert(tail[k] == s[k + 1]);
        }
        lemma_find_config_skip_to(tail, d, j - 1);
        assert(tail.skip(j - 1) =~= s.skip(j));
    } else {
        assert(s.skip(0) =~= s);
    }
}

impl<K: RateLimitCache> RateLimiter<K> {
    /// The batches the decision cache has handed to its counter stores.
    pub closed spec fn spec_cache_submitted(self) -> Seq<(bool, Seq<(Seq<char>, u64, u64)>)> {
        self.cache.submitted()
    }

    /// The near-cache entries the decision cache has recorded.
    pub closed spec fn spec_nc_recorded(self) -> Set<(Seq<char>, u64)> {
        self.cache.nc_recorded()
    }

    /// Check whether rate limiting applies to the request and decide every
    /// descriptor: validation first, then resolution against the domain's
    /// configuration, then counting, then aggregation.
    pub fn should_rate_limit(&mut self, request: &RateLimitRequest) -> (r: Result<
        RateLimitResponse,
        RateLimitError,
    >)
        requires
            old(self).wf(),
        ensures
            final(self).wf(),
            final(self).spec_configs() == old(self).spec_configs(),
            (r matches Err(RateLimitError::Service(_)) <==> (request.domain@.len() == 0
                || request.descriptors@.len() == 0)),
            (request.domain@.len() == 0 ==> (r matches Err(RateLimitError::Service(m)) && m@
                == "Rate limit domain must not be empty"@)),
            (request.domain@.len() > 0 && request.descriptors@.len() == 0 ==> (r matches Err(
                RateLimitError::Service(m),
            ) && m@ == "Rate limit descriptor list must not be empty"@)),
            (r matches Err(RateLimitError::DomainNotFound(d)) ==> d@ == request.domain@),
            ((r matches Err(RateLimitError::Service(_)) || r matches Err(
                RateLimitError::DomainNotFound(_),
            )) ==> final(self).spec_cache_submitted() == old(self).spec_cache_submitted()
                && final(self).spec_nc_recorded() == old(self).spec_nc_recorded()),
            (r matches Err(RateLimitError::DomainNotFound(_)) <==> (request.domain@.len() > 0
                && request.descriptors@.len() > 0 && spec_find_config(
                old(self).spec_configs(),
                request.domain@,
            ) is None)),
            (r matches Err(e) ==> (e matches RateLimitError::Service(_) || e
                matches RateLimitError::DomainNotFound(_) || e matches RateLimitError::Store(_))),
            (r matches Ok(resp) ==> spec_find_config(old(self).spec_configs(), request.domain@)
                matches Some(cfg) && spec_decision_valid(cfg, request.descriptors@, resp)),
            ((request.domain@.len() > 0 && request.descriptors@.len() > 0 && (match spec_find_config(
                old(self).spec_configs(),
                request.domain@,
            ) {
                Some(cfg) => forall|i: int|
                    0 <= i < request.descriptors@.len() ==> no_count_needed(
                        spec_resolved_limit(cfg, #[trigger] request.descriptors@[i]),
                    ),
                None => false,
            })) ==> r is Ok),
    {
        if request.domain.as_str().is_empty() {
            return Err(RateLimitError::Service("Rate limit domain must not be empty".to_owned()));
        }
        if request.descriptors.is_empty() {
            return Err(
                RateLimitError::Service("Rate limit descriptor list must not be empty".to_owned()),
            );
        }

        let config = match Self::find_in(&self.configurations, &request.domain) {
            Some(c) => c,
            None => {
                return Err(RateLimitError::DomainNotFound(request.domain.clone()));
            },
        };
        let ghost cfg = *config;

        // Resolve each descriptor to at most one limit.
        let n = request.descriptors.len();
        let mut limits: Vec<Option<&CompiledRateLimit>> = Vec::new();
        for i in 0..n
            invariant
                n == request.descriptors@.len(),
                limits@.len() == i,
                *config == cfg,
                spec_find_config(old(self).spec_configs(), request.domain@) == Some(cfg),
                forall|k: int|
                    0 <= k < i ==> limit_model_at(limits@, k) == spec_resolved_limit(
                        cfg,
                        #[trigger] request.descriptors@[k],
                    ),
        {
            let pairs = crate::keys::entry_refs(&request.descriptors[i].entries);
            let found = config.find_limit(pairs.as_slice());
            proof {
                assert(crate::keys::str_entry_views(pairs@).len() == crate::keys::entry_views(
                    request.descriptors@[i as int].entries@,
                ).len());
                assert(pairs@.len() == request.descriptors@[i as int].entries@.len());
            }
            limits.push(found);
            proof {
                assert(limit_model_at(limits@, i as int) == spec_resolved_limit(
                    cfg,
                    request.descriptors@[i as int],
                ));
            }
        }

        let ghost cache_pre = self.cache;
        let statuses = match self.cache.do_limit(request, &limits) {
            Ok(statuses) => statuses,
            Err(e) => {
                proof {
                    assert(request.descriptors@.len() > 0);
                    assert forall|i: int|
                        0 <= i < request.descriptors@.len() implies #[trigger] limit_model_at(
                        limits@,
                        i,
                    ) == spec_resolved_limit(cfg, request.descriptors@[i]) by {}
                }
                return Err(e);
            },
        };

        // Determine the overall response code.
        let mut overall_code = ResponseCode::Okay;
        let m = statuses.len();
        for i in 0..m
            invariant
                m == statuses@.len(),
                (overall_code == ResponseCode::OverLimit) <==> (exists|k: int|
                    0 <= k < i && (#[trigger] statuses@[k]).code == ResponseCode::OverLimit),
        {
            if matches!(statuses[i].code, ResponseCode::OverLimit) {
                overall_code = ResponseCode::OverLimit;
            }
        }

        let ghost sts = statuses@;
        let resp = RateLimitResponse { overall_code, statuses };
        proof {
            let ds = request.descriptors@;
            assert(resp.statuses@ == sts);
            let now = choose|t: u64|
                crate::cache::decision_trace_valid(
                    limits@,
                    sts,
                    cache_pre.submitted(),
                    self.cache.submitted(),
                    cache_pre.nc_recorded(),
                    cache_pre.key_prefix(),
                    request.domain@,
                    request.descriptors@,
                    request.hits_addend,
                    t,
                );
            assert(crate::cache::decision_trace_valid(
                limits@,
                sts,
                cache_pre.submitted(),
                self.cache.submitted(),
                cache_pre.nc_recorded(),
                cache_pre.key_prefix(),
                request.domain@,
                request.descriptors@,
                request.hits_addend,
                now,
            ));
            assert(crate::cache::all_statuses_valid(limits@, sts, now));
            assert forall|i: int| 0 <= i < ds.len() implies status_valid(
                spec_resolved_limit(cfg, ds[i]),
                (#[trigger] resp.statuses@[i]),
                now,
            ) by {
                assert(status_valid(limit_model_at(limits@, i), resp.statuses@[i], now));
                assert(limit_model_at(limits@, i) == spec_resolved_limit(cfg, ds[i]));
            }
            assert(statuses_resolved_valid(cfg, ds, resp.statuses@, now));
            assert(exists|t: u64| statuses_resolved_valid(cfg, ds, resp.statuses@, t)) by {
                assert(statuses_resolved_valid(cfg, ds, resp.statuses@, now));
            }
        }
        Ok(resp)
    }

    /// Health check for the limiter.
    pub fn health_check(&mut self) -> (r: Result<(), RateLimitError>) {
        self.cache.health_check()
    }
}

/// The aggregate code is over limit exactly when some descriptor whose
/// resolved limit is not in shadow mode reports over limit: descriptors
/// without a limit and shadow-mode descriptors never contribute.
pub proof fn lemma_overall_over_limit_non_shadow(
    cfg: CompiledRateLimitConfig,
    descs: Seq<crate::cache::RateLimitDescriptor>,
    resp: RateLimitResponse,
)
    requires
        spec_decision_valid(cfg, descs, resp),
    ensures
        (resp.overall_code == ResponseCode::OverLimit) <==> (exists|i: int|
            0 <= i < descs.len() && (#[trigger] resp.statuses@[i]).code == ResponseCode::OverLimit
                && (match spec_resolved_limit(cfg, descs[i]) {
                    Some(l) => !l.shadow_mode,
                    None => false,
                })),
{
    let now = choose|t: u64| statuses_resolved_valid(cfg, descs, resp.statuses@, t);
    assert(statuses_resolved_valid(cfg, descs, resp.statuses@, now));
    if resp.overall_code == ResponseCode::OverLimit {
        let i = choose|i: int|
            0 <= i < resp.statuses@.len() && (#[trigger] resp.statuses@[i]).code
                == ResponseCode::OverLimit;
        assert(status_valid(spec_resolved_limit(cfg, descs[i]), resp.statuses@[i], now));
        match spec_resolved_limit(cfg, descs[i]) {
            None => {
                assert(resp.statuses@[i] == crate::cache::spec_status_no_limit());
            },
            Some(l) => {
                if l.shadow_mode {
                    crate::cache::lemma_shadow_status_ok(Some(l), resp.statuses@[i], now);
                }
            },
        }
        assert(0 <= i < descs.len() && resp.statuses@[i].code == ResponseCode::OverLimit && (
        match spec_resolved_limit(cfg, descs[i]) {
            Some(l) => !l.shadow_mode,
            None => false,
        }));
    }
}

} // verus!
