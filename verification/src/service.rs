//! The service layer: transport-shaped request and response types with
//! numeric codes, their conversions to and from the engine's types, and a
//! service wrapping a rate limiter.

use vstd::prelude::*;
use crate::cache::{
    no_count_needed, status_valid, DescriptorStatus, RateLimit, RateLimitCache,
    RateLimitDescriptor, RateLimitRequest, ResponseCode,
};
use crate::config::{spec_find_limit, CompiledRateLimitConfig, LimitModel};
use crate::error::RateLimitError;
use crate::limiter::{spec_find_config, RateLimiter, RateLimitResponse};
use crate::utils::Unit;

verus! {

/// A rate limit request as it arrives on the wire.
#[derive(Debug)]
pub struct GrpcRateLimitRequest {
    pub domain: String,
    pub descriptors: Vec<GrpcRateLimitDescriptor>,
    pub hits_addend: u32,
}

/// One descriptor of a wire request.
#[derive(Debug)]
pub struct GrpcRateLimitDescriptor {
    pub entries: Vec<GrpcRateLimitDescriptorEntry>,
}

/// One key/value entry of a wire descriptor.
#[derive(Debug)]
pub struct GrpcRateLimitDescriptorEntry {
    pub key: String,
    pub value: String,
}

/// A wire response: numeric overall code and per-descriptor statuses.
#[derive(Debug)]
pub struct GrpcRateLimitResponse {
    pub overall_code: i32,
    pub statuses: Vec<GrpcDescriptorStatus>,
}

/// One wire status: `1` for within limit, `2` for over limit.
#[derive(Debug, Clone, Copy, PartialEq, Eq, Structural)]
pub struct GrpcDescriptorStatus {
    pub code: i32,
    pub current_limit: Option<GrpcRateLimit>,
    pub limit_remaining: u32,
    pub duration_until_reset_secs: u64,
}

/// The limit reported in a wire status, its unit numbered one through four
/// from seconds to days.
#[derive(Debug, Clone, Copy, PartialEq, Eq, Structural)]
pub struct GrpcRateLimit {
    pub requests_per_unit: u32,
    pub unit: i32,
}

/// The numeric form of a response code: within limit is one, over limit is
/// two.
pub open spec fn spec_code_num(code: ResponseCode) -> i32 {
    match code {
        ResponseCode::Okay => 1,
        ResponseCode::OverLimit => 2,
    }
}

/// The numeric form of a unit: second, minute, hour, day are one to four.
pub open spec fn spec_unit_num(unit: Unit) -> i32 {
    match unit {
        Unit::Second => 1,
        Unit::Minute => 2,
        Unit::Hour => 3,
        Unit::Day => 4,
    }
}

/// The wire form of an engine status.
pub open spec fn spec_convert_status(s: DescriptorStatus) -> GrpcDescriptorStatus {
    GrpcDescriptorStatus {
        code: spec_code_num(s.code),
        current_limit: match s.current_limit {
            Some(l) => Some(
                GrpcRateLimit {
                    requests_per_unit: l.requests_per_unit,
                    unit: spec_unit_num(l.unit),
                },
            ),
            None => None,
        },
        limit_remaining: s.limit_remaining,
        duration_until_reset_secs: s.duration_until_reset_secs,
    }
}

/// A wire response converts an engine response: codes numbered, statuses
/// element-wise.
pub open spec fn grpc_response_matches(g: GrpcRateLimitResponse, resp: RateLimitResponse) -> bool {
    &&& g.overall_code == spec_code_num(resp.overall_code)
    &&& g.statuses@.len() == resp.statuses@.len()
    &&& forall|i: int|
        0 <= i < g.statuses@.len() ==> #[trigger] g.statuses@[i] == spec_convert_status(
            resp.statuses@[i],
        )
}

/// The `(key, value)` views of one wire descriptor's entries.
pub open spec fn grpc_entry_views(gd: GrpcRateLimitDescriptor) -> Seq<(Seq<char>, Seq<char>)> {
    gd.entries@.map_values(|e: GrpcRateLimitDescriptorEntry| (e.key@, e.value@))
}

/// The limit the configuration resolves for one wire descriptor.
pub open spec fn grpc_resolved_limit(
    cfg: CompiledRateLimitConfig,
    gd: GrpcRateLimitDescriptor,
) -> Option<LimitModel> {
    spec_find_limit(cfg.limits_view(), grpc_entry_views(gd), gd.entries@.len() as int)
}

/// Every wire status converts an engine status that is valid for the limit
/// resolved for its descriptor, at one instant `now`.
pub open spec fn grpc_statuses_valid(
    cfg: CompiledRateLimitConfig,
    gds: Seq<GrpcRateLimitDescriptor>,
    sts: Seq<GrpcDescriptorStatus>,
    now: u64,
) -> bool {
    forall|i: int|
        0 <= i < gds.len() ==> exists|s: DescriptorStatus|
            status_valid(grpc_resolved_limit(cfg, gds[i]), s, now) && #[trigger] sts[i]
                == spec_convert_status(s)
}

/// A successful wire decision: one status per descriptor, each converting a
/// valid engine status, the overall code within or over limit, and over
/// limit exactly when some status is.
pub open spec fn grpc_decision_valid(
    cfg: CompiledRateLimitConfig,
    gds: Seq<GrpcRateLimitDescriptor>,
    g: GrpcRateLimitResponse,
) -> bool {
    &&& g.statuses@.len() == gds.len()
    &&& (exists|now: u64| grpc_statuses_valid(cfg, gds, g.statuses@, now))
    &&& (g.overall_code == 1 || g.overall_code == 2)
    &&& ((g.overall_code == 2) <==> (exists|i: int|
        0 <= i < g.statuses@.len() && (#[trigger] g.statuses@[i]).code == 2))
}

/// The rate limit service: a limiter behind the wire-shaped interface.
pub struct RateLimitService<K> {
    limiter: RateLimiter<K>,
}

impl<K> RateLimitService<K> {
    /// The installed configurations.
    pub closed spec fn spec_configs(self) -> Seq<CompiledRateLimitConfig> {
        self.limiter.spec_configs()
    }

    /// No two installed configurations share a domain.
    pub closed spec fn wf(self) -> bool {
        self.limiter.wf()
    }

    /// Create a new rate limit service.
    pub fn new(limiter: RateLimiter<K>) -> (r: Self)
        requires
            limiter.wf(),
        ensures
            r.wf(),
            r.spec_configs() == limiter.spec_configs(),
    {
        RateLimitService { limiter }
    }

    /// Add a configuration to the service, replacing the domain's previous
    /// configuration if it had one.
    pub fn add_config(&mut self, config: CompiledRateLimitConfig) -> (r: Result<
        (),
        RateLimitError,
    >)
        requires
            old(self).wf(),
        ensures
            final(self).wf(),
            r is Ok,
            spec_find_config(final(self).spec_configs(), config.domain_view()) == Some(config),
            forall|d2: Seq<char>|
                d2 != config.domain_view() ==> spec_find_config(final(self).spec_configs(), d2)
                    == spec_find_config(old(self).spec_configs(), d2),
    {
        self.limiter.add_config(config);
        Ok(())
    }

    /// Remove the configuration for a domain from the service.
    pub fn remove_config(&mut self, domain: &str) -> (r: Result<(), RateLimitError>)
        requires
            old(self).wf(),
        ensures
            final(self).wf(),
            r is Ok,
            spec_find_config(final(self).spec_configs(), domain@) is None,
            forall|d2: Seq<char>|
                d2 != domain@ ==> spec_find_config(final(self).spec_configs(), d2)
                    == spec_find_config(old(self).spec_configs(), d2),
    {
        self.limiter.remove_config(domain);
        Ok(())
    }

    /// Convert an engine response code to its wire number.
    fn convert_response_code(code: ResponseCode) -> (r: i32)
        ensures
            r == spec_code_num(code),
    {
        match code {
            ResponseCode::Okay => 1,
            ResponseCode::OverLimit => 2,
        }
    }

    /// Convert an engine response to a wire response.
    fn convert_response(response: RateLimitResponse) -> (r: GrpcRateLimitResponse)
        ensures
            grpc_response_matches(r, response),
    {
        let overall_code = Self::convert_response_code(response.overall_code);
        let m = response.statuses.len();
        let mut statuses: Vec<GrpcDescriptorStatus> = Vec::new();
        for i in 0..m
            invariant
                m == response.statuses@.len(),
                statuses@.len() == i,
                forall|k: int|
                    0 <= k < i ==> #[trigger] statuses@[k] == spec_convert_status(
                        response.statuses@[k],
                    ),
        {
            let s = response.statuses[i];
            let current_limit = match s.current_limit {
                Some(l) => Some(
                    GrpcRateLimit {
                        requests_per_unit: l.requests_per_unit,
                        unit: match l.unit {
                            Unit::Second => 1,
                            Unit::Minute => 2,
                            Unit::Hour => 3,
                            Unit::Day => 4,
                        },
                    },
                ),
                None => None,
            };
            statuses.push(
                GrpcDescriptorStatus {
                    code: Self::convert_response_code(s.code),
                    current_limit,
                    limit_remaining: s.limit_remaining,
                    duration_until_reset_secs: s.duration_until_reset_secs,
                },
            );
        }
        GrpcRateLimitResponse { overall_code, statuses }
    }
}

impl<K: RateLimitCache> RateLimitService<K> {
    /// The batches the decision cache has handed to its counter stores.
    pub closed spec fn spec_cache_submitted(self) -> Seq<(bool, Seq<(Seq<char>, u64, u64)>)> {
        self.limiter.spec_cache_submitted()
    }

    /// The near-cache entries the decision cache has recorded.
    pub closed spec fn spec_nc_recorded(self) -> Set<(Seq<char>, u64)> {
        self.limiter.spec_nc_recorded()
    }

    /// Health check for the service.
    pub fn health_check(&mut self) -> (r: Result<(), RateLimitError>) {
        self.limiter.health_check()
    }

    /// Process a rate limit request arriving in wire form: convert it,
    /// decide it, and convert the decision back.
    pub fn should_rate_limit_direct(&mut self, request: GrpcRateLimitRequest) -> (r: Result<
        GrpcRateLimitResponse,
        RateLimitError,
    >)
        requires
            old(self).wf(),
        ensures
            final(self).wf(),
            final(self).spec_configs() == old(self).spec_configs(),
            (r matches Err(RateLimitError::Service(_)) <==> (request.domain@.len() == 0
                || request.descriptors@.len() == 0)),
            (r matches Err(RateLimitError::DomainNotFound(_)) <==> (request.domain@.len() > 0
                && request.descriptors@.len() > 0 && spec_find_config(
                old(self).spec_configs(),
                request.domain@,
            ) is None)),
            (r matches Err(e) ==> (e matches RateLimitError::Service(_) || e
                matches RateLimitError::DomainNotFound(_) || e matches RateLimitError::Store(_))),
            (request.domain@.len() == 0 ==> (r matches Err(RateLimitError::Service(m)) && m@
                == "Rate limit domain must not be empty"@)),
            (request.domain@.len() > 0 && request.descriptors@.len() == 0 ==> (r matches Err(
                RateLimitError::Service(m),
            ) && m@ == "Rate limit descriptor list must not be empty"@)),
            (r matches Err(RateLimitError::DomainNotFound(d)) ==> d@ == request.domain@),
            ((r matches Err(RateLimitError::Service(_)) || r matches Err(
                RateLimitError::DomainNotFound(_),
            )) ==> final(self).spec_cache_submitted() == old(self).spec_cache_submitted()
                && final(self).spec_nc_recorded() == old(self).spec_nc_recorded()),
            (r matches Ok(g) ==> spec_find_config(old(self).spec_configs(), request.domain@)
                matches Some(cfg) && grpc_decision_valid(cfg, request.descriptors@, g)),
            ((request.domain@.len() > 0 && request.descriptors@.len() > 0 && (
            match spec_find_config(old(self).spec_configs(), request.domain@) {
                Some(cfg) => forall|i: int|
                    0 <= i < request.descriptors@.len() ==> no_count_needed(
                        grpc_resolved_limit(cfg, #[trigger] request.descriptors@[i]),
                    ),
                None => false,
            })) ==> r is Ok),
    {
        // Convert the wire request to the engine's request type.
        let n = request.descriptors.len();
        let mut descriptors: Vec<RateLimitDescriptor> = Vec::new();
        for i in 0..n
            invariant
                n == request.descriptors@.len(),
                descriptors@.len() == i,
                forall|k: int|
                    0 <= k < i ==> crate::keys::entry_views(
                        (#[trigger] descriptors@[k]).entries@,
                    ) == grpc_entry_views(request.descriptors@[k]) && descriptors@[k].entries@.len()
                        == request.descriptors@[k].entries@.len(),
        {
            let gd = &request.descriptors[i];
            let m = gd.entries.len();
            let mut entries: Vec<(String, String)> = Vec::new();
            for j in 0..m
                invariant
                    m == gd.entries@.len(),
                    entries@.len() == j,
                    forall|k: int|
                        0 <= k < j ==> (#[trigger] entries@[k]).0@ == gd.entries@[k].key@
                            && entries@[k].1@ == gd.entries@[k].value@,
            {
                entries.push((gd.entries[j].key.clone(), gd.entries[j].value.clone()));
            }
            descriptors.push(RateLimitDescriptor { entries });
            proof {
                let dk = descriptors@[i as int];
                let ev = crate::keys::entry_views(dk.entries@);
                let gv = grpc_entry_views(request.descriptors@[i as int]);
                assert(ev.len() == gv.len());
                assert forall|k: int| 0 <= k < ev.len() implies ev[k] == gv[k] by {
                    assert(ev[k] == (dk.entries@[k].0@, dk.entries@[k].1@));
                    assert(gv[k] == (request.descriptors@[i as int].entries@[k].key@,
                    request.descriptors@[i as int].entries@[k].value@));
                }
                assert(ev =~= gv);
            }
        }
        let internal_request = RateLimitRequest {
            domain: request.domain.clone(),
            descriptors,
            hits_addend: request.hits_addend,
        };
        let ghost ids = internal_request.descriptors@;
        let ghost gds = request.descriptors@;
        proof {
            match spec_find_config(old(self).spec_configs(), request.domain@) {
                Some(cfg0) => {
                    assert forall|i: int|
                        0 <= i < ids.len() implies #[trigger] crate::limiter::spec_resolved_limit(
                        cfg0,
                        ids[i],
                    ) == grpc_resolved_limit(cfg0, gds[i]) by {
                        assert(crate::keys::entry_views(ids[i].entries@) == grpc_entry_views(
                            gds[i],
                        ));
                        assert(ids[i].entries@.len() == gds[i].entries@.len());
                    }
                },
                None => {},
            }
        }

        let response = match self.limiter.should_rate_limit(&internal_request) {
            Ok(response) => response,
            Err(e) => {
                return Err(e);
            },
        };

        let ghost cfg = spec_find_config(old(self).spec_configs(), request.domain@)->0;
        let ghost resp_statuses = response.statuses@;
        let ghost overall = response.overall_code;
        proof {
            let now = choose|t: u64|
                crate::limiter::statuses_resolved_valid(cfg, ids, resp_statuses, t);
            assert(crate::limiter::statuses_resolved_valid(cfg, ids, resp_statuses, now));
        }
        let grpc_response = Self::convert_response(response);
        proof {
            let g = grpc_response;
            let now = choose|t: u64|
                crate::limiter::statuses_resolved_valid(cfg, ids, resp_statuses, t);
            assert forall|i: int| 0 <= i < gds.len() implies exists|s: DescriptorStatus|
                status_valid(grpc_resolved_limit(cfg, gds[i]), s, now) && #[trigger] g.statuses@[i]
                    == spec_convert_status(s) by {
                let s = resp_statuses[i];
                assert(status_valid(
                    crate::limiter::spec_resolved_limit(cfg, ids[i]),
                    s,
                    now,
                ));
                assert(crate::limiter::spec_resolved_limit(cfg, ids[i]) == grpc_resolved_limit(
                    cfg,
                    gds[i],
                ));
                assert(g.statuses@[i] == spec_convert_status(s));
            }
            assert(grpc_statuses_valid(cfg, gds, g.statuses@, now));
            assert(exists|t: u64| grpc_statuses_valid(cfg, gds, g.statuses@, t)) by {
                assert(grpc_statuses_valid(cfg, gds, g.statuses@, now));
            }
            assert((g.overall_code == 2) <==> (exists|i: int|
                0 <= i < g.statuses@.len() && (#[trigger] g.statuses@[i]).code == 2)) by {
                if g.overall_code == 2 {
                    assert(overall == ResponseCode::OverLimit);
                    let i = choose|i: int|
                        0 <= i < resp_statuses.len() && (#[trigger] resp_statuses[i]).code
                            == ResponseCode::OverLimit;
                    assert(g.statuses@[i] == spec_convert_status(resp_statuses[i]));
                    assert(g.statuses@[i].code == 2);
                }
                if exists|i: int|
                    0 <= i < g.statuses@.len() && (#[trigger] g.statuses@[i]).code == 2 {
                    let i = choose|i: int|
                        0 <= i < g.statuses@.len() && (#[trigger] g.statuses@[i]).code == 2;
                    assert(g.statuses@[i] == spec_convert_status(resp_statuses[i]));
                    assert(resp_statuses[i].code == ResponseCode::OverLimit);
                }
            }
        }
        Ok(grpc_response)
    }
}

} // verus!
