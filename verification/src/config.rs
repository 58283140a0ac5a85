//! Rate limit configuration: the declarative per-domain descriptor tree and
//! the compiled form it is flattened into, a map from descriptor path to
//! limit probed most-specific-prefix first.

use vstd::prelude::*;
use crate::error::RateLimitError;
use crate::keys::{join_colon, step_view, steps_of};
use crate::utils::Unit;

verus! {

/// Rate limit configuration for a domain.
#[derive(Debug)]
pub struct RateLimitConfig {
    pub domain: String,
    pub descriptors: Vec<RateLimitDescriptor>,
}

/// A node of the configuration descriptor tree. A node with `value == None`
/// is a wildcard that matches any value for its key. A node without a
/// `rate_limit` is structural only.
#[derive(Debug)]
pub struct RateLimitDescriptor {
    pub key: String,
    pub value: Option<String>,
    pub rate_limit: Option<RateLimit>,
    pub shadow_mode: Option<bool>,
    pub descriptors: Option<Vec<RateLimitDescriptor>>,
}

/// A declared rate limit: so many requests per window.
#[derive(Debug, Clone)]
pub struct RateLimit {
    pub requests_per_unit: u32,
    pub unit: RateLimitUnit,
    pub unlimited: Option<bool>,
    pub name: Option<String>,
}

/// Time units as they appear in configuration files.
#[derive(Debug, Clone, Copy, PartialEq, Eq, Structural)]
pub enum RateLimitUnit {
    Second,
    Minute,
    Hour,
    Day,
}

impl RateLimitUnit {
    /// The engine-side unit this configuration unit stands for.
    pub open spec fn as_unit(self) -> Unit {
        match self {
            RateLimitUnit::Second => Unit::Second,
            RateLimitUnit::Minute => Unit::Minute,
            RateLimitUnit::Hour => Unit::Hour,
            RateLimitUnit::Day => Unit::Day,
        }
    }

    /// Convert to the engine-side unit.
    pub fn to_unit(self) -> (r: Unit)
        ensures
            r == self.as_unit(),
    {
        match self {
            RateLimitUnit::Second => Unit::Second,
            RateLimitUnit::Minute => Unit::Minute,
            RateLimitUnit::Hour => Unit::Hour,
            RateLimitUnit::Day => Unit::Day,
        }
    }

    /// Convert from the engine-side unit.
    pub fn from_unit(unit: Unit) -> (r: Self)
        ensures
            r.as_unit() == unit,
    {
        match unit {
            Unit::Second => RateLimitUnit::Second,
            Unit::Minute => RateLimitUnit::Minute,
            Unit::Hour => RateLimitUnit::Hour,
            Unit::Day => RateLimitUnit::Day,
        }
    }
}

/// A compiled limit, ready for the decision engine.
#[derive(Debug, Clone)]
pub struct CompiledRateLimit {
    pub requests_per_unit: u32,
    pub unit: Unit,
    pub unlimited: bool,
    pub shadow_mode: bool,
    pub name: Option<String>,
}

/// The mathematical content of a compiled limit: its fields with strings
/// abstracted to their character sequences.
pub struct LimitModel {
    pub requests_per_unit: u32,
    pub unit: Unit,
    pub unlimited: bool,
    pub shadow_mode: bool,
    pub name: Option<Seq<char>>,
}

impl CompiledRateLimit {
    /// The mathematical content of this limit.
    pub open spec fn model(self) -> LimitModel {
        LimitModel {
            requests_per_unit: self.requests_per_unit,
            unit: self.unit,
            unlimited: self.unlimited,
            shadow_mode: self.shadow_mode,
            name: match self.name {
                Some(n) => Some(n@),
                None => None,
            },
        }
    }
}

/// The path step a configuration node contributes: `key_value` when a value
/// is declared (even an empty one), bare `key` for a wildcard.
pub open spec fn desc_step(d: RateLimitDescriptor) -> Seq<char> {
    match d.value {
        Some(v) => d.key@ + seq!['_'] + v@,
        None => d.key@,
    }
}

/// The limit a configuration node declares, compiled.
pub open spec fn declared_limit(d: RateLimitDescriptor, rl: RateLimit) -> LimitModel {
    LimitModel {
        requests_per_unit: rl.requests_per_unit,
        unit: rl.unit.as_unit(),
        unlimited: match rl.unlimited {
            Some(b) => b,
            None => false,
        },
        shadow_mode: match d.shadow_mode {
            Some(b) => b,
            None => false,
        },
        name: match rl.name {
            Some(n) => Some(n@),
            None => None,
        },
    }
}

/// All `(path, limit)` pairs a configuration node declares, in depth-first
/// declaration order, below the path prefix `prefix`.
pub open spec fn declared_of_desc(prefix: Seq<Seq<char>>, d: RateLimitDescriptor) -> Seq<
    (Seq<char>, LimitModel),
>
    decreases d, 1int, 0int,
{
    let parts = prefix.push(desc_step(d));
    let own = match d.rate_limit {
        Some(rl) => seq![(join_colon(parts), declared_limit(d, rl))],
        None => Seq::<(Seq<char>, LimitModel)>::empty(),
    };
    own + (match d.descriptors {
        Some(children) => declared_of_list(parts, children@),
        None => Seq::<(Seq<char>, LimitModel)>::empty(),
    })
}

/// All `(path, limit)` pairs a list of sibling nodes declares, in order.
pub open spec fn declared_of_list(prefix: Seq<Seq<char>>, ds: Seq<RateLimitDescriptor>) -> Seq<
    (Seq<char>, LimitModel),
>
    decreases ds, 0int, ds.len(),
{
    if ds.len() == 0 {
        Seq::<(Seq<char>, LimitModel)>::empty()
    } else {
        declared_of_desc(prefix, ds[0]) + declared_of_list(
            prefix,
            ds.subrange(1, ds.len() as int),
        )
    }
}

/// No two declared paths are equal.
pub open spec fn paths_distinct(decls: Seq<(Seq<char>, LimitModel)>) -> bool {
    forall|i: int, j: int|
        0 <= i < j < decls.len() ==> #[trigger] decls[i].0 != #[trigger] decls[j].0
}

/// Whether `path` occurs among the declared paths.
pub open spec fn has_path(decls: Seq<(Seq<char>, LimitModel)>, path: Seq<char>) -> bool {
    exists|i: int| 0 <= i < decls.len() && #[trigger] decls[i].0 == path
}

/// The `(path, limit)` pairs a stored limits vector stands for.
pub open spec fn limits_pairs(s: Seq<(String, CompiledRateLimit)>) -> Seq<(Seq<char>, LimitModel)> {
    s.map_values(|p: (String, CompiledRateLimit)| (p.0@, p.1.model()))
}

/// The views of the path parts accumulated during compilation.
pub open spec fn path_views(s: Seq<String>) -> Seq<Seq<char>> {
    s.map_values(|x: String| x@)
}

/// Appending a sibling appends its declarations.
pub proof fn lemma_declared_of_list_push(
    prefix: Seq<Seq<char>>,
    ds: Seq<RateLimitDescriptor>,
    d: RateLimitDescriptor,
)
    ensures
        declared_of_list(prefix, ds.push(d)) == declared_of_list(prefix, ds) + declared_of_desc(
            prefix,
            d,
        ),
    decreases ds.len(),
{
    let p = ds.push(d);
    if ds.len() == 0 {
        assert(p[0] == d);
        assert(p.subrange(1, p.len() as int) =~= Seq::<RateLimitDescriptor>::empty());
        assert(declared_of_list(prefix, Seq::<RateLimitDescriptor>::empty()) =~= Seq::<
            (Seq<char>, LimitModel),
        >::empty());
        assert(declared_of_list(prefix, p) == declared_of_desc(prefix, p[0]) + declared_of_list(
            prefix,
            p.subrange(1, p.len() as int),
        ));
        assert(declared_of_list(prefix, p) =~= declared_of_list(prefix, ds) + declared_of_desc(
            prefix,
            d,
        ));
    } else {
        let tail = ds.subrange(1, ds.len() as int);
        assert(p[0] == ds[0]);
        assert(p.subrange(1, p.len() as int) =~= tail.push(d));
        lemma_declared_of_list_push(prefix, tail, d);
        assert(declared_of_list(prefix, p) == declared_of_desc(prefix, p[0]) + declared_of_list(
            prefix,
            p.subrange(1, p.len() as int),
        ));
        assert(declared_of_list(prefix, ds) == declared_of_desc(prefix, ds[0]) + declared_of_list(
            prefix,
            tail,
        ));
        assert(declared_of_list(prefix, p) =~= declared_of_list(prefix, ds) + declared_of_desc(
            prefix,
            d,
        ));
    }
}

/// A list's declarations split at `k` into those of the first `k` siblings
/// and those of the rest.
pub proof fn lemma_declared_of_list_split(prefix: Seq<Seq<char>>, ds: Seq<RateLimitDescriptor>, k: int)
    requires
        0 <= k <= ds.len(),
    ensures
        declared_of_list(prefix, ds) == declared_of_list(prefix, ds.take(k)) + declared_of_list(
            prefix,
            ds.subrange(k, ds.len() as int),
        ),
    decreases k,
{
    if k == 0 {
        assert(ds.take(0) =~= Seq::<RateLimitDescriptor>::empty());
        assert(ds.subrange(0, ds.len() as int) =~= ds);
        assert(declared_of_list(prefix, ds) =~= declared_of_list(prefix, ds.take(0))
            + declared_of_list(prefix, ds.subrange(0, ds.len() as int)));
    } else {
        let tail = ds.subrange(1, ds.len() as int);
        lemma_declared_of_list_split(prefix, tail, k - 1);
        assert(ds.take(k)[0] == ds[0]);
        assert(ds.take(k).subrange(1, k) =~= tail.take(k - 1));
        assert(ds.subrange(k, ds.len() as int) =~= tail.subrange(k - 1, tail.len() as int));
        assert(declared_of_list(prefix, ds) =~= declared_of_list(prefix, ds.take(k))
            + declared_of_list(prefix, ds.subrange(k, ds.len() as int)));
    }
}

/// Distinctness of a sequence carries over to any prefix of it.
pub proof fn lemma_distinct_prefix(a: Seq<(Seq<char>, LimitModel)>, b: Seq<(Seq<char>, LimitModel)>)
    ensures
        paths_distinct(a + b) ==> paths_distinct(a),
        !paths_distinct(a) ==> !paths_distinct(a + b),
{
    if paths_distinct(a + b) {
        assert forall|i: int, j: int| 0 <= i < j < a.len() implies #[trigger] a[i].0
            != #[trigger] a[j].0 by {
            assert((a + b)[i] == a[i]);
            assert((a + b)[j] == a[j]);
        }
    }
}

/// The first limit found for `path` in an association list, or nothing.
pub open spec fn spec_lookup(limits: Seq<(Seq<char>, LimitModel)>, path: Seq<char>) -> Option<
    LimitModel,
>
    decreases limits.len(),
{
    if limits.len() == 0 {
        None
    } else if limits[0].0 == path {
        Some(limits[0].1)
    } else {
        spec_lookup(limits.subrange(1, limits.len() as int), path)
    }
}

/// The request path formed from the first `i` entries of a descriptor.
pub open spec fn request_path(entries: Seq<(Seq<char>, Seq<char>)>, i: int) -> Seq<char> {
    join_colon(steps_of(entries.take(i)))
}

/// Resolution of `entries[j .. i)` below the accumulated path parts: at
/// each level the entry's own step is tried in full first, then — for a
/// nonempty value — the bare-key wildcard form, and at the end the
/// finished path is looked up.
pub open spec fn resolve_steps(
    limits: Seq<(Seq<char>, LimitModel)>,
    entries: Seq<(Seq<char>, Seq<char>)>,
    parts: Seq<Seq<char>>,
    j: int,
    i: int,
) -> Option<LimitModel>
    decreases i - j,
{
    if j >= i {
        spec_lookup(limits, join_colon(parts))
    } else {
        let exact = resolve_steps(
            limits,
            entries,
            parts.push(step_view(entries[j].0, entries[j].1)),
            j + 1,
            i,
        );
        match exact {
            Some(l) => Some(l),
            None => {
                if entries[j].1.len() == 0 {
                    None
                } else {
                    resolve_steps(limits, entries, parts.push(entries[j].0), j + 1, i)
                }
            },
        }
    }
}

/// Most-specific-prefix-wins resolution: resolve the first `i` entries,
/// for `i` from the full length down to one, an exact step taking
/// precedence over the wildcard at every level, and return the first hit.
pub open spec fn spec_find_limit(
    limits: Seq<(Seq<char>, LimitModel)>,
    entries: Seq<(Seq<char>, Seq<char>)>,
    i: int,
) -> Option<LimitModel>
    decreases i,
{
    if i <= 0 {
        None
    } else {
        match resolve_steps(limits, entries, Seq::<Seq<char>>::empty(), 0, i) {
            Some(l) => Some(l),
            None => spec_find_limit(limits, entries, i - 1),
        }
    }
}

/// When the all-exact completion of the accumulated path is declared, the
/// descent finds exactly it: the exact step is probed first at every
/// level.
proof fn lemma_resolve_exact_first(
    limits: Seq<(Seq<char>, LimitModel)>,
    entries: Seq<(Seq<char>, Seq<char>)>,
    parts: Seq<Seq<char>>,
    j: int,
    i: int,
    l: LimitModel,
)
    requires
        0 <= j <= i <= entries.len(),
        spec_lookup(limits, join_colon(parts + steps_of(entries.subrange(j, i)))) == Some(l),
    ensures
        resolve_steps(limits, entries, parts, j, i) == Some(l),
    decreases i - j,
{
    if j >= i {
        assert(entries.subrange(j, i) =~= Seq::<(Seq<char>, Seq<char>)>::empty());
        assert(steps_of(Seq::<(Seq<char>, Seq<char>)>::empty()) =~= Seq::<Seq<char>>::empty());
        assert(parts + steps_of(entries.subrange(j, i)) =~= parts);
    } else {
        let step = step_view(entries[j].0, entries[j].1);
        let lhs = parts.push(step) + steps_of(entries.subrange(j + 1, i));
        let rhs = parts + steps_of(entries.subrange(j, i));
        assert forall|k: int| 0 <= k < lhs.len() implies lhs[k] == rhs[k] by {
            if k < parts.len() {
            } else if k == parts.len() {
                assert(steps_of(entries.subrange(j, i))[0] == step_view(
                    entries.subrange(j, i)[0].0,
                    entries.subrange(j, i)[0].1,
                ));
                assert(entries.subrange(j, i)[0] == entries[j]);
            } else {
                let m = k - parts.len() - 1;
                assert(lhs[k] == steps_of(entries.subrange(j + 1, i))[m]);
                assert(steps_of(entries.subrange(j + 1, i))[m] == step_view(
                    entries.subrange(j + 1, i)[m].0,
                    entries.subrange(j + 1, i)[m].1,
                ));
                assert(entries.subrange(j + 1, i)[m] == entries[j + 1 + m]);
                assert(rhs[k] == steps_of(entries.subrange(j, i))[m + 1]);
                assert(steps_of(entries.subrange(j, i))[m + 1] == step_view(
                    entries.subrange(j, i)[m + 1].0,
                    entries.subrange(j, i)[m + 1].1,
                ));
                assert(entries.subrange(j, i)[m + 1] == entries[j + 1 + m]);
            }
        }
        assert(lhs =~= rhs);
        lemma_resolve_exact_first(limits, entries, parts.push(step), j + 1, i, l);
    }
}

/// In a compiled map with distinct paths, every declared pair is found by
/// looking its own path up.
pub proof fn lemma_lookup_declared(limits: Seq<(Seq<char>, LimitModel)>, k: int)
    requires
        paths_distinct(limits),
        0 <= k < limits.len(),
    ensures
        spec_lookup(limits, limits[k].0) == Some(limits[k].1),
    decreases limits.len(),
{
    if k == 0 {
    } else {
        let tail = limits.subrange(1, limits.len() as int);
        assert(limits[0].0 != limits[k].0);
        assert forall|i2: int, j2: int| 0 <= i2 < j2 < tail.len() implies (#[trigger] tail[i2]).0
            != (#[trigger] tail[j2]).0 by {
            assert(tail[i2] == limits[i2 + 1]);
            assert(tail[j2] == limits[j2 + 1]);
        }
        assert(tail[k - 1] == limits[k]);
        lemma_lookup_declared(tail, k - 1);
    }
}

/// Consulting the compiled map with a descriptor that walks exactly a
/// declared path yields that path's limit: the longest prefix is probed
/// first, with the exact form of every step first, and it is the whole
/// descriptor.
pub proof fn lemma_declared_path_resolves(
    limits: Seq<(Seq<char>, LimitModel)>,
    entries: Seq<(Seq<char>, Seq<char>)>,
    l: LimitModel,
)
    requires
        entries.len() > 0,
        spec_lookup(limits, request_path(entries, entries.len() as int)) == Some(l),
    ensures
        spec_find_limit(limits, entries, entries.len() as int) == Some(l),
{
    let n = entries.len() as int;
    assert(entries.take(n) =~= entries);
    assert(entries.subrange(0, n) =~= entries);
    assert(Seq::<Seq<char>>::empty() + steps_of(entries) =~= steps_of(entries));
    lemma_resolve_exact_first(limits, entries, Seq::<Seq<char>>::empty(), 0, n, l);
}

/// The resolver is deterministic: any two results that the resolution
/// contract admits for the same compiled configuration and the same
/// descriptor entries are equal.
pub proof fn lemma_resolver_deterministic(
    limits: Seq<(Seq<char>, LimitModel)>,
    entries: Seq<(Seq<char>, Seq<char>)>,
    i: int,
    r1: Option<LimitModel>,
    r2: Option<LimitModel>,
)
    requires
        r1 == spec_find_limit(limits, entries, i),
        r2 == spec_find_limit(limits, entries, i),
    ensures
        r1 == r2,
{
}

/// Compiled rate limit configuration for fast lookups: a domain and its
/// flattened `(path, limit)` pairs, with no path declared twice.
#[derive(Debug)]
pub struct CompiledRateLimitConfig {
    domain: String,
    limits: Vec<(String, CompiledRateLimit)>,
}

impl CompiledRateLimitConfig {
    /// The domain this configuration is for.
    pub closed spec fn domain_view(self) -> Seq<char> {
        self.domain@
    }

    /// The flattened `(path, limit)` pairs, in declaration order.
    pub closed spec fn limits_view(self) -> Seq<(Seq<char>, LimitModel)> {
        limits_pairs(self.limits@)
    }

    /// No path is declared twice.
    pub open spec fn wf(self) -> bool {
        paths_distinct(self.limits_view())
    }

    /// Get the domain for this configuration.
    pub fn domain(&self) -> (r: &str)
        ensures
            r@ == self.domain_view(),
    {
        self.domain.as_str()
    }

    /// Whether this configuration is for `domain`.
    pub fn domain_matches(&self, domain: &String) -> (r: bool)
        ensures
            r == (self.domain_view() == domain@),
    {
        self.domain == *domain
    }

    /// Find the first limit stored under exactly `path`.
    fn lookup(&self, path: &String) -> (r: Option<&CompiledRateLimit>)
        ensures
            (match r {
                Some(l) => spec_lookup(self.limits_view(), path@) == Some(l.model()),
                None => spec_lookup(self.limits_view(), path@) is None,
            }),
    {
        let n = self.limits.len();
        proof {
            assert(self.limits_view().skip(0) =~= self.limits_view());
        }
        for j in 0..n
            invariant
                n == self.limits.len(),
                spec_lookup(self.limits_view(), path@) == spec_lookup(
                    self.limits_view().skip(j as int),
                    path@,
                ),
        {
            proof {
                assert(self.limits_view().skip(j as int)[0] == self.limits_view()[j as int]);
                assert(self.limits_view().skip(j as int).subrange(
                    1,
                    self.limits_view().skip(j as int).len() as int,
                ) =~= self.limits_view().skip(j + 1));
            }
            if self.limits[j].0 == *path {
                return Some(&self.limits[j].1);
            }
        }
        proof {
            assert(self.limits_view().skip(n as int).len() == 0);
        }
        None
    }

    /// Join accumulated path parts with `:`.
    fn join_path(parts: &Vec<String>) -> (r: String)
        ensures
            r@ == join_colon(path_views(parts@)),
    {
        let ghost views = path_views(parts@);
        let mut s = String::new();
        let n = parts.len();
        for j in 0..n
            invariant
                n == parts@.len(),
                views == path_views(parts@),
                s@ == join_colon(views.take(j as int)),
        {
            let ghost prev = views.take(j as int);
            if j > 0 {
                s.append(":");
            }
            s.append(parts[j].as_str());
            proof {
                reveal_strlit(":");
                assert(":"@ =~= seq![':']);
                assert(views.take(j + 1) =~= prev.push(parts@[j as int]@));
                if j > 0 {
                    crate::keys::lemma_join_colon_push(prev, parts@[j as int]@);
                    assert(s@ =~= join_colon(prev) + seq![':'] + parts@[j as int]@);
                } else {
                    assert(s@ =~= parts@[j as int]@);
                }
            }
        }
        proof {
            assert(views.take(n as int) =~= views);
        }
        s
    }

    /// Whether some limit is already stored under exactly `path`.
    fn contains_path(limits: &Vec<(String, CompiledRateLimit)>, path: &String) -> (r: bool)
        ensures
            r == has_path(limits_pairs(limits@), path@),
    {
        let n = limits.len();
        for j in 0..n
            invariant
                n == limits@.len(),
                forall|k: int| 0 <= k < j ==> #[trigger] limits_pairs(limits@)[k].0 != path@,
        {
            if limits[j].0 == *path {
                proof {
                    assert(limits_pairs(limits@)[j as int].0 == path@);
                }
                return true;
            }
        }
        false
    }

    /// Flatten one configuration node and its subtree into `limits`, below
    /// the path accumulated in `path`. On success the declarations are
    /// appended in depth-first order and `path` is restored; a duplicate
    /// path gives a configuration error.
    #[verifier::rlimit(60)]
    fn compile_descriptor(
        descriptor: &RateLimitDescriptor,
        path: &mut Vec<String>,
        limits: &mut Vec<(String, CompiledRateLimit)>,
    ) -> (r: Result<(), RateLimitError>)
        requires
            paths_distinct(limits_pairs(old(limits)@)),
        ensures
            (r is Ok <==> paths_distinct(
                limits_pairs(old(limits)@) + declared_of_desc(
                    path_views(old(path)@),
                    *descriptor,
                ),
            )),
            r is Ok ==> limits_pairs(final(limits)@) == limits_pairs(old(limits)@)
                + declared_of_desc(path_views(old(path)@), *descriptor),
            r is Ok ==> final(path)@ == old(path)@,
            r is Err ==> r matches Err(RateLimitError::Config(_)),
        decreases *descriptor,
    {
        let ghost oldv = limits_pairs(old(limits)@);
        let ghost prefix = path_views(old(path)@);
        let ghost decls = declared_of_desc(prefix, *descriptor);

        let key_value = match &descriptor.value {
            Some(value) => {
                let mut s = descriptor.key.clone();
                s.append("_");
                s.append(value.as_str());
                proof {
                    reveal_strlit("_");
                    assert("_"@ =~= seq!['_']);
                    assert(s@ =~= desc_step(*descriptor));
                }
                s
            },
            None => descriptor.key.clone(),
        };
        path.push(key_value);
        let ghost pushed_path = path@;
        let ghost parts = prefix.push(desc_step(*descriptor));
        proof {
            assert(path_views(path@) =~= parts);
        }

        let ghost own = (match &descriptor.rate_limit {
            Some(rl) => seq![(join_colon(parts), declared_limit(*descriptor, *rl))],
            None => Seq::<(Seq<char>, LimitModel)>::empty(),
        });

        match &descriptor.rate_limit {
            Some(rate_limit) => {
                let path_key = Self::join_path(path);
                if Self::contains_path(limits, &path_key) {
                    proof {
                        let i = choose|i: int|
                            0 <= i < oldv.len() && #[trigger] oldv[i].0 == path_key@;
                        assert((oldv + decls)[i].0 == path_key@);
                        assert((oldv + decls)[oldv.len() as int].0 == path_key@);
                        assert(!paths_distinct(oldv + decls));
                    }
                    return Err(
                        RateLimitError::Config(
                            "duplicate descriptor path in configuration".to_owned(),
                        ),
                    );
                }
                let compiled = CompiledRateLimit {
                    requests_per_unit: rate_limit.requests_per_unit,
                    unit: rate_limit.unit.to_unit(),
                    unlimited: match rate_limit.unlimited {
                        Some(b) => b,
                        None => false,
                    },
                    shadow_mode: match descriptor.shadow_mode {
                        Some(b) => b,
                        None => false,
                    },
                    name: match &rate_limit.name {
                        Some(n) => Some(n.clone()),
                        None => None,
                    },
                };
                proof {
                    assert(compiled.model() == declared_limit(*descriptor, *rate_limit));
                }
                limits.push((path_key, compiled));
                proof {
                    assert(limits_pairs(limits@) =~= oldv + own);
                    assert forall|i: int, j: int| 0 <= i < j < (oldv + own).len() implies #[trigger] (oldv
                        + own)[i].0 != #[trigger] (oldv + own)[j].0 by {
                        if j < oldv.len() {
                            assert((oldv + own)[i] == oldv[i]);
                            assert((oldv + own)[j] == oldv[j]);
                        } else {
                            assert((oldv + own)[i] == oldv[i]);
                            assert(!has_path(oldv, path_key@));
                        }
                    }
                }
            },
            None => {
                proof {
                    assert(limits_pairs(limits@) =~= oldv + own);
                }
            },
        }

        match &descriptor.descriptors {
            Some(nested) => {
                let ghost children = nested@;
                let n = nested.len();
                for i in 0..n
                    invariant
                        n == nested@.len(),
                        children == nested@,
                        descriptor.descriptors matches Some(v) && v@ == children,
                        path@ == pushed_path,
                        parts == path_views(path@),
                        oldv == limits_pairs(old(limits)@),
                        prefix == path_views(old(path)@),
                        decls == declared_of_desc(prefix, *descriptor),
                        decls == own + declared_of_list(parts, children),
                        limits_pairs(limits@) == oldv + own + declared_of_list(
                            parts,
                            children.take(i as int),
                        ),
                        paths_distinct(limits_pairs(limits@)),
                {
                    let ghost before = limits_pairs(limits@);
                    let ghost child_decls = declared_of_desc(parts, children[i as int]);
                    proof {
                        assert(decreases_to!(*descriptor => descriptor.descriptors));
                        assert(decreases_to!(descriptor.descriptors => descriptor.descriptors->0));
                        assert(decreases_to!(descriptor.descriptors->0 => descriptor.descriptors->0@));
                        assert(decreases_to!(descriptor.descriptors->0@ => descriptor.descriptors->0@[i as int]));
                    }
                    let res = Self::compile_descriptor(&nested[i], path, limits);
                    match res {
                        Ok(()) => {
                            proof {
                                assert(children.take(i + 1) =~= children.take(i as int).push(
                                    children[i as int],
                                ));
                                lemma_declared_of_list_push(
                                    parts,
                                    children.take(i as int),
                                    children[i as int],
                                );
                                assert(limits_pairs(limits@) =~= oldv + own + declared_of_list(
                                    parts,
                                    children.take(i + 1),
                                ));
                            }
                        },
                        Err(e) => {
                            proof {
                                assert(!paths_distinct(before + child_decls));
                                assert(children.take(i + 1) =~= children.take(i as int).push(
                                    children[i as int],
                                ));
                                lemma_declared_of_list_push(
                                    parts,
                                    children.take(i as int),
                                    children[i as int],
                                );
                                lemma_declared_of_list_split(parts, children, i + 1);
                                assert(before + child_decls =~= oldv + own + declared_of_list(
                                    parts,
                                    children.take(i + 1),
                                ));
                                lemma_distinct_prefix(
                                    before + child_decls,
                                    declared_of_list(
                                        parts,
                                        children.subrange(i + 1, children.len() as int),
                                    ),
                                );
                                assert(oldv + decls =~= (before + child_decls) + declared_of_list(
                                    parts,
                                    children.subrange(i + 1, children.len() as int),
                                ));
                                assert(!paths_distinct(oldv + decls));
                            }
                            return Err(e);
                        },
                    }
                }
                proof {
                    assert(children.take(n as int) =~= children);
                    assert(limits_pairs(limits@) =~= oldv + decls);
                }
            },
            None => {
                proof {
                    assert(decls =~= own + Seq::<(Seq<char>, LimitModel)>::empty());
                    assert(limits_pairs(limits@) =~= oldv + decls);
                }
            },
        }

        path.pop();
        proof {
            assert(path@ =~= old(path)@);
        }
        Ok(())
    }

    /// Compile a configuration for efficient runtime lookups. Fails with a
    /// configuration error exactly when two nodes declare the same path.
    pub fn compile(config: RateLimitConfig) -> (r: Result<CompiledRateLimitConfig, RateLimitError>)
        ensures
            (r is Ok <==> paths_distinct(
                declared_of_list(Seq::<Seq<char>>::empty(), config.descriptors@),
            )),
            r matches Ok(c) ==> c.wf() && c.domain_view() == config.domain@ && c.limits_view()
                == declared_of_list(Seq::<Seq<char>>::empty(), config.descriptors@),
            r is Err ==> r matches Err(RateLimitError::Config(_)),
    {
        let ghost all = declared_of_list(Seq::<Seq<char>>::empty(), config.descriptors@);
        let mut limits: Vec<(String, CompiledRateLimit)> = Vec::new();
        let mut path: Vec<String> = Vec::new();
        let n = config.descriptors.len();
        proof {
            assert(limits_pairs(limits@) =~= Seq::<(Seq<char>, LimitModel)>::empty());
        }
        for i in 0..n
            invariant
                n == config.descriptors@.len(),
                all == declared_of_list(Seq::<Seq<char>>::empty(), config.descriptors@),
                path@ == Seq::<String>::empty(),
                limits_pairs(limits@) == declared_of_list(
                    Seq::<Seq<char>>::empty(),
                    config.descriptors@.take(i as int),
                ),
                paths_distinct(limits_pairs(limits@)),
        {
            let ghost ds = config.descriptors@;
            let ghost before = limits_pairs(limits@);
            let ghost child_decls = declared_of_desc(Seq::<Seq<char>>::empty(), ds[i as int]);
            proof {
                assert(path_views(path@) =~= Seq::<Seq<char>>::empty());
            }
            let res = Self::compile_descriptor(&config.descriptors[i], &mut path, &mut limits);
            match res {
                Ok(()) => {
                    proof {
                        assert(ds.take(i + 1) =~= ds.take(i as int).push(ds[i as int]));
                        lemma_declared_of_list_push(
                            Seq::<Seq<char>>::empty(),
                            ds.take(i as int),
                            ds[i as int],
                        );
                        assert(limits_pairs(limits@) =~= declared_of_list(
                            Seq::<Seq<char>>::empty(),
                            ds.take(i + 1),
                        ));
                    }
                },
                Err(e) => {
                    proof {
                        assert(!paths_distinct(before + child_decls));
                        assert(ds.take(i + 1) =~= ds.take(i as int).push(ds[i as int]));
                        lemma_declared_of_list_push(
                            Seq::<Seq<char>>::empty(),
                            ds.take(i as int),
                            ds[i as int],
                        );
                        lemma_declared_of_list_split(Seq::<Seq<char>>::empty(), ds, i + 1);
                        assert(before + child_decls =~= declared_of_list(
                            Seq::<Seq<char>>::empty(),
                            ds.take(i + 1),
                        ));
                        lemma_distinct_prefix(
                            before + child_decls,
                            declared_of_list(
                                Seq::<Seq<char>>::empty(),
                                ds.subrange(i + 1, ds.len() as int),
                            ),
                        );
                        assert(all =~= (before + child_decls) + declared_of_list(
                            Seq::<Seq<char>>::empty(),
                            ds.subrange(i + 1, ds.len() as int),
                        ));
                    }
                    return Err(e);
                },
            }
        }
        proof {
            assert(config.descriptors@.take(n as int) =~= config.descriptors@);
        }
        Ok(CompiledRateLimitConfig { domain: config.domain, limits })
    }

    /// Find a rate limit for the given descriptor entries, probing the
    /// longest declared prefix first.
    pub fn find_limit(&self, descriptors: &[(&str, &str)]) -> (r: Option<&CompiledRateLimit>)
        ensures
            (match r {
                Some(l) => spec_find_limit(
                    self.limits_view(),
                    crate::keys::str_entry_views(descriptors@),
                    descriptors@.len() as int,
                ) == Some(l.model()),
                None => spec_find_limit(
                    self.limits_view(),
                    crate::keys::str_entry_views(descriptors@),
                    descriptors@.len() as int,
                ) is None,
            }),
    {
        let ghost views = crate::keys::str_entry_views(descriptors@);
        let n = descriptors.len();
        let mut i = n;
        while i >= 1
            invariant
                i <= n,
                n == descriptors@.len(),
                views == crate::keys::str_entry_views(descriptors@),
                spec_find_limit(self.limits_view(), views, n as int) == spec_find_limit(
                    self.limits_view(),
                    views,
                    i as int,
                ),
            decreases i,
        {
            let empty_prefix = String::new();
            proof {
                assert(join_colon(Seq::<Seq<char>>::empty()) =~= Seq::<char>::empty());
            }
            let found = self.resolve_at(
                descriptors,
                &empty_prefix,
                Ghost(Seq::<Seq<char>>::empty()),
                0,
                i,
            );
            match found {
                Some(l) => {
                    return Some(l);
                },
                None => {},
            }
            i = i - 1;
        }
        None
    }

    /// The step a request entry contributes to a probed path: the bare key
    /// for an empty value, else `key_value`.
    fn step_string(key: &str, value: &str) -> (r: String)
        ensures
            r@ == step_view(key@, value@),
    {
        let mut s = key.to_owned();
        if !value.is_empty() {
            s.append("_");
            s.append(value);
            proof {
                reveal_strlit("_");
                assert("_"@ =~= seq!['_']);
                assert(s@ =~= step_view(key@, value@));
            }
        }
        s
    }

    /// Append one step to a probed path prefix.
    fn extend_prefix(prefix: &String, step: &String, at_root: bool, Ghost(parts): Ghost<Seq<Seq<char>>>) -> (r: String)
        requires
            at_root <==> parts.len() == 0,
            prefix@ == join_colon(parts),
        ensures
            r@ == join_colon(parts.push(step@)),
    {
        if at_root {
            proof {
                assert(parts.push(step@) =~= seq![step@]);
            }
            step.clone()
        } else {
            let mut s = prefix.clone();
            s.append(":");
            s.append(step.as_str());
            proof {
                reveal_strlit(":");
                assert(":"@ =~= seq![':']);
                crate::keys::lemma_join_colon_push(parts, step@);
                assert(s@ =~= join_colon(parts) + seq![':'] + step@);
            }
            s
        }
    }

    /// Resolve the entries from position `j` up to `i` below the probed
    /// path `prefix`: the entry's own step in full first, then, for a
    /// nonempty value, the bare-key wildcard.
    fn resolve_at<'a>(
        &'a self,
        descriptors: &[(&str, &str)],
        prefix: &String,
        Ghost(parts): Ghost<Seq<Seq<char>>>,
        j: usize,
        i: usize,
    ) -> (r: Option<&'a CompiledRateLimit>)
        requires
            j <= i <= descriptors@.len(),
            parts.len() == j,
            prefix@ == join_colon(parts),
        ensures
            (match r {
                Some(l) => resolve_steps(
                    self.limits_view(),
                    crate::keys::str_entry_views(descriptors@),
                    parts,
                    j as int,
                    i as int,
                ) == Some(l.model()),
                None => resolve_steps(
                    self.limits_view(),
                    crate::keys::str_entry_views(descriptors@),
                    parts,
                    j as int,
                    i as int,
                ) is None,
            }),
        decreases i - j,
    {
        let ghost views = crate::keys::str_entry_views(descriptors@);
        if j == i {
            return self.lookup(prefix);
        }
        let (key, value) = descriptors[j];
        proof {
            assert(views[j as int] == (key@, value@));
        }
        let step = Self::step_string(key, value);
        let next = Self::extend_prefix(prefix, &step, j == 0, Ghost(parts));
        let r1 = self.resolve_at(
            descriptors,
            &next,
            Ghost(parts.push(step_view(key@, value@))),
            j + 1,
            i,
        );
        match r1 {
            Some(l) => {
                return Some(l);
            },
            None => {},
        }
        if !value.is_empty() {
            let wild = key.to_owned();
            let nextw = Self::extend_prefix(prefix, &wild, j == 0, Ghost(parts));
            return self.resolve_at(descriptors, &nextw, Ghost(parts.push(key@)), j + 1, i);
        }
        None
    }
}

} // verus!
