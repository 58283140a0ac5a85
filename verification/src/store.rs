//! The counter backend: the batched increment-plus-expire contract every
//! store obeys, and a verified in-memory implementation.
//!
//! Counter keys already carry their window index, so a fresh window always
//! means a fresh key; the in-memory store therefore keeps a plain log of
//! increments and ignores expiry.

use vstd::prelude::*;
use crate::error::RateLimitError;

verus! {

/// Addition on `u64` that sticks at the maximum instead of wrapping.
pub open spec fn sat_add(a: u64, b: u64) -> u64 {
    if a + b > u64::MAX {
        u64::MAX
    } else {
        (a + b) as u64
    }
}

/// The views of a batch of `(key, increment, ttl_seconds)` operations.
pub open spec fn op_views(ops: Seq<(String, u64, u64)>) -> Seq<(Seq<char>, u64, u64)> {
    ops.map_values(|op: (String, u64, u64)| (op.0@, op.1, op.2))
}

/// The counter value a log of `(key, increment)` entries yields for `key`:
/// the saturating sum of the increments recorded under it.
pub open spec fn log_count(log: Seq<(Seq<char>, u64)>, key: Seq<char>) -> u64
    decreases log.len(),
{
    if log.len() == 0 {
        0
    } else {
        let prev = log_count(log.drop_last(), key);
        if log.last().0 == key {
            sat_add(prev, log.last().1)
        } else {
            prev
        }
    }
}

/// The log after recording the first `i` operations of a batch.
pub open spec fn log_after(log: Seq<(Seq<char>, u64)>, ops: Seq<(Seq<char>, u64, u64)>, i: int) -> Seq<
    (Seq<char>, u64),
>
    decreases i,
{
    if i <= 0 {
        log
    } else {
        log_after(log, ops, i - 1).push((ops[i - 1].0, ops[i - 1].1))
    }
}

/// Whether every operation of a batch carries a positive time to live. A
/// `ttl_seconds` of zero would delete the counter and is rejected.
pub open spec fn ttls_positive(ops: Seq<(Seq<char>, u64, u64)>) -> bool {
    forall|i: int| 0 <= i < ops.len() ==> (#[trigger] ops[i]).2 > 0
}

/// A backend executing batches of `(key, increment, ttl_seconds)` triples
/// as one pipelined round trip: increment the counter at `key`, creating it
/// at zero if absent, set its expiry, and return the post-increment value.
/// Results align one to one, in order, with the operations; an empty batch
/// succeeds without touching the store; any failure is a store error.
pub trait CounterStore {
    /// Execute one pipelined batch and return the post-increment values.
    fn pipeline_increment_and_expire(&mut self, operations: Vec<(String, u64, u64)>) -> (r: Result<
        Vec<u64>,
        RateLimitError,
    >)
        ensures
            (r matches Ok(counts) ==> counts@.len() == operations@.len()),
            operations@.len() == 0 ==> r is Ok,
            (r matches Err(e) ==> e matches RateLimitError::Store(_)),
    ;

    /// Probe the liveness of the backing store.
    fn health_check(&mut self) -> (r: Result<(), RateLimitError>);
}

/// Two back-to-back single-hit batches against a cold key count one, then
/// two: the first increment creates the counter at zero.
pub proof fn lemma_cold_key_counts(key: Seq<char>, ttl: u64)
    ensures
        ({
            let ops = seq![(key, 1u64, ttl)];
            let log0 = Seq::<(Seq<char>, u64)>::empty();
            let log1 = log_after(log0, ops, 1);
            let log2 = log_after(log1, ops, 1);
            log_count(log1, key) == 1 && log_count(log2, key) == 2
        }),
{
    let ops = seq![(key, 1u64, ttl)];
    let log0 = Seq::<(Seq<char>, u64)>::empty();
    let log1 = log_after(log0, ops, 1);
    let log2 = log_after(log1, ops, 1);
    assert(log_after(log0, ops, 0) == log0);
    assert(log_after(log1, ops, 0) == log1);
    assert(ops[0] == (key, 1u64, ttl));
    assert(log1 =~= log0.push((key, 1u64)));
    assert(log2 =~= log1.push((key, 1u64)));
    assert(log1.drop_last() =~= log0);
    assert(log2.drop_last() =~= log1);
    assert(log_count(log0, key) == 0);
    assert(log_count(log1, key) == sat_add(0, 1));
    assert(log_count(log2, key) == sat_add(1, 1));
}

/// An in-memory counter store: the backend used in tests, with the same
/// observable contract as a remote store.
#[derive(Debug)]
pub struct MemoryCounterStore {
    log: Vec<(String, u64)>,
}

impl MemoryCounterStore {
    /// The recorded `(key, increment)` log, in order of application.
    pub closed spec fn log_view(self) -> Seq<(Seq<char>, u64)> {
        self.log@.map_values(|e: (String, u64)| (e.0@, e.1))
    }

    /// An empty store.
    pub fn new() -> (r: Self)
        ensures
            r.log_view() == Seq::<(Seq<char>, u64)>::empty(),
    {
        let r = MemoryCounterStore { log: Vec::new() };
        proof {
            assert(r.log_view() =~= Seq::<(Seq<char>, u64)>::empty());
        }
        r
    }

    /// The counter value currently recorded for `key`.
    pub fn count_for(&self, key: &String) -> (r: u64)
        ensures
            r == log_count(self.log_view(), key@),
    {
        let ghost lv = self.log_view();
        let mut acc: u64 = 0;
        let n = self.log.len();
        for j in 0..n
            invariant
                n == self.log@.len(),
                lv == self.log_view(),
                acc == log_count(lv.take(j as int), key@),
        {
            proof {
                assert(lv.take(j + 1).drop_last() =~= lv.take(j as int));
                assert(lv.take(j + 1).last() == lv[j as int]);
            }
            if self.log[j].0 == *key {
                acc = if acc <= u64::MAX - self.log[j].1 {
                    acc + self.log[j].1
                } else {
                    u64::MAX
                };
            }
        }
        proof {
            assert(lv.take(n as int) =~= lv);
        }
        acc
    }

    /// Record one batch and return the post-increment value of each
    /// operation, in input order. Fails, recording nothing, when an
    /// operation carries a zero time to live.
    pub fn increment_batch(&mut self, operations: &Vec<(String, u64, u64)>) -> (r: Result<
        Vec<u64>,
        RateLimitError,
    >)
        ensures
            (r is Ok <==> ttls_positive(op_views(operations@))),
            (r matches Ok(counts) ==> {
                &&& counts@.len() == operations@.len()
                &&& final(self).log_view() == log_after(
                    old(self).log_view(),
                    op_views(operations@),
                    operations@.len() as int,
                )
                &&& forall|i: int|
                    0 <= i < counts@.len() ==> counts@[i] == log_count(
                        log_after(old(self).log_view(), op_views(operations@), i + 1),
                        op_views(operations@)[i].0,
                    )
            }),
            r is Err ==> final(self).log_view() == old(self).log_view() && r matches Err(
                RateLimitError::Store(_),
            ),
    {
        let ghost ops = op_views(operations@);
        let n = operations.len();
        for i in 0..n
            invariant
                n == operations@.len(),
                ops == op_views(operations@),
                self.log_view() == old(self).log_view(),
                forall|k: int| 0 <= k < i ==> (#[trigger] ops[k]).2 > 0,
        {
            if operations[i].2 == 0 {
                proof {
                    assert(ops[i as int].2 == 0);
                }
                return Err(
                    RateLimitError::Store("a zero expiry would delete the counter".to_owned()),
                );
            }
        }
        let mut counts: Vec<u64> = Vec::new();
        for i in 0..n
            invariant
                n == operations@.len(),
                ops == op_views(operations@),
                self.log_view() == log_after(old(self).log_view(), ops, i as int),
                counts@.len() == i,
                forall|k: int|
                    0 <= k < i ==> counts@[k] == log_count(
                        log_after(old(self).log_view(), ops, k + 1),
                        ops[k].0,
                    ),
        {
            let key = operations[i].0.clone();
            let inc = operations[i].1;
            self.log.push((key, inc));
            proof {
                assert(self.log_view() =~= log_after(old(self).log_view(), ops, i as int).push(
                    (ops[i as int].0, ops[i as int].1),
                ));
                assert(self.log_view() == log_after(old(self).log_view(), ops, i + 1));
            }
            let c = self.count_for(&operations[i].0);
            counts.push(c);
        }
        Ok(counts)
    }
}

impl Default for MemoryCounterStore {
    /// The default store is empty.
    fn default() -> (r: Self)
        ensures
            r.log_view() == Seq::<(Seq<char>, u64)>::empty(),
    {
        MemoryCounterStore::new()
    }
}

impl CounterStore for MemoryCounterStore {
    fn pipeline_increment_and_expire(&mut self, operations: Vec<(String, u64, u64)>) -> (r: Result<
        Vec<u64>,
        RateLimitError,
    >) {
        self.increment_batch(&operations)
    }

    fn health_check(&mut self) -> (r: Result<(), RateLimitError>) {
        Ok(())
    }
}

} // verus!
