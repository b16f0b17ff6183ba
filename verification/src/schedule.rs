//! The scheduler: batch-by-batch execution over the dirty set.
//!
//! A build session walks the graph's topological batches. For each
//! batch it names the units to dispatch — dirty units all of whose
//! dependencies settled well — and takes back one compile result per
//! dispatched unit. Dirty units with a failed or blocked dependency are
//! never dispatched: they are skipped as blocked, while unrelated units
//! proceed. Clean units are skipped as unchanged. Only successes update
//! the fingerprint store, so failed units stay dirty for the next run.
//! Invoking the compiler itself is the surrounding program's business.

use vstd::prelude::*;

use crate::dirty::{compute_dirty, fresh_record, make_record, spec_dirty};
use crate::fingerprint::{stored_record, FingerprintRecord, FingerprintStore};
use crate::graph::{seq_has, DepGraph};

verus! {

/// Why a unit's build failed.
#[derive(Clone, Copy, PartialEq, Eq, Debug)]
pub enum FailureKind {
    /// The compiler ran and rejected the unit.
    Compilation,
    /// The external tool was unavailable or crashed.
    Invoker,
}

/// The terminal outcome of one unit in one build run.
#[derive(Clone, Copy, PartialEq, Eq, Debug)]
pub enum Outcome {
    Success,
    Failed(FailureKind),
    SkippedUnchanged,
    SkippedBlocked,
}

/// What the compiler invoker reported for one dispatched unit.
#[derive(Clone, Copy, PartialEq, Eq, Debug)]
pub enum InvokeStatus {
    Succeeded,
    CompileFailed,
    InvokerFailed,
}

/// One dispatched unit's result: the invoker's status and its captured
/// output.
#[derive(Debug)]
pub struct InvokeOutcome {
    pub status: InvokeStatus,
    pub output: String,
}

/// The outcome a compile result settles a dispatched unit with.
pub open spec fn outcome_of_status(status: InvokeStatus) -> Outcome {
    match status {
        InvokeStatus::Succeeded => Outcome::Success,
        InvokeStatus::CompileFailed => Outcome::Failed(FailureKind::Compilation),
        InvokeStatus::InvokerFailed => Outcome::Failed(FailureKind::Invoker),
    }
}

/// The unit settled well: built successfully or unchanged.
pub open spec fn settled_ok(oc: Option<Outcome>) -> bool {
    oc == Some(Outcome::Success) || oc == Some(Outcome::SkippedUnchanged)
}

/// The unit settled badly: failed, or blocked by a failure.
pub open spec fn settled_bad(oc: Option<Outcome>) -> bool {
    oc matches Some(Outcome::Failed(_)) || oc == Some(Outcome::SkippedBlocked)
}

/// One build run in progress: the graph, the current fingerprints, the
/// dirty set, the per-unit outcomes so far, and which batch is next.
pub struct BuildSession {
    pub graph: DepGraph,
    pub current: Vec<u64>,
    pub dirty: Vec<bool>,
    pub outcomes: Vec<Option<Outcome>>,
    pub logs: Vec<String>,
    pub next_batch: usize,
}

impl BuildSession {
    /// Number of units.
    pub open spec fn n(self) -> int {
        self.graph.n()
    }

    /// The session's invariant: sizes agree; exactly the dirty units of
    /// batches not yet run are pending; a blocked unit has a failed or
    /// blocked dependency; a built unit's dependencies all settled well;
    /// clean units are skipped as unchanged, dirty ones never are.
    pub open spec fn wf(self) -> bool {
        &&& self.graph.wf()
        &&& self.current@.len() == self.n()
        &&& self.dirty@.len() == self.n()
        &&& self.outcomes@.len() == self.n()
        &&& self.logs@.len() == self.n()
        &&& self.next_batch <= self.graph.batches@.len()
        &&& forall|i: int|
            0 <= i < self.n() && !self.dirty@[i] ==> self.outcomes@[i] == Some(
                Outcome::SkippedUnchanged,
            )
        &&& forall|i: int|
            0 <= i < self.n() && self.dirty@[i] ==> self.outcomes@[i] != Some(
                Outcome::SkippedUnchanged,
            )
        &&& forall|i: int|
            0 <= i < self.n() ==> (self.outcomes@[i] is None <==> self.dirty@[i] && (
            self.graph.level@[i] as int) >= self.next_batch)
        &&& forall|i: int|
            0 <= i < self.n() && self.outcomes@[i] == Some(Outcome::SkippedBlocked)
                ==> self.dirty@[i] && exists|k: int|
                0 <= k < self.graph.deps@[i]@.len() && settled_bad(
                    self.outcomes@[#[trigger] self.graph.deps@[i]@[k] as int],
                )
        &&& forall|i: int|
            0 <= i < self.n() && (self.outcomes@[i] == Some(Outcome::Success) || self.outcomes@[i]
                matches Some(Outcome::Failed(_))) ==> self.dirty@[i] && (forall|k: int|
                0 <= k < self.graph.deps@[i]@.len() ==> settled_ok(
                    self.outcomes@[#[trigger] self.graph.deps@[i]@[k] as int],
                ))
    }

    /// All batches have run.
    pub open spec fn spec_finished(self) -> bool {
        self.next_batch == self.graph.batches@.len()
    }

    /// Unit `u` can be dispatched: it is dirty and every dependency
    /// settled well.
    pub open spec fn unit_ready(self, u: int) -> bool {
        self.dirty@[u] && forall|k: int|
            0 <= k < self.graph.deps@[u]@.len() ==> settled_ok(
                self.outcomes@[#[trigger] self.graph.deps@[u]@[k] as int],
            )
    }

    /// The dispatchable units of `batch`, in batch order.
    pub open spec fn dispatch_of(self, batch: Seq<usize>) -> Seq<usize>
        decreases batch.len(),
    {
        if batch.len() == 0 {
            Seq::empty()
        } else {
            let pre = self.dispatch_of(batch.drop_last());
            if self.unit_ready(batch.last() as int) {
                pre.push(batch.last())
            } else {
                pre
            }
        }
    }

    /// What `to_dispatch` returns for the next batch.
    pub open spec fn spec_dispatch(self) -> Seq<usize> {
        self.dispatch_of(self.graph.batches@[self.next_batch as int]@)
    }

    /// Starts a run: computes the dirty set from the store and the
    /// current fingerprints; clean units are settled as skipped
    /// unchanged at once, dirty units are pending.
    pub fn start(graph: DepGraph, store: &FingerprintStore, current: Vec<u64>) -> (session: BuildSession)
        requires
            graph.wf(),
            current@.len() == graph.n(),
        ensures
            session.wf(),
            session.graph == graph,
            session.current == current,
            session.next_batch == 0,
            forall|i: int|
                0 <= i < graph.n() ==> session.dirty@[i] == spec_dirty(
                    graph,
                    store.records@,
                    current@,
                    i,
                ),
    {
        let dirty = compute_dirty(&graph, store, &current);
        let n = graph.ids.len();
        let mut outcomes: Vec<Option<Outcome>> = Vec::new();
        let mut logs: Vec<String> = Vec::new();
        let mut i: usize = 0;
        while i < n
            invariant
                0 <= i <= n,
                n == graph.n(),
                dirty@.len() == n,
                outcomes@.len() == i,
                logs@.len() == i,
                forall|j: int|
                    0 <= j < i ==> #[trigger] outcomes@[j] == if dirty@[j] {
                        None::<Outcome>
                    } else {
                        Some(Outcome::SkippedUnchanged)
                    },
            decreases n - i,
        {
            if dirty[i] {
                outcomes.push(None);
            } else {
                outcomes.push(Some(Outcome::SkippedUnchanged));
            }
            logs.push(String::new());
            i = i + 1;
        }
        BuildSession { graph, current, dirty, outcomes, logs, next_batch: 0 }
    }

    /// All batches have run; the report can be drawn.
    pub fn finished(&self) -> (done: bool)
        ensures
            done == self.spec_finished(),
    {
        self.next_batch == self.graph.batches.len()
    }

    /// Whether every dependency of `u` settled well.
    fn deps_settled_ok(&self, u: usize) -> (ok: bool)
        requires
            self.graph.wf(),
            self.outcomes@.len() == self.n(),
            (u as int) < self.n(),
        ensures
            ok == forall|k: int|
                0 <= k < self.graph.deps@[u as int]@.len() ==> settled_ok(
                    self.outcomes@[#[trigger] self.graph.deps@[u as int]@[k] as int],
                ),
    {
        let m = self.graph.deps[u].len();
        let mut k: usize = 0;
        while k < m
            invariant
                0 <= k <= m,
                self.graph.wf(),
                self.outcomes@.len() == self.n(),
                (u as int) < self.n(),
                m == self.graph.deps@[u as int]@.len(),
                forall|k2: int|
                    0 <= k2 < k ==> settled_ok(
                        self.outcomes@[#[trigger] self.graph.deps@[u as int]@[k2] as int],
                    ),
            decreases m - k,
        {
            let d = self.graph.deps[u][k];
            let ok = match self.outcomes[d] {
                Some(Outcome::Success) => true,
                Some(Outcome::SkippedUnchanged) => true,
                _ => false,
            };
            if !ok {
                return false;
            }
            k = k + 1;
        }
        true
    }

    /// The units of the next batch to hand to the compiler invoker:
    /// the batch's dirty units whose dependencies all settled well, in
    /// batch order.
    pub fn to_dispatch(&self) -> (units: Vec<usize>)
        requires
            self.wf(),
            !self.spec_finished(),
        ensures
            units@ == self.spec_dispatch(),
    {
        let batch_len = self.graph.batches[self.next_batch].len();
        let mut units: Vec<usize> = Vec::new();
        let mut t: usize = 0;
        let ghost batch = self.graph.batches@[self.next_batch as int]@;
        proof {
            assert(batch.subrange(0, 0) =~= Seq::<usize>::empty());
        }
        while t < batch_len
            invariant
                0 <= t <= batch_len,
                self.wf(),
                !self.spec_finished(),
                batch == self.graph.batches@[self.next_batch as int]@,
                batch_len == batch.len(),
                units@ == self.dispatch_of(batch.subrange(0, t as int)),
            decreases batch_len - t,
        {
            let u = self.graph.batches[self.next_batch][t];
            let ghost pre = batch.subrange(0, t as int);
            proof {
                assert(batch.subrange(0, t + 1).drop_last() =~= pre);
                assert(batch.subrange(0, t + 1).last() == batch[t as int]);
            }
            if self.dirty[u] && self.deps_settled_ok(u) {
                units.push(u);
            }
            t = t + 1;
        }
        proof {
            assert(batch.subrange(0, batch.len() as int) =~= batch);
        }
        units
    }

    /// Settles the next batch. Dirty units of the batch with a failed or
    /// blocked dependency are skipped as blocked and never dispatched;
    /// each dispatched unit takes the invoker's result, in dispatch
    /// order; each success writes a fresh record, stamped `now`, to the
    /// store. Every other unit's outcome and every other store entry is
    /// untouched.
    #[verifier::rlimit(100)]
    pub fn finish_batch(
        &mut self,
        dispatched: &Vec<usize>,
        results: &Vec<InvokeOutcome>,
        store: &mut FingerprintStore,
        now: u64,
    )
        requires
            old(self).wf(),
            !old(self).spec_finished(),
            dispatched@ == old(self).spec_dispatch(),
            results@.len() == dispatched@.len(),
        ensures
            final(self).wf(),
            final(self).graph == old(self).graph,
            final(self).current == old(self).current,
            final(self).dirty == old(self).dirty,
            final(self).next_batch == old(self).next_batch + 1,
            forall|p: int|
                0 <= p < dispatched@.len() ==> final(self).outcomes@[#[trigger] dispatched@[p] as int]
                    == Some(outcome_of_status(results@[p].status)) && final(self).logs@[dispatched@[p] as int]
                    == results@[p].output,
            forall|t: int|
                0 <= t < old(self).graph.batches@[old(self).next_batch as int]@.len()
                    && old(self).dirty@[#[trigger] old(self).graph.batches@[old(self).next_batch as int]@[t] as int]
                    && !old(self).unit_ready(
                    old(self).graph.batches@[old(self).next_batch as int]@[t] as int,
                ) ==> final(self).outcomes@[old(self).graph.batches@[old(self).next_batch as int]@[t] as int]
                    == Some(Outcome::SkippedBlocked),
            forall|i: int|
                0 <= i < old(self).n() && (old(self).graph.level@[i] as int) != old(self).next_batch
                    ==> final(self).outcomes@[i] == old(self).outcomes@[i] && final(self).logs@[i]
                    == old(self).logs@[i],
            forall|p: int|
                0 <= p < dispatched@.len() && results@[p].status == InvokeStatus::Succeeded
                    ==> match stored_record(
                    final(store).records@,
                    old(self).graph.ids@[#[trigger] dispatched@[p] as int]@,
                ) {
                    Some(rec) => fresh_record(
                        old(self).graph,
                        old(self).current@,
                        dispatched@[p] as int,
                        rec,
                    ) && rec.built_at == now,
                    None => false,
                },
            forall|id: Seq<char>|
                stored_record(#[trigger] final(store).records@, id) == stored_record(
                    old(store).records@,
                    id,
                ) || exists|p: int|
                    0 <= p < dispatched@.len() && results@[p].status == InvokeStatus::Succeeded
                        && old(self).graph.ids@[dispatched@[p] as int]@ == id,
    {
        let ghost s0 = *self;
        let ghost batch = self.graph.batches@[self.next_batch as int]@;
        let ghost b = self.next_batch as int;
        let n_units = self.graph.ids.len();
        proof {
            assert(s0.n() <= usize::MAX);
            lemma_dispatch_of_props(s0, batch);
        }
        // first pass: skip the batch's blocked units
        let bl = self.graph.batches[self.next_batch].len();
        let mut t: usize = 0;
        while t < bl
            invariant
                0 <= t <= bl,
                s0.wf(),
                !s0.spec_finished(),
                self.graph == s0.graph,
                self.current == s0.current,
                self.dirty == s0.dirty,
                self.logs == s0.logs,
                self.next_batch == s0.next_batch,
                b == s0.next_batch as int,
                batch == s0.graph.batches@[b]@,
                bl == batch.len(),
                s0.n() <= usize::MAX,
                self.outcomes@.len() == s0.n(),
                forall|i: int|
                    0 <= i < s0.n() && (s0.graph.level@[i] as int) != b ==> self.outcomes@[i]
                        == s0.outcomes@[i],
                forall|t2: int|
                    0 <= t2 < t && s0.dirty@[#[trigger] batch[t2] as int] && !s0.unit_ready(
                        batch[t2] as int,
                    ) ==> self.outcomes@[batch[t2] as int] == Some(Outcome::SkippedBlocked),
                forall|t2: int|
                    0 <= t2 < t && !(s0.dirty@[#[trigger] batch[t2] as int] && !s0.unit_ready(
                        batch[t2] as int,
                    )) ==> self.outcomes@[batch[t2] as int] == s0.outcomes@[batch[t2] as int],
                forall|t2: int|
                    t <= t2 < bl ==> self.outcomes@[#[trigger] batch[t2] as int] == s0.outcomes@[batch[t2] as int],
            decreases bl - t,
        {
            let u = self.graph.batches[self.next_batch][t];
            proof {
                assert(batch[t as int] == u);
                assert((s0.graph.level@[u as int] as int) == b);
                assert forall|k: int| 0 <= k < self.graph.deps@[u as int]@.len() implies
                    self.outcomes@[#[trigger] self.graph.deps@[u as int]@[k] as int]
                        == s0.outcomes@[self.graph.deps@[u as int]@[k] as int] by {
                    assert((s0.graph.level@[self.graph.deps@[u as int]@[k] as int] as int) < b);
                }
            }
            if self.dirty[u] && !self.deps_settled_ok(u) {
                self.outcomes[u] = Some(Outcome::SkippedBlocked);
            }
            t = t + 1;
        }
        // second pass: settle the dispatched units with their results
        let ghost s1 = *self;
        let ghost old_store = *store;
        let dn = dispatched.len();
        let mut p: usize = 0;
        while p < dn
            invariant
                0 <= p <= dn,
                s0.wf(),
                !s0.spec_finished(),
                self.graph == s0.graph,
                self.current == s0.current,
                self.dirty == s0.dirty,
                self.next_batch == s0.next_batch,
                b == s0.next_batch as int,
                batch == s0.graph.batches@[b]@,
                dn == dispatched@.len(),
                results@.len() == dn,
                dispatched@ == s0.spec_dispatch(),
                s0.n() <= usize::MAX,
                s1.graph == s0.graph,
                self.outcomes@.len() == s0.n(),
                self.logs@.len() == s0.n(),
                s1.outcomes@.len() == s0.n(),
                s1.logs@ == s0.logs@,
                forall|p2: int|
                    0 <= p2 < dn ==> (#[trigger] dispatched@[p2] as int) < s0.n() && seq_has(
                        batch,
                        dispatched@[p2],
                    ) && s0.unit_ready(dispatched@[p2] as int),
                forall|p1: int, p2: int| 0 <= p1 < p2 < dn ==> dispatched@[p1] != dispatched@[p2],
                forall|p2: int|
                    0 <= p2 < dn ==> s1.outcomes@[#[trigger] dispatched@[p2] as int] is None,
                forall|p2: int|
                    0 <= p2 < p ==> self.outcomes@[#[trigger] dispatched@[p2] as int] == Some(
                        outcome_of_status(results@[p2].status),
                    ) && self.logs@[dispatched@[p2] as int] == results@[p2].output,
                forall|i: int|
                    0 <= i < s0.n() ==> self.outcomes@[i] == s1.outcomes@[i] && self.logs@[i]
                        == s1.logs@[i] || exists|p2: int| 0 <= p2 < p && (dispatched@[p2] as int) == i,
                forall|p2: int|
                    0 <= p2 < p && results@[p2].status == InvokeStatus::Succeeded
                        ==> match stored_record(
                        store.records@,
                        s0.graph.ids@[#[trigger] dispatched@[p2] as int]@,
                    ) {
                        Some(rec) => fresh_record(s0.graph, s0.current@, dispatched@[p2] as int, rec)
                            && rec.built_at == now,
                        None => false,
                    },
                forall|id: Seq<char>|
                    stored_record(#[trigger] store.records@, id) == stored_record(
                        old_store.records@,
                        id,
                    ) || exists|p2: int|
                        0 <= p2 < p && results@[p2].status == InvokeStatus::Succeeded
                            && s0.graph.ids@[dispatched@[p2] as int]@ == id,
            decreases dn - p,
        {
            let u = dispatched[p];
            let oc = match results[p].status {
                InvokeStatus::Succeeded => Outcome::Success,
                InvokeStatus::CompileFailed => Outcome::Failed(FailureKind::Compilation),
                InvokeStatus::InvokerFailed => Outcome::Failed(FailureKind::Invoker),
            };
            self.outcomes[u] = Some(oc);
            self.logs[u] = results[p].output.clone();
            match results[p].status {
                InvokeStatus::Succeeded => {
                    let rec = make_record(&self.graph, u, &self.current, now);
                    store.record(rec);
                    proof {
                        assert forall|p2: int|
                            0 <= p2 < p && results@[p2].status == InvokeStatus::Succeeded
                                implies s0.graph.ids@[#[trigger] dispatched@[p2] as int]@
                                != s0.graph.ids@[u as int]@ by {
                            let a = dispatched@[p2] as int;
                            let c = u as int;
                            assert(a != c);
                            if a < c {
                                assert(s0.graph.ids@[a]@ != s0.graph.ids@[c]@);
                            } else {
                                assert(s0.graph.ids@[c]@ != s0.graph.ids@[a]@);
                            }
                        }
                    }
                },
                _ => {},
            }
            p = p + 1;
        }
        let nb_total = self.graph.batches.len();
        proof {
            assert((self.next_batch as int) < nb_total as int);
        }
        self.next_batch = self.next_batch + 1;
        proof {
            lemma_dispatch_of_props(s0, batch);
            let sf = *self;
            // units outside this batch are untouched
            assert forall|i: int|
                0 <= i < s0.n() && (s0.graph.level@[i] as int) != b implies sf.outcomes@[i]
                    == s0.outcomes@[i] && sf.logs@[i] == s0.logs@[i] by {
                if exists|p2: int| 0 <= p2 < dn && (dispatched@[p2] as int) == i {
                    let p2 = choose|p2: int| 0 <= p2 < dn && (dispatched@[p2] as int) == i;
                    assert(seq_has(batch, dispatched@[p2]));
                    let t0 = choose|t0: int| 0 <= t0 < batch.len() && batch[t0] == dispatched@[p2];
                    assert((s0.graph.level@[i] as int) == b);
                } else {
                    assert(sf.outcomes@[i] == s1.outcomes@[i] && sf.logs@[i] == s1.logs@[i]);
                    assert((s0.graph.level@[i] as int) != b);
                    assert(s1.outcomes@[i] == s0.outcomes@[i]);
                }
            }
            // the batch's blocked units stay blocked through the second pass
            assert forall|t2: int|
                0 <= t2 < batch.len() && s0.dirty@[#[trigger] batch[t2] as int] && !s0.unit_ready(
                    batch[t2] as int,
                ) implies sf.outcomes@[batch[t2] as int] == Some(Outcome::SkippedBlocked) by {
                let i = batch[t2] as int;
                assert(s1.outcomes@[i] == Some(Outcome::SkippedBlocked));
                if exists|p2: int| 0 <= p2 < dn && (dispatched@[p2] as int) == i {
                    let p2 = choose|p2: int| 0 <= p2 < dn && (dispatched@[p2] as int) == i;
                    assert(s0.unit_ready(i));
                } else {
                    assert(sf.outcomes@[i] == s1.outcomes@[i]);
                }
            }
            // every batch unit is settled now
            assert forall|i: int|
                0 <= i < s0.n() implies (sf.outcomes@[i] is None <==> sf.dirty@[i] && (
                sf.graph.level@[i] as int) >= sf.next_batch) by {
                let lv = s0.graph.level@[i] as int;
                if lv == b {
                    assert(seq_has(batch, i as usize));
                    let t0 = choose|t0: int| 0 <= t0 < batch.len() && (batch[t0] as int) == i;
                    if s0.dirty@[i] {
                        if s0.unit_ready(i) {
                            assert(seq_has(dispatched@, batch[t0]));
                            let p2 = choose|p2: int|
                                0 <= p2 < dispatched@.len() && dispatched@[p2] == batch[t0];
                            assert(sf.outcomes@[i] == Some(outcome_of_status(results@[p2].status)));
                        } else {
                            assert(sf.outcomes@[i] == Some(Outcome::SkippedBlocked));
                        }
                    } else {
                        assert(s1.outcomes@[i] == s0.outcomes@[i]);
                        if exists|p2: int| 0 <= p2 < dn && (dispatched@[p2] as int) == i {
                            let p2 = choose|p2: int| 0 <= p2 < dn && (dispatched@[p2] as int) == i;
                            assert(s0.unit_ready(i));
                        } else {
                            assert(sf.outcomes@[i] == s1.outcomes@[i]);
                        }
                    }
                } else if lv < b {
                    assert(sf.outcomes@[i] == s0.outcomes@[i]);
                    assert(s0.outcomes@[i] is Some);
                } else {
                    assert(sf.outcomes@[i] == s0.outcomes@[i]);
                }
            }
            // dependencies of any unit keep their outcomes whenever they sit
            // in earlier batches; blocked and built units' dependency facts carry over
            assert forall|i: int|
                0 <= i < s0.n() && sf.outcomes@[i] == Some(Outcome::SkippedBlocked) implies sf.dirty@[i]
                    && exists|k: int|
                    0 <= k < sf.graph.deps@[i]@.len() && settled_bad(
                        sf.outcomes@[#[trigger] sf.graph.deps@[i]@[k] as int],
                    ) by {
                let lv = s0.graph.level@[i] as int;
                if lv == b {
                    assert(seq_has(batch, i as usize));
                    if s0.dirty@[i] && !s0.unit_ready(i) {
                        let k0 = choose|k: int|
                            0 <= k < s0.graph.deps@[i]@.len() && !settled_ok(
                                s0.outcomes@[#[trigger] s0.graph.deps@[i]@[k] as int],
                            );
                        let dd = s0.graph.deps@[i]@[k0] as int;
                        assert((s0.graph.level@[dd] as int) < b);
                        assert(sf.outcomes@[dd] == s0.outcomes@[dd]);
                        assert(s0.outcomes@[dd] is Some);
                        assert(settled_bad(sf.outcomes@[dd]));
                        assert(0 <= k0 < sf.graph.deps@[i]@.len() && settled_bad(
                            sf.outcomes@[sf.graph.deps@[i]@[k0] as int],
                        ));
                    } else if s0.dirty@[i] && s0.unit_ready(i) {
                        let t0 = choose|t0: int| 0 <= t0 < batch.len() && (batch[t0] as int) == i;
                        assert(seq_has(dispatched@, batch[t0]));
                        let p2 = choose|p2: int|
                            0 <= p2 < dispatched@.len() && dispatched@[p2] == batch[t0];
                        assert(sf.outcomes@[i] == Some(outcome_of_status(results@[p2].status)));
                        assert(false);
                    } else {
                        assert(s1.outcomes@[i] == s0.outcomes@[i]);
                        if exists|p2: int| 0 <= p2 < dn && (dispatched@[p2] as int) == i {
                            let p2 = choose|p2: int| 0 <= p2 < dn && (dispatched@[p2] as int) == i;
                            assert(s0.unit_ready(i));
                            assert(false);
                        }
                        assert(sf.outcomes@[i] == s0.outcomes@[i]);
                        assert(false);
                    }
                } else {
                    assert(sf.outcomes@[i] == s0.outcomes@[i]);
                    let k0 = choose|k: int|
                        0 <= k < s0.graph.deps@[i]@.len() && settled_bad(
                            s0.outcomes@[#[trigger] s0.graph.deps@[i]@[k] as int],
                        );
                    let dd = s0.graph.deps@[i]@[k0] as int;
                    assert((s0.graph.level@[dd] as int) < lv);
                    assert(s0.outcomes@[dd] is Some);
                    assert(lv < b ==> (s0.graph.level@[dd] as int) < b);
                    if lv > b {
                        if (s0.graph.level@[dd] as int) == b {
                            assert(s0.outcomes@[dd] is Some);
                            assert(!(s0.dirty@[dd] && (s0.graph.level@[dd] as int) >= b));
                            assert(!s0.dirty@[dd]);
                            assert(s0.outcomes@[dd] == Some(Outcome::SkippedUnchanged));
                            assert(false);
                        }
                    }
                    assert((s0.graph.level@[dd] as int) != b);
                    assert(sf.outcomes@[dd] == s0.outcomes@[dd]);
                    assert(0 <= k0 < sf.graph.deps@[i]@.len() && settled_bad(
                        sf.outcomes@[sf.graph.deps@[i]@[k0] as int],
                    ));
                }
            }
            assert forall|i: int|
                0 <= i < s0.n() && (sf.outcomes@[i] == Some(Outcome::Success) || sf.outcomes@[i]
                    matches Some(Outcome::Failed(_))) implies sf.dirty@[i] && (forall|k: int|
                    0 <= k < sf.graph.deps@[i]@.len() ==> settled_ok(
                        sf.outcomes@[#[trigger] sf.graph.deps@[i]@[k] as int],
                    )) by {
                let lv = s0.graph.level@[i] as int;
                if lv == b {
                    assert(seq_has(batch, i as usize));
                    if s0.dirty@[i] && !s0.unit_ready(i) {
                        assert(sf.outcomes@[i] == Some(Outcome::SkippedBlocked));
                        assert(false);
                    } else if s0.dirty@[i] && s0.unit_ready(i) {
                        assert forall|k: int| 0 <= k < sf.graph.deps@[i]@.len() implies settled_ok(
                            sf.outcomes@[#[trigger] sf.graph.deps@[i]@[k] as int],
                        ) by {
                            let dd = sf.graph.deps@[i]@[k] as int;
                            assert((s0.graph.level@[dd] as int) < b);
                            assert(sf.outcomes@[dd] == s0.outcomes@[dd]);
                            assert(settled_ok(s0.outcomes@[dd]));
                        }
                    } else {
                        assert(s1.outcomes@[i] == s0.outcomes@[i]);
                        if exists|p2: int| 0 <= p2 < dn && (dispatched@[p2] as int) == i {
                            let p2 = choose|p2: int| 0 <= p2 < dn && (dispatched@[p2] as int) == i;
                            assert(s0.unit_ready(i));
                            assert(false);
                        }
                        assert(sf.outcomes@[i] == s0.outcomes@[i]);
                        assert(s0.outcomes@[i] == Some(Outcome::SkippedUnchanged) || s0.outcomes@[i] is None);
                        assert(false);
                    }
                } else {
                    assert(sf.outcomes@[i] == s0.outcomes@[i]);
                    assert forall|k: int| 0 <= k < sf.graph.deps@[i]@.len() implies settled_ok(
                        sf.outcomes@[#[trigger] sf.graph.deps@[i]@[k] as int],
                    ) by {
                        let dd = sf.graph.deps@[i]@[k] as int;
                        assert(settled_ok(s0.outcomes@[dd]));
                        assert((s0.graph.level@[dd] as int) < lv);
                        if (s0.graph.level@[dd] as int) == b {
                            assert(s0.outcomes@[dd] is Some);
                            assert(!s0.dirty@[dd]);
                            assert(s1.outcomes@[dd] == s0.outcomes@[dd]);
                            if exists|p2: int| 0 <= p2 < dn && (dispatched@[p2] as int) == dd {
                                let p2 = choose|p2: int|
                                    0 <= p2 < dn && (dispatched@[p2] as int) == dd;
                                assert(s0.unit_ready(dd));
                                assert(false);
                            }
                            assert(sf.outcomes@[dd] == s0.outcomes@[dd]);
                        } else {
                            assert(sf.outcomes@[dd] == s0.outcomes@[dd]);
                        }
                    }
                }
            }
        }
    }
}


/// How many outcomes are successes.
pub open spec fn count_success(s: Seq<Outcome>) -> nat
    decreases s.len(),
{
    if s.len() == 0 {
        0
    } else {
        count_success(s.drop_last()) + if s.last() == Outcome::Success {
            1nat
        } else {
            0nat
        }
    }
}

/// How many outcomes are failures of either kind.
pub open spec fn count_failed(s: Seq<Outcome>) -> nat
    decreases s.len(),
{
    if s.len() == 0 {
        0
    } else {
        count_failed(s.drop_last()) + if s.last() matches Outcome::Failed(_) {
            1nat
        } else {
            0nat
        }
    }
}

/// How many outcomes are skipped as unchanged.
pub open spec fn count_unchanged(s: Seq<Outcome>) -> nat
    decreases s.len(),
{
    if s.len() == 0 {
        0
    } else {
        count_unchanged(s.drop_last()) + if s.last() == Outcome::SkippedUnchanged {
            1nat
        } else {
            0nat
        }
    }
}

/// How many outcomes are skipped as blocked.
pub open spec fn count_blocked(s: Seq<Outcome>) -> nat
    decreases s.len(),
{
    if s.len() == 0 {
        0
    } else {
        count_blocked(s.drop_last()) + if s.last() == Outcome::SkippedBlocked {
            1nat
        } else {
            0nat
        }
    }
}

/// The read-only summary of a finished run: one outcome and one captured
/// log per unit, the tallies, whether the build failed as a whole, the
/// wall-clock duration, and whether loading the persisted store failed
/// (that is a warning, never an error: the run then treated every unit
/// as dirty).
#[derive(Debug)]
pub struct BuildReport {
    pub outcomes: Vec<Outcome>,
    pub logs: Vec<String>,
    pub succeeded: usize,
    pub failed: usize,
    pub skipped_unchanged: usize,
    pub skipped_blocked: usize,
    pub overall_failed: bool,
    pub duration_ms: u64,
    pub store_warning: bool,
}

impl BuildSession {
    /// Draws the report of a finished run: every unit's terminal
    /// outcome, the tallies, and overall failure exactly when at least
    /// one unit failed.
    pub fn report(&self, duration_ms: u64, store_warning: bool) -> (rep: BuildReport)
        requires
            self.wf(),
            self.spec_finished(),
        ensures
            rep.outcomes@.len() == self.n(),
            forall|i: int| 0 <= i < self.n() ==> Some(#[trigger] rep.outcomes@[i]) == self.outcomes@[i],
            rep.logs@ == self.logs@,
            rep.succeeded == count_success(rep.outcomes@),
            rep.failed == count_failed(rep.outcomes@),
            rep.skipped_unchanged == count_unchanged(rep.outcomes@),
            rep.skipped_blocked == count_blocked(rep.outcomes@),
            rep.overall_failed == exists|i: int|
                0 <= i < self.n() && #[trigger] self.outcomes@[i] matches Some(Outcome::Failed(_)),
            rep.duration_ms == duration_ms,
            rep.store_warning == store_warning,
    {
        let n = self.graph.ids.len();
        let mut outcomes: Vec<Outcome> = Vec::new();
        let mut succeeded: usize = 0;
        let mut failed: usize = 0;
        let mut skipped_unchanged: usize = 0;
        let mut skipped_blocked: usize = 0;
        let mut overall_failed = false;
        let mut i: usize = 0;
        proof {
            assert(outcomes@.subrange(0, 0) =~= Seq::<Outcome>::empty());
        }
        while i < n
            invariant
                0 <= i <= n,
                self.wf(),
                self.spec_finished(),
                n == self.n(),
                outcomes@.len() == i,
                forall|j: int| 0 <= j < i ==> Some(#[trigger] outcomes@[j]) == self.outcomes@[j],
                succeeded + failed + skipped_unchanged + skipped_blocked == i,
                succeeded == count_success(outcomes@),
                failed == count_failed(outcomes@),
                skipped_unchanged == count_unchanged(outcomes@),
                skipped_blocked == count_blocked(outcomes@),
                overall_failed == exists|j: int|
                    0 <= j < i && #[trigger] self.outcomes@[j] matches Some(Outcome::Failed(_)),
            decreases n - i,
        {
            proof {
                assert(self.outcomes@[i as int] is Some);
            }
            let oc = match self.outcomes[i] {
                Some(oc) => oc,
                None => vstd::pervasive::unreached(),
            };
            let ghost pre = outcomes@;
            outcomes.push(oc);
            proof {
                assert(outcomes@.drop_last() =~= pre);
            }
            match oc {
                Outcome::Success => {
                    succeeded = succeeded + 1;
                },
                Outcome::Failed(_) => {
                    failed = failed + 1;
                    overall_failed = true;
                },
                Outcome::SkippedUnchanged => {
                    skipped_unchanged = skipped_unchanged + 1;
                },
                Outcome::SkippedBlocked => {
                    skipped_blocked = skipped_blocked + 1;
                },
            }
            i = i + 1;
        }
        BuildReport {
            outcomes,
            logs: clone_strings(&self.logs),
            succeeded,
            failed,
            skipped_unchanged,
            skipped_blocked,
            overall_failed,
            duration_ms,
            store_warning,
        }
    }
}

/// A copy of a list of strings, equal element by element.
fn clone_strings(strings: &Vec<String>) -> (copy: Vec<String>)
    ensures
        copy@ == strings@,
{
    let n = strings.len();
    let mut copy: Vec<String> = Vec::new();
    let mut i: usize = 0;
    while i < n
        invariant
            0 <= i <= n,
            n == strings@.len(),
            copy@ =~= strings@.subrange(0, i as int),
        decreases n - i,
    {
        copy.push(strings[i].clone());
        i = i + 1;
    }
    proof {
        assert(copy@ =~= strings@);
    }
    copy
}

/// Law: failure isolation. In a finished run, a unit was skipped as
/// blocked only when one of its own dependencies failed or was itself
/// blocked; and a dirty unit with no dependencies is never blocked — it
/// reaches success or failure on its own account, however the rest of
/// the graph fared.
pub proof fn lemma_failure_isolation(s: BuildSession)
    requires
        s.wf(),
        s.spec_finished(),
    ensures
        forall|u: int|
            0 <= u < s.n() && s.outcomes@[u] == Some(Outcome::SkippedBlocked) ==> exists|k: int|
                0 <= k < s.graph.deps@[u]@.len() && settled_bad(
                    s.outcomes@[#[trigger] s.graph.deps@[u]@[k] as int],
                ),
        forall|u: int|
            0 <= u < s.n() && s.dirty@[u] && s.graph.deps@[u]@.len() == 0 ==> (s.outcomes@[u] == Some(
                Outcome::Success,
            ) || s.outcomes@[u] matches Some(Outcome::Failed(_))),
{
    assert forall|u: int|
        0 <= u < s.n() && s.dirty@[u] && s.graph.deps@[u]@.len() == 0 implies (s.outcomes@[u] == Some(
        Outcome::Success,
    ) || s.outcomes@[u] matches Some(Outcome::Failed(_))) by {
        assert((s.graph.level@[u] as int) < s.graph.batches@.len());
        assert(s.outcomes@[u] is Some);
        if s.outcomes@[u] == Some(Outcome::SkippedBlocked) {
            assert(false);
        }
    }
}

/// Everything `dispatch_of` names is a ready unit of the batch; every
/// ready unit of the batch is named; and with a duplicate-free batch the
/// dispatch list is duplicate-free.
proof fn lemma_dispatch_of_props(s: BuildSession, batch: Seq<usize>)
    ensures
        forall|p: int|
            0 <= p < s.dispatch_of(batch).len() ==> seq_has(batch, #[trigger] s.dispatch_of(batch)[p])
                && s.unit_ready(s.dispatch_of(batch)[p] as int),
        forall|t: int|
            0 <= t < batch.len() && s.unit_ready(#[trigger] batch[t] as int) ==> seq_has(
                s.dispatch_of(batch),
                batch[t],
            ),
        (forall|t1: int, t2: int| 0 <= t1 < t2 < batch.len() ==> batch[t1] != batch[t2]) ==> (forall|
            p1: int,
            p2: int,
        |
            0 <= p1 < p2 < s.dispatch_of(batch).len() ==> s.dispatch_of(batch)[p1] != s.dispatch_of(
                batch,
            )[p2]),
    decreases batch.len(),
{
    if batch.len() > 0 {
        let pre = batch.drop_last();
        lemma_dispatch_of_props(s, pre);
        let d = s.dispatch_of(batch);
        let dp = s.dispatch_of(pre);
        assert forall|p: int| 0 <= p < d.len() implies seq_has(batch, #[trigger] d[p])
            && s.unit_ready(d[p] as int) by {
            if p < dp.len() {
                assert(seq_has(pre, dp[p]));
                let t0 = choose|t: int| 0 <= t < pre.len() && pre[t] == dp[p];
                assert(batch[t0] == dp[p]);
            } else {
                assert(batch[batch.len() - 1] == batch.last());
            }
        }
        assert forall|t: int|
            0 <= t < batch.len() && s.unit_ready(#[trigger] batch[t] as int) implies seq_has(
            d,
            batch[t],
        ) by {
            if t < batch.len() - 1 {
                assert(pre[t] == batch[t]);
                assert(seq_has(dp, pre[t]));
                let p0 = choose|p: int| 0 <= p < dp.len() && dp[p] == pre[t];
                assert(d[p0] == batch[t]);
            } else {
                assert(d[d.len() - 1] == batch.last());
            }
        }
        if forall|t1: int, t2: int| 0 <= t1 < t2 < batch.len() ==> batch[t1] != batch[t2] {
            assert forall|t1: int, t2: int| 0 <= t1 < t2 < pre.len() implies pre[t1] != pre[t2] by {
                assert(batch[t1] == pre[t1] && batch[t2] == pre[t2]);
            }
            assert forall|p1: int, p2: int| 0 <= p1 < p2 < d.len() implies d[p1] != d[p2] by {
                if p2 < dp.len() {
                } else if s.unit_ready(batch.last() as int) && p2 == dp.len() {
                    // the last element is new: it cannot occur among the
                    // earlier batch entries, hence not in dp
                    assert(seq_has(pre, dp[p1]));
                    let t0 = choose|t: int| 0 <= t < pre.len() && pre[t] == dp[p1];
                    assert(batch[t0] == dp[p1]);
                    assert(batch[batch.len() - 1] == batch.last());
                }
            }
        }
    }
}


} // verus!
