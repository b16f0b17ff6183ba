//! The dirty set: which units must be rebuilt this run.
//!
//! A unit is dirty when it has no fingerprint record, when its own
//! content fingerprint differs from the recorded one, when a
//! dependency's current fingerprint differs from the one recorded at the
//! unit's last build, or when any dependency is itself dirty — so
//! dirtiness propagates forward through the graph and no unit is ever
//! built against stale dependency output.

use vstd::prelude::*;

use crate::fingerprint::{dep_fp_of, stored_record, DepFingerprint, FingerprintRecord, FingerprintStore};
use crate::graph::{repeat_false, DepGraph};

verus! {

/// A unit is dirty on its own account: it has no record, its content
/// fingerprint changed, or some dependency's current fingerprint differs
/// from the one recorded when this unit was last built.
pub open spec fn base_dirty(g: DepGraph, store: Seq<FingerprintRecord>, current: Seq<u64>, i: int) -> bool {
    match stored_record(store, g.ids@[i]@) {
        None => true,
        Some(rec) => {
            ||| rec.fingerprint != current[i]
            ||| exists|k: int|
                0 <= k < g.deps@[i]@.len() && dep_fp_of(
                    rec.dep_fingerprints@,
                    g.ids@[#[trigger] g.deps@[i]@[k] as int]@,
                ) != Some(current[g.deps@[i]@[k] as int])
        },
    }
}

/// A unit is dirty when it is dirty on its own account or any of its
/// dependencies is dirty.
pub open spec fn spec_dirty(g: DepGraph, store: Seq<FingerprintRecord>, current: Seq<u64>, i: int) -> bool
    decreases g.level@[i]
        when g.wf() && 0 <= i < g.n()
{
    base_dirty(g, store, current, i) || exists|k: int|
        0 <= k < g.deps@[i]@.len() && spec_dirty(
            g,
            store,
            current,
            #[trigger] g.deps@[i]@[k] as int,
        )
}

/// Looks up the fingerprint recorded for dependency `id`.
pub fn lookup_dep_fp(entries: &Vec<DepFingerprint>, id: &String) -> (found: Option<u64>)
    ensures
        found == dep_fp_of(entries@, id@),
{
    let n = entries.len();
    let mut i: usize = 0;
    proof {
        assert(entries@.skip(0) =~= entries@);
    }
    while i < n
        invariant
            0 <= i <= n,
            n == entries@.len(),
            dep_fp_of(entries@.skip(i as int), id@) == dep_fp_of(entries@, id@),
        decreases n - i,
    {
        proof {
            assert(entries@.skip(i as int)[0] == entries@[i as int]);
            assert(entries@.skip(i as int).drop_first() =~= entries@.skip(i + 1));
        }
        if entries[i].id == *id {
            return Some(entries[i].fingerprint);
        }
        i = i + 1;
    }
    proof {
        assert(entries@.skip(i as int) =~= Seq::<DepFingerprint>::empty());
    }
    None
}

/// Whether unit `u` is dirty on its own account.
fn unit_base_dirty(g: &DepGraph, store: &FingerprintStore, current: &Vec<u64>, u: usize) -> (dirty: bool)
    requires
        g.wf(),
        current@.len() == g.n(),
        (u as int) < g.n(),
    ensures
        dirty == base_dirty(*g, store.records@, current@, u as int),
{
    let rec = match store.load(&g.ids[u]) {
        None => {
            return true;
        },
        Some(rec) => rec,
    };
    if rec.fingerprint != current[u] {
        return true;
    }
    let m = g.deps[u].len();
    let mut k: usize = 0;
    while k < m
        invariant
            0 <= k <= m,
            g.wf(),
            current@.len() == g.n(),
            (u as int) < g.n(),
            m == g.deps@[u as int]@.len(),
            stored_record(store.records@, g.ids@[u as int]@) == Some(*rec),
            rec.fingerprint == current@[u as int],
            forall|k2: int|
                0 <= k2 < k ==> dep_fp_of(
                    rec.dep_fingerprints@,
                    g.ids@[#[trigger] g.deps@[u as int]@[k2] as int]@,
                ) == Some(current@[g.deps@[u as int]@[k2] as int]),
        decreases m - k,
    {
        let dj = g.deps[u][k];
        match lookup_dep_fp(&rec.dep_fingerprints, &g.ids[dj]) {
            None => {
                return true;
            },
            Some(fp) => {
                if fp != current[dj] {
                    return true;
                }
            },
        }
        k = k + 1;
    }
    false
}

/// Computes the dirty set: `dirty[i]` holds exactly when unit `i` must
/// be rebuilt this run.
pub fn compute_dirty(g: &DepGraph, store: &FingerprintStore, current: &Vec<u64>) -> (dirty: Vec<bool>)
    requires
        g.wf(),
        current@.len() == g.n(),
    ensures
        dirty@.len() == g.n(),
        forall|i: int| 0 <= i < g.n() ==> dirty@[i] == spec_dirty(*g, store.records@, current@, i),
{
    let n = g.ids.len();
    let mut dirty: Vec<bool> = repeat_false(n);
    let nb = g.batches.len();
    let mut b: usize = 0;
    while b < nb
        invariant
            0 <= b <= nb,
            g.wf(),
            current@.len() == g.n(),
            n == g.n(),
            nb == g.batches@.len(),
            dirty@.len() == n,
            forall|i: int|
                0 <= i < n && (g.level@[i] as int) < b ==> dirty@[i] == spec_dirty(
                    *g,
                    store.records@,
                    current@,
                    i,
                ),
        decreases nb - b,
    {
        let m = g.batches[b].len();
        let mut t: usize = 0;
        while t < m
            invariant
                0 <= t <= m,
                0 <= b < nb,
                g.wf(),
                current@.len() == g.n(),
                n == g.n(),
                nb == g.batches@.len(),
                m == g.batches@[b as int]@.len(),
                dirty@.len() == n,
                forall|i: int|
                    0 <= i < n && (g.level@[i] as int) < b ==> dirty@[i] == spec_dirty(
                        *g,
                        store.records@,
                        current@,
                        i,
                    ),
                forall|t2: int|
                    0 <= t2 < t ==> dirty@[#[trigger] g.batches@[b as int]@[t2] as int]
                        == spec_dirty(*g, store.records@, current@, g.batches@[b as int]@[t2] as int),
            decreases m - t,
        {
            let u = g.batches[b][t];
            let own = unit_base_dirty(g, store, current, u);
            let md = g.deps[u].len();
            let mut k: usize = 0;
            let mut dep_dirty = false;
            while k < md
                invariant
                    0 <= k <= md,
                    g.wf(),
                    n == g.n(),
                    (u as int) < n,
                    md == g.deps@[u as int]@.len(),
                    dirty@.len() == n,
                    dep_dirty == exists|k2: int|
                        0 <= k2 < k && dirty@[#[trigger] g.deps@[u as int]@[k2] as int],
                decreases md - k,
            {
                if dirty[g.deps[u][k]] {
                    dep_dirty = true;
                }
                k = k + 1;
            }
            proof {
                // the dependencies sit in earlier batches, so their entries
                // already agree with the specification
                assert((g.level@[u as int] as int) == b);
                assert forall|k2: int| 0 <= k2 < md implies dirty@[#[trigger] g.deps@[u as int]@[k2] as int]
                    == spec_dirty(*g, store.records@, current@, g.deps@[u as int]@[k2] as int) by {
                    assert((g.level@[g.deps@[u as int]@[k2] as int] as int) < b);
                }
            }
            let val = own || dep_dirty;
            proof {
                assert(spec_dirty(*g, store.records@, current@, u as int) == (base_dirty(
                    *g,
                    store.records@,
                    current@,
                    u as int,
                ) || exists|k2: int|
                    0 <= k2 < g.deps@[u as int]@.len() && spec_dirty(
                        *g,
                        store.records@,
                        current@,
                        #[trigger] g.deps@[u as int]@[k2] as int,
                    )));
            }
            dirty[u] = val;
            t = t + 1;
        }
        b = b + 1;
        proof {
            assert forall|i: int| 0 <= i < n && (g.level@[i] as int) < b implies dirty@[i]
                == spec_dirty(*g, store.records@, current@, i) by {
                if (g.level@[i] as int) == b - 1 {
                    let t2 = choose|t2: int|
                        0 <= t2 < g.batches@[b - 1]@.len() && (#[trigger] g.batches@[b - 1]@[t2] as int) == i;
                    assert(dirty@[g.batches@[b - 1]@[t2] as int] == spec_dirty(
                        *g,
                        store.records@,
                        current@,
                        g.batches@[b - 1]@[t2] as int,
                    ));
                }
            }
        }
    }
    proof {
        assert forall|i: int| 0 <= i < n implies dirty@[i] == spec_dirty(
            *g,
            store.records@,
            current@,
            i,
        ) by {
            assert((g.level@[i] as int) < nb);
        }
    }
    dirty
}

/// The record a successful build of unit `u` leaves behind: the unit's
/// current fingerprint and, per dependency, the dependency's current
/// fingerprint.
pub open spec fn fresh_record(g: DepGraph, current: Seq<u64>, i: int, rec: FingerprintRecord) -> bool {
    &&& rec.id@ == g.ids@[i]@
    &&& rec.fingerprint == current[i]
    &&& forall|k: int|
        0 <= k < g.deps@[i]@.len() ==> dep_fp_of(
            rec.dep_fingerprints@,
            g.ids@[#[trigger] g.deps@[i]@[k] as int]@,
        ) == Some(current[g.deps@[i]@[k] as int])
}

/// The store holds a fresh record for unit `i`.
pub open spec fn has_fresh_record(g: DepGraph, store: Seq<FingerprintRecord>, current: Seq<u64>, i: int) -> bool {
    match stored_record(store, g.ids@[i]@) {
        Some(rec) => fresh_record(g, current, i, rec),
        None => false,
    }
}

/// In a sequence of entries with pairwise distinct identities, the entry
/// at `k` is what lookup by its identity finds.
proof fn lemma_dep_fp_of_at(entries: Seq<DepFingerprint>, k: int)
    requires
        0 <= k < entries.len(),
        forall|k2: int| 0 <= k2 < k ==> entries[k2].id@ != entries[k].id@,
    ensures
        dep_fp_of(entries, entries[k].id@) == Some(entries[k].fingerprint),
    decreases k,
{
    if k > 0 {
        assert(entries.drop_first() =~= entries.skip(1));
        lemma_dep_fp_of_at(entries.drop_first(), k - 1);
    }
}

/// Builds the fresh record a successful build of unit `u` persists.
pub fn make_record(g: &DepGraph, u: usize, current: &Vec<u64>, now: u64) -> (rec: FingerprintRecord)
    requires
        g.wf(),
        current@.len() == g.n(),
        (u as int) < g.n(),
    ensures
        fresh_record(*g, current@, u as int, rec),
        rec.built_at == now,
{
    let m = g.deps[u].len();
    let mut entries: Vec<DepFingerprint> = Vec::new();
    let mut k: usize = 0;
    while k < m
        invariant
            0 <= k <= m,
            g.wf(),
            current@.len() == g.n(),
            (u as int) < g.n(),
            m == g.deps@[u as int]@.len(),
            entries@.len() == k,
            forall|k2: int|
                0 <= k2 < k ==> #[trigger] entries@[k2].id@ == g.ids@[g.deps@[u as int]@[k2] as int]@
                    && entries@[k2].fingerprint == current@[g.deps@[u as int]@[k2] as int],
        decreases m - k,
    {
        let dj = g.deps[u][k];
        entries.push(DepFingerprint { id: g.ids[dj].clone(), fingerprint: current[dj] });
        k = k + 1;
    }
    let rec = FingerprintRecord {
        id: g.ids[u].clone(),
        fingerprint: current[u],
        built_at: now,
        dep_fingerprints: entries,
    };
    proof {
        assert forall|k2: int| 0 <= k2 < g.deps@[u as int]@.len() implies dep_fp_of(
            rec.dep_fingerprints@,
            g.ids@[#[trigger] g.deps@[u as int]@[k2] as int]@,
        ) == Some(current@[g.deps@[u as int]@[k2] as int]) by {
            assert forall|k3: int| 0 <= k3 < k2 implies rec.dep_fingerprints@[k3].id@
                != rec.dep_fingerprints@[k2].id@ by {
                let d3 = g.deps@[u as int]@[k3] as int;
                let d2 = g.deps@[u as int]@[k2] as int;
                assert(d3 != d2);
                if d3 < d2 {
                    assert(g.ids@[d3]@ != g.ids@[d2]@);
                } else {
                    assert(g.ids@[d2]@ != g.ids@[d3]@);
                }
            }
            lemma_dep_fp_of_at(rec.dep_fingerprints@, k2);
        }
    }
    rec
}

/// Law: a unit that is dirty on its own account is dirty.
pub proof fn lemma_base_dirty_is_dirty(g: DepGraph, store: Seq<FingerprintRecord>, current: Seq<u64>, i: int)
    requires
        g.wf(),
        0 <= i < g.n(),
        base_dirty(g, store, current, i),
    ensures
        spec_dirty(g, store, current, i),
{
}

/// Law: change propagates — a unit with a dirty dependency is dirty,
/// whether or not its own content changed.
pub proof fn lemma_dirty_dep_propagates(g: DepGraph, store: Seq<FingerprintRecord>, current: Seq<u64>, i: int, k: int)
    requires
        g.wf(),
        0 <= i < g.n(),
        0 <= k < g.deps@[i]@.len(),
        spec_dirty(g, store, current, g.deps@[i]@[k] as int),
    ensures
        spec_dirty(g, store, current, i),
{
}

/// Law: change does not propagate backward — a unit whose own record is
/// intact and whose dependencies are all clean stays clean, whatever
/// changed elsewhere in the graph.
pub proof fn lemma_clean_unit(g: DepGraph, store: Seq<FingerprintRecord>, current: Seq<u64>, i: int)
    requires
        g.wf(),
        0 <= i < g.n(),
        !base_dirty(g, store, current, i),
        forall|k: int|
            0 <= k < g.deps@[i]@.len() ==> !spec_dirty(
                g,
                store,
                current,
                #[trigger] g.deps@[i]@[k] as int,
            ),
    ensures
        !spec_dirty(g, store, current, i),
{
}

proof fn lemma_unit_not_dirty(g: DepGraph, store: Seq<FingerprintRecord>, current: Seq<u64>, i: int)
    requires
        g.wf(),
        current.len() == g.n(),
        0 <= i < g.n(),
        forall|j: int| 0 <= j < g.n() ==> !base_dirty(g, store, current, j),
    ensures
        !spec_dirty(g, store, current, i),
    decreases g.level@[i],
{
    assert forall|k: int| 0 <= k < g.deps@[i]@.len() implies !spec_dirty(
        g,
        store,
        current,
        #[trigger] g.deps@[i]@[k] as int,
    ) by {
        lemma_unit_not_dirty(g, store, current, g.deps@[i]@[k] as int);
    }
}

/// Law: a second run with no source changes is idempotent — when every
/// unit's stored record still matches its current fingerprint and its
/// dependencies' current fingerprints, the dirty set is empty, so every
/// unit is skipped as unchanged.
pub proof fn lemma_unchanged_build_all_clean(g: DepGraph, store: Seq<FingerprintRecord>, current: Seq<u64>)
    requires
        g.wf(),
        current.len() == g.n(),
        forall|i: int| 0 <= i < g.n() ==> has_fresh_record(g, store, current, i),
    ensures
        forall|i: int| 0 <= i < g.n() ==> !spec_dirty(g, store, current, i),
{
    assert forall|j: int| 0 <= j < g.n() implies !base_dirty(g, store, current, j) by {
        assert(has_fresh_record(g, store, current, j));
    }
    assert forall|i: int| 0 <= i < g.n() implies !spec_dirty(g, store, current, i) by {
        lemma_unit_not_dirty(g, store, current, i);
    }
}

} // verus!
