//! Build units and the dependency graph over them.
//!
//! A unit declares the identities of the units it depends on. Graph
//! construction resolves those identities, rejects references to unknown
//! units, deduplicates dependency entries, and runs a Kahn-style level
//! computation: either every unit gets a topological batch (units in a
//! batch depend only on strictly earlier batches) or a dependency cycle
//! is found and returned as an ordered list of unit identities.

use vstd::prelude::*;

verus! {

/// One build unit as handed in by the registry: its identity and the
/// identities of the units it depends on.
#[derive(Clone, Debug)]
pub struct Unit {
    pub id: String,
    pub deps: Vec<String>,
}

/// Fatal configuration faults found before anything is dispatched.
#[derive(Debug)]
pub enum ConfigurationError {
    /// A unit declares a dependency on an identity no unit has.
    UnknownDependency(String),
    /// The declared dependencies contain a cycle; the list names units
    /// forming one, in order, each depending on the next and the last
    /// depending on the first.
    Cycle(Vec<String>),
}

/// No two units share an identity.
pub open spec fn ids_unique(units: Seq<Unit>) -> bool {
    forall|i: int, j: int| 0 <= i < j < units.len() ==> units[i].id@ != units[j].id@
}

/// Unit `u` declares a dependency on identity `id`.
pub open spec fn declares_dep(u: Unit, id: Seq<char>) -> bool {
    exists|k: int| 0 <= k < u.deps@.len() && u.deps@[k]@ == id
}

/// Some unit has identity `id`.
pub open spec fn has_unit(units: Seq<Unit>, id: Seq<char>) -> bool {
    exists|i: int| 0 <= i < units.len() && units[i].id@ == id
}

/// Unit `i` declares a dependency on unit `j`'s identity.
pub open spec fn spec_depends(units: Seq<Unit>, i: int, j: int) -> bool {
    declares_dep(units[i], units[j].id@)
}

/// Every declared dependency names a unit of the registry.
pub open spec fn all_deps_known(units: Seq<Unit>) -> bool {
    forall|i: int, k: int|
        0 <= i < units.len() && 0 <= k < units[i].deps@.len() ==> has_unit(units, units[i].deps@[k]@)
}

/// Some declared dependency names `id`, and no unit has it.
pub open spec fn unknown_dep(units: Seq<Unit>, id: Seq<char>) -> bool {
    &&& !has_unit(units, id)
    &&& exists|i: int, k: int|
        0 <= i < units.len() && 0 <= k < units[i].deps@.len() && units[i].deps@[k]@ == id
}

/// The unit with identity `a` declares a dependency on identity `b`.
pub open spec fn id_step(units: Seq<Unit>, a: Seq<char>, b: Seq<char>) -> bool {
    exists|i: int| 0 <= i < units.len() && units[i].id@ == a && declares_dep(units[i], b)
}

/// `c` is an ordered dependency cycle over unit identities: each entry
/// depends on the next, and the last depends on the first.
pub open spec fn id_cycle(units: Seq<Unit>, c: Seq<Seq<char>>) -> bool {
    &&& c.len() >= 1
    &&& forall|t: int| 0 <= t < c.len() - 1 ==> id_step(units, #[trigger] c[t], c[t + 1])
    &&& id_step(units, c[c.len() - 1], c[0])
}

/// The declared dependencies contain a cycle.
pub open spec fn has_cycle(units: Seq<Unit>) -> bool {
    exists|c: Seq<Seq<char>>| id_cycle(units, c)
}

/// The identity views of a list of identities.
pub open spec fn views_of(c: Seq<String>) -> Seq<Seq<char>> {
    c.map_values(|s: String| s@)
}

/// `x` occurs in `s`.
pub open spec fn seq_has(s: Seq<usize>, x: usize) -> bool {
    exists|t: int| 0 <= t < s.len() && s[t] == x
}

/// How many entries of `s` are true.
pub open spec fn num_true(s: Seq<bool>) -> nat
    decreases s.len(),
{
    if s.len() == 0 {
        0
    } else {
        num_true(s.drop_last()) + if s.last() {
            1nat
        } else {
            0nat
        }
    }
}

proof fn lemma_num_true_le(s: Seq<bool>)
    ensures
        num_true(s) <= s.len(),
    decreases s.len(),
{
    if s.len() > 0 {
        lemma_num_true_le(s.drop_last());
    }
}

proof fn lemma_num_true_full(s: Seq<bool>)
    requires
        forall|i: int| 0 <= i < s.len() ==> s[i],
    ensures
        num_true(s) == s.len(),
    decreases s.len(),
{
    if s.len() > 0 {
        lemma_num_true_full(s.drop_last());
    }
}

proof fn lemma_num_true_update(s: Seq<bool>, i: int)
    requires
        0 <= i < s.len(),
        !s[i],
    ensures
        num_true(s.update(i, true)) == num_true(s) + 1,
    decreases s.len(),
{
    let su = s.update(i, true);
    if i == s.len() - 1 {
        assert(su.drop_last() =~= s.drop_last());
    } else {
        assert(su.drop_last() =~= s.drop_last().update(i, true));
        lemma_num_true_update(s.drop_last(), i);
    }
}

/// The levels and batches certify a topological order: every unit sits
/// in exactly the batch its level names, batches hold distinct units,
/// and every dependency's level is strictly smaller than its dependent's.
pub open spec fn batches_wf(deps: Seq<Vec<usize>>, batches: Seq<Vec<usize>>, level: Seq<usize>) -> bool {
    let n = deps.len();
    &&& level.len() == n
    &&& forall|i: int| 0 <= i < n ==> (level[i] as int) < batches.len()
    &&& forall|i: int| 0 <= i < n ==> seq_has(#[trigger] batches[level[i] as int]@, i as usize)
    &&& forall|b: int, t: int|
        0 <= b < batches.len() && 0 <= t < batches[b]@.len() ==> (#[trigger] batches[b]@[t] as int) < n
            && (level[batches[b]@[t] as int] as int) == b
    &&& forall|b: int, t1: int, t2: int|
        0 <= b < batches.len() && 0 <= t1 < t2 < batches[b]@.len() ==> batches[b]@[t1]
            != batches[b]@[t2]
    &&& forall|i: int, k: int|
        0 <= i < n && 0 <= k < deps[i]@.len() ==> (level[#[trigger] deps[i]@[k] as int] as int) < (
        level[i] as int)
}

/// The dependency graph over a registry's units, together with the
/// topological batches its construction certified.
pub struct DepGraph {
    pub ids: Vec<String>,
    pub deps: Vec<Vec<usize>>,
    pub batches: Vec<Vec<usize>>,
    pub level: Vec<usize>,
}

impl DepGraph {
    /// Number of units.
    pub open spec fn n(self) -> int {
        self.ids@.len() as int
    }

    /// Unit `i` depends on unit `j`.
    pub open spec fn edge(self, i: int, j: int) -> bool {
        seq_has(self.deps@[i]@, j as usize)
    }

    /// Well-formed: indices in range, dependency lists deduplicated,
    /// identities unique, and the batches a valid topological order.
    pub open spec fn wf(self) -> bool {
        &&& self.deps@.len() == self.n()
        &&& forall|i: int, k: int|
            0 <= i < self.n() && 0 <= k < self.deps@[i]@.len() ==> (#[trigger] self.deps@[i]@[k] as int)
                < self.n()
        &&& forall|i: int, k1: int, k2: int|
            0 <= i < self.n() && 0 <= k1 < k2 < self.deps@[i]@.len() ==> self.deps@[i]@[k1]
                != self.deps@[i]@[k2]
        &&& forall|i: int, j: int| 0 <= i < j < self.n() ==> self.ids@[i]@ != self.ids@[j]@
        &&& batches_wf(self.deps@, self.batches@, self.level@)
    }

    /// The certified topological batches: all units of a batch depend
    /// only on units of strictly earlier batches, and every unit occurs
    /// in exactly one batch.
    pub fn topological_batches(&self) -> (batches: &Vec<Vec<usize>>)
        requires
            self.wf(),
        ensures
            batches == &self.batches,
            batches_wf(self.deps@, batches@, self.level@),
    {
        &self.batches
    }
}

/// Whether `x` occurs in `s`.
fn vec_has(s: &Vec<usize>, x: usize) -> (found: bool)
    ensures
        found == seq_has(s@, x),
{
    let n = s.len();
    let mut i: usize = 0;
    while i < n
        invariant
            0 <= i <= n,
            n == s@.len(),
            forall|t: int| 0 <= t < i ==> s@[t] != x,
        decreases n - i,
    {
        if s[i] == x {
            return true;
        }
        i = i + 1;
    }
    false
}

/// A vector of `n` false flags.
pub(crate) fn repeat_false(n: usize) -> (v: Vec<bool>)
    ensures
        v@.len() == n,
        forall|i: int| 0 <= i < n ==> !v@[i],
{
    let mut v: Vec<bool> = Vec::new();
    let mut i: usize = 0;
    while i < n
        invariant
            0 <= i <= n,
            v@.len() == i,
            forall|j: int| 0 <= j < i ==> !v@[j],
        decreases n - i,
    {
        v.push(false);
        i = i + 1;
    }
    v
}

/// A vector of `n` zeros.
fn repeat_zero(n: usize) -> (v: Vec<usize>)
    ensures
        v@.len() == n,
{
    let mut v: Vec<usize> = Vec::new();
    let mut i: usize = 0;
    while i < n
        invariant
            v@.len() == i,
            0 <= i <= n,
        decreases n - i,
    {
        v.push(0);
        i = i + 1;
    }
    v
}

/// Index of the unit with identity `name`, if any.
fn find_unit(units: &Vec<Unit>, name: &String) -> (found: Option<usize>)
    ensures
        match found {
            Some(j) => (j as int) < units@.len() && units@[j as int].id@ == name@,
            None => !has_unit(units@, name@),
        },
{
    let n = units.len();
    let mut i: usize = 0;
    while i < n
        invariant
            0 <= i <= n,
            n == units@.len(),
            forall|j: int| 0 <= j < i ==> units@[j].id@ != name@,
        decreases n - i,
    {
        if units[i].id == *name {
            return Some(i);
        }
        i = i + 1;
    }
    None
}

/// Resolves every declared dependency to a unit index, deduplicating
/// entries; fails with the offending identity when a dependency names no
/// unit.
fn resolve(units: &Vec<Unit>) -> (result: Result<Vec<Vec<usize>>, String>)
    requires
        ids_unique(units@),
    ensures
        match result {
            Ok(deps) => {
                let n = units@.len();
                &&& deps@.len() == n
                &&& forall|i: int, k: int|
                    0 <= i < n && 0 <= k < deps@[i]@.len() ==> (#[trigger] deps@[i]@[k] as int) < n
                &&& forall|i: int, k1: int, k2: int|
                    0 <= i < n && 0 <= k1 < k2 < deps@[i]@.len() ==> deps@[i]@[k1] != deps@[i]@[k2]
                &&& forall|i: int, j: int|
                    0 <= i < n && 0 <= j < n ==> (#[trigger] seq_has(deps@[i]@, j as usize)
                        <==> spec_depends(units@, i, j))
                &&& all_deps_known(units@)
            },
            Err(id) => unknown_dep(units@, id@),
        },
{
    let n = units.len();
    let mut deps: Vec<Vec<usize>> = Vec::new();
    let mut i: usize = 0;
    while i < n
        invariant
            0 <= i <= n,
            n == units@.len(),
            ids_unique(units@),
            deps@.len() == i,
            forall|i2: int, k: int|
                0 <= i2 < i && 0 <= k < deps@[i2]@.len() ==> (#[trigger] deps@[i2]@[k] as int) < n,
            forall|i2: int, k1: int, k2: int|
                0 <= i2 < i && 0 <= k1 < k2 < deps@[i2]@.len() ==> deps@[i2]@[k1] != deps@[i2]@[k2],
            forall|i2: int, j: int|
                0 <= i2 < i && 0 <= j < n ==> (#[trigger] seq_has(deps@[i2]@, j as usize)
                    <==> spec_depends(units@, i2, j)),
            forall|i2: int, k: int|
                0 <= i2 < i && 0 <= k < units@[i2].deps@.len() ==> has_unit(
                    units@,
                    units@[i2].deps@[k]@,
                ),
        decreases n - i,
    {
        let m = units[i].deps.len();
        let mut di: Vec<usize> = Vec::new();
        let mut k: usize = 0;
        while k < m
            invariant
                0 <= k <= m,
                0 <= i < n,
                n == units@.len(),
                ids_unique(units@),
                m == units@[i as int].deps@.len(),
                forall|t: int| 0 <= t < di@.len() ==> (#[trigger] di@[t] as int) < n,
                forall|t: int|
                    0 <= t < di@.len() ==> exists|k2: int|
                        0 <= k2 < k && units@[i as int].deps@[k2]@ == units@[#[trigger] di@[t] as int].id@,
                forall|j: int, k2: int|
                    #![trigger units@[j].id@, units@[i as int].deps@[k2]@]
                    0 <= j < n && 0 <= k2 < k && units@[i as int].deps@[k2]@ == units@[j].id@
                        ==> seq_has(di@, j as usize),
                forall|t1: int, t2: int| 0 <= t1 < t2 < di@.len() ==> di@[t1] != di@[t2],
                forall|k2: int| 0 <= k2 < k ==> has_unit(units@, units@[i as int].deps@[k2]@),
            decreases m - k,
        {
            match find_unit(units, &units[i].deps[k]) {
                None => {
                    return Err(units[i].deps[k].clone());
                },
                Some(j) => {
                    let ghost old_di = di@;
                    if !vec_has(&di, j) {
                        di.push(j);
                        proof {
                            assert(di@ =~= old_di.push(j));
                            assert(di@[old_di.len() as int] == j);
                        }
                    }
                    proof {
                        assert(seq_has(di@, j));
                        assert forall|j2: int, k2: int|
                            #![trigger units@[j2].id@, units@[i as int].deps@[k2]@]
                            0 <= j2 < n && 0 <= k2 < k + 1 && units@[i as int].deps@[k2]@
                                == units@[j2].id@ implies seq_has(
                            di@,
                            j2 as usize,
                        ) by {
                            if k2 == k {
                                // identities are unique, so the match is unit j
                                assert(units@[j2].id@ == units@[j as int].id@);
                                assert(j2 == j as int);
                            } else {
                                assert(seq_has(old_di, j2 as usize));
                                let t0 = choose|t: int|
                                    0 <= t < old_di.len() && old_di[t] == j2 as usize;
                                assert(di@[t0] == j2 as usize);
                            }
                        }
                    }
                },
            }
            k = k + 1;
        }
        deps.push(di);
        i = i + 1;
    }
    Ok(deps)
}

/// Whether every entry of `di` is marked done.
fn all_deps_done(di: &Vec<usize>, done: &Vec<bool>) -> (all: bool)
    requires
        forall|k: int| 0 <= k < di@.len() ==> (#[trigger] di@[k] as int) < done@.len(),
    ensures
        all == forall|k: int| 0 <= k < di@.len() ==> done@[#[trigger] di@[k] as int],
{
    let m = di.len();
    let mut k: usize = 0;
    while k < m
        invariant
            0 <= k <= m,
            m == di@.len(),
            forall|k2: int| 0 <= k2 < di@.len() ==> (#[trigger] di@[k2] as int) < done@.len(),
            forall|k2: int| 0 <= k2 < k ==> done@[#[trigger] di@[k2] as int],
        decreases m - k,
    {
        if !done[di[k]] {
            return false;
        }
        k = k + 1;
    }
    true
}

/// Units not yet processed whose dependencies are all processed, in
/// increasing order.
fn collect_ready(deps: &Vec<Vec<usize>>, processed: &Vec<bool>) -> (ready: Vec<usize>)
    requires
        deps@.len() == processed@.len(),
        forall|i: int, k: int|
            0 <= i < deps@.len() && 0 <= k < deps@[i]@.len() ==> (#[trigger] deps@[i]@[k] as int)
                < deps@.len(),
    ensures
        forall|t: int|
            0 <= t < ready@.len() ==> (#[trigger] ready@[t] as int) < deps@.len()
                && !processed@[ready@[t] as int] && (forall|k: int|
                0 <= k < deps@[ready@[t] as int]@.len() ==> processed@[#[trigger] deps@[ready@[t] as int]@[k] as int]),
        forall|t1: int, t2: int| 0 <= t1 < t2 < ready@.len() ==> ready@[t1] != ready@[t2],
        forall|i: int|
            0 <= i < deps@.len() && !processed@[i] && (forall|k: int|
                0 <= k < deps@[i]@.len() ==> processed@[#[trigger] deps@[i]@[k] as int]) ==> seq_has(
                ready@,
                i as usize,
            ),
{
    let n = deps.len();
    let mut ready: Vec<usize> = Vec::new();
    let mut i: usize = 0;
    while i < n
        invariant
            0 <= i <= n,
            n == deps@.len(),
            deps@.len() == processed@.len(),
            forall|i2: int, k: int|
                0 <= i2 < deps@.len() && 0 <= k < deps@[i2]@.len() ==> (#[trigger] deps@[i2]@[k] as int)
                    < deps@.len(),
            forall|t: int| 0 <= t < ready@.len() ==> (#[trigger] ready@[t] as int) < i,
            forall|t: int|
                0 <= t < ready@.len() ==> !processed@[#[trigger] ready@[t] as int] && (forall|k: int|
                    0 <= k < deps@[ready@[t] as int]@.len() ==> processed@[#[trigger] deps@[ready@[t] as int]@[k] as int]),
            forall|t1: int, t2: int| 0 <= t1 < t2 < ready@.len() ==> (ready@[t1] as int) < (ready@[t2] as int),
            forall|i2: int|
                0 <= i2 < i && !processed@[i2] && (forall|k: int|
                    0 <= k < deps@[i2]@.len() ==> processed@[#[trigger] deps@[i2]@[k] as int])
                    ==> seq_has(ready@, i2 as usize),
        decreases n - i,
    {
        let ghost old_ready = ready@;
        if !processed[i] && all_deps_done(&deps[i], processed) {
            ready.push(i);
            proof {
                assert(ready@ =~= old_ready.push(i));
                assert(ready@[old_ready.len() as int] == i);
            }
        }
        proof {
            assert forall|i2: int|
                0 <= i2 < i + 1 && !processed@[i2] && (forall|k: int|
                    0 <= k < deps@[i2]@.len() ==> processed@[#[trigger] deps@[i2]@[k] as int])
                    implies seq_has(ready@, i2 as usize) by {
                if i2 < i {
                    assert(seq_has(old_ready, i2 as usize));
                    let t0 = choose|t: int| 0 <= t < old_ready.len() && old_ready[t] == i2 as usize;
                    assert(ready@[t0] == i2 as usize);
                } else {
                    assert(ready@[ready@.len() - 1] == i2 as usize);
                }
            }
        }
        i = i + 1;
    }
    ready
}

/// Kahn-style level computation: either batches and levels certifying a
/// topological order over all units, or, when it gets stuck, the set of
/// processed units — every unprocessed unit then has an unprocessed
/// dependency.
fn kahn(deps: &Vec<Vec<usize>>) -> (result: Result<(Vec<Vec<usize>>, Vec<usize>), Vec<bool>>)
    requires
        forall|i: int, k: int|
            0 <= i < deps@.len() && 0 <= k < deps@[i]@.len() ==> (#[trigger] deps@[i]@[k] as int)
                < deps@.len(),
    ensures
        match result {
            Ok(r) => batches_wf(deps@, r.0@, r.1@),
            Err(processed) => {
                &&& processed@.len() == deps@.len()
                &&& num_true(processed@) < deps@.len()
                &&& forall|i: int|
                    0 <= i < deps@.len() && !processed@[i] ==> exists|k: int|
                        0 <= k < deps@[i]@.len() && !processed@[deps@[i]@[k] as int]
            },
        },
{
    let n = deps.len();
    let mut processed: Vec<bool> = repeat_false(n);
    let mut level: Vec<usize> = repeat_zero(n);
    let mut batches: Vec<Vec<usize>> = Vec::new();
    let mut done: usize = 0;
    proof {
        lemma_num_true_all_false(processed@);
    }
    while done < n
        invariant
            0 <= done <= n,
            n == deps@.len(),
            processed@.len() == n,
            level@.len() == n,
            forall|i: int, k: int|
                0 <= i < deps@.len() && 0 <= k < deps@[i]@.len() ==> (#[trigger] deps@[i]@[k] as int)
                    < deps@.len(),
            done == num_true(processed@),
            forall|i: int| 0 <= i < n && processed@[i] ==> (#[trigger] level@[i] as int) < batches@.len(),
            forall|i: int|
                0 <= i < n && processed@[i] ==> seq_has(#[trigger] batches@[level@[i] as int]@, i as usize),
            forall|b2: int, t2: int|
                0 <= b2 < batches@.len() && 0 <= t2 < batches@[b2]@.len() ==> (#[trigger] batches@[b2]@[t2] as int)
                    < n && processed@[batches@[b2]@[t2] as int] && (level@[batches@[b2]@[t2] as int] as int)
                    == b2,
            forall|b2: int, t1: int, t2: int|
                0 <= b2 < batches@.len() && 0 <= t1 < t2 < batches@[b2]@.len() ==> batches@[b2]@[t1]
                    != batches@[b2]@[t2],
            forall|i: int, k: int|
                0 <= i < n && processed@[i] && 0 <= k < deps@[i]@.len() ==> processed@[#[trigger] deps@[i]@[k] as int]
                    && (level@[deps@[i]@[k] as int] as int) < (level@[i] as int),
        decreases n - done,
    {
        let ready = collect_ready(deps, &processed);
        if ready.len() == 0 {
            proof {
                assert forall|i: int| 0 <= i < deps@.len() && !processed@[i] implies exists|k: int|
                    0 <= k < deps@[i]@.len() && !processed@[deps@[i]@[k] as int] by {
                    if forall|k: int|
                        0 <= k < deps@[i]@.len() ==> processed@[#[trigger] deps@[i]@[k] as int] {
                        assert(seq_has(ready@, i as usize));
                    }
                }
            }
            return Err(processed);
        }
        let ghost b = batches@.len() as int;
        let ghost done0 = done as int;
        let r = ready.len();
        let mut t: usize = 0;
        while t < r
            invariant
                0 <= t <= r,
                r == ready@.len(),
                done == done0 + t,
                n == deps@.len(),
                processed@.len() == n,
                level@.len() == n,
                b == batches@.len() as int,
                0 <= done <= n,
                done == num_true(processed@),
                forall|i: int, k: int|
                    0 <= i < deps@.len() && 0 <= k < deps@[i]@.len() ==> (#[trigger] deps@[i]@[k] as int)
                        < deps@.len(),
                forall|t2: int| 0 <= t2 < r ==> (#[trigger] ready@[t2] as int) < n,
                forall|t1: int, t2: int| 0 <= t1 < t2 < r ==> ready@[t1] != ready@[t2],
                forall|t2: int| t <= t2 < r ==> !processed@[#[trigger] ready@[t2] as int],
                forall|t2: int, k: int|
                    0 <= t2 < r && 0 <= k < deps@[ready@[t2] as int]@.len()
                        ==> processed@[#[trigger] deps@[ready@[t2] as int]@[k] as int]
                        && (level@[deps@[ready@[t2] as int]@[k] as int] as int) < b,
                forall|t2: int|
                    0 <= t2 < t ==> processed@[#[trigger] ready@[t2] as int] && (level@[ready@[t2] as int] as int)
                        == b,
                forall|i: int| 0 <= i < n && processed@[i] ==> (#[trigger] level@[i] as int) <= b,
                forall|i: int|
                    0 <= i < n && processed@[i] && (level@[i] as int) < b ==> seq_has(
                        #[trigger] batches@[level@[i] as int]@,
                        i as usize,
                    ),
                forall|i: int|
                    0 <= i < n && #[trigger] processed@[i] && (level@[i] as int) == b ==> exists|t2: int|
                        0 <= t2 < t && (ready@[t2] as int) == i,
                forall|b2: int, t2: int|
                    0 <= b2 < batches@.len() && 0 <= t2 < batches@[b2]@.len() ==> (#[trigger] batches@[b2]@[t2] as int)
                        < n && processed@[batches@[b2]@[t2] as int] && (level@[batches@[b2]@[t2] as int] as int)
                        == b2,
                forall|b2: int, t1: int, t2: int|
                    0 <= b2 < batches@.len() && 0 <= t1 < t2 < batches@[b2]@.len() ==> batches@[b2]@[t1]
                        != batches@[b2]@[t2],
                forall|i: int, k: int|
                    0 <= i < n && processed@[i] && 0 <= k < deps@[i]@.len() ==> processed@[#[trigger] deps@[i]@[k] as int]
                        && (level@[deps@[i]@[k] as int] as int) < (level@[i] as int),
            decreases r - t,
        {
            let u = ready[t];
            level[u] = batches.len();
            proof {
                lemma_num_true_update(processed@, u as int);
                lemma_num_true_le(processed@.update(u as int, true));
            }
            processed[u] = true;
            done = done + 1;
            t = t + 1;
            proof {
                assert(processed@[u as int] && (level@[u as int] as int) == b);
                assert((ready@[t - 1] as int) == u as int);
            }
        }
        let ghost old_batches = batches@;
        batches.push(ready);
        proof {
            assert(batches@ =~= old_batches.push(ready));
            assert(batches@[b]@ == ready@);
            assert forall|i: int| 0 <= i < n && processed@[i] implies (level@[i] as int)
                < batches@.len() && seq_has(#[trigger] batches@[level@[i] as int]@, i as usize) by {
                if (level@[i] as int) == b {
                    let t2 = choose|t2: int| 0 <= t2 < ready@.len() && (ready@[t2] as int) == i;
                    assert(batches@[b]@[t2] as int == i);
                } else {
                    assert(old_batches[level@[i] as int]@ == batches@[level@[i] as int]@);
                    let t2 = choose|t2: int|
                        0 <= t2 < old_batches[level@[i] as int]@.len() && old_batches[level@[i] as int]@[t2]
                            == i as usize;
                    assert(batches@[level@[i] as int]@[t2] == i as usize);
                }
            }
        }
    }
    proof {
        lemma_num_true_all_true(processed@);
    }
    Ok((batches, level))
}

proof fn lemma_num_true_all_false(s: Seq<bool>)
    requires
        forall|i: int| 0 <= i < s.len() ==> !s[i],
    ensures
        num_true(s) == 0,
    decreases s.len(),
{
    if s.len() > 0 {
        lemma_num_true_all_false(s.drop_last());
    }
}

proof fn lemma_num_true_all_true(s: Seq<bool>)
    requires
        num_true(s) == s.len(),
    ensures
        forall|i: int| 0 <= i < s.len() ==> s[i],
    decreases s.len(),
{
    if s.len() > 0 {
        lemma_num_true_le(s.drop_last());
        lemma_num_true_all_true(s.drop_last());
        assert forall|i: int| 0 <= i < s.len() implies s[i] by {
            if i < s.len() - 1 {
                assert(s.drop_last()[i]);
            }
        }
    }
}


/// Walks unprocessed dependencies from a stuck state until a node
/// repeats, and returns the loop so found: an index cycle in which each
/// entry depends on the next and the last depends on the first.
#[verifier::rlimit(60)]
fn find_cycle(deps: &Vec<Vec<usize>>, processed: &Vec<bool>) -> (cyc: Vec<usize>)
    requires
        processed@.len() == deps@.len(),
        forall|i: int, k: int|
            0 <= i < deps@.len() && 0 <= k < deps@[i]@.len() ==> (#[trigger] deps@[i]@[k] as int)
                < deps@.len(),
        num_true(processed@) < deps@.len(),
        forall|i: int|
            0 <= i < deps@.len() && !processed@[i] ==> exists|k: int|
                0 <= k < deps@[i]@.len() && !processed@[deps@[i]@[k] as int],
    ensures
        cyc@.len() >= 1,
        forall|t: int| 0 <= t < cyc@.len() ==> (#[trigger] cyc@[t] as int) < deps@.len(),
        forall|t: int| 0 <= t < cyc@.len() - 1 ==> seq_has(deps@[#[trigger] cyc@[t] as int]@, cyc@[t + 1]),
        seq_has(deps@[cyc@[cyc@.len() - 1] as int]@, cyc@[0]),
{
    let n = deps.len();
    // find some unprocessed node to start from
    let mut start: usize = 0;
    let mut found = false;
    let mut i: usize = 0;
    while i < n
        invariant
            0 <= i <= n,
            n == deps@.len(),
            processed@.len() == n,
            !found ==> forall|j: int| 0 <= j < i ==> processed@[j],
            found ==> (start as int) < n && !processed@[start as int],
        decreases n - i,
    {
        if !found && !processed[i] {
            start = i;
            found = true;
        }
        i = i + 1;
    }
    proof {
        if !found {
            lemma_num_true_full(processed@);
        }
    }
    let mut path: Vec<usize> = Vec::new();
    let mut in_path: Vec<bool> = repeat_false(n);
    proof {
        lemma_num_true_all_false(in_path@);
        lemma_num_true_update(in_path@, start as int);
    }
    in_path[start] = true;
    path.push(start);
    proof {
        assert(path@[0] == start);
        assert forall|v: int| 0 <= v < n implies (in_path@[v] <==> seq_has(path@, v as usize)) by {
            if v == start as int {
                assert(path@[0] == v as usize);
            } else if seq_has(path@, v as usize) {
                let t0 = choose|t: int| 0 <= t < path@.len() && path@[t] == v as usize;
                assert(t0 == 0);
            }
        }
    }
    loop
        invariant
            n == deps@.len(),
            processed@.len() == n,
            in_path@.len() == n,
            forall|i2: int, k: int|
                0 <= i2 < deps@.len() && 0 <= k < deps@[i2]@.len() ==> (#[trigger] deps@[i2]@[k] as int)
                    < deps@.len(),
            forall|i2: int|
                0 <= i2 < deps@.len() && !processed@[i2] ==> exists|k: int|
                    0 <= k < deps@[i2]@.len() && !processed@[deps@[i2]@[k] as int],
            path@.len() >= 1,
            path@.len() == num_true(in_path@),
            forall|t: int| 0 <= t < path@.len() ==> (#[trigger] path@[t] as int) < n,
            forall|t: int| 0 <= t < path@.len() ==> !processed@[#[trigger] path@[t] as int],
            forall|v: int| 0 <= v < n ==> (in_path@[v] <==> seq_has(path@, v as usize)),
            forall|t1: int, t2: int| 0 <= t1 < t2 < path@.len() ==> path@[t1] != path@[t2],
            forall|t: int|
                0 <= t < path@.len() - 1 ==> seq_has(deps@[#[trigger] path@[t] as int]@, path@[t + 1]),
        decreases n - path@.len(),
    {
        proof {
            lemma_num_true_le(in_path@);
        }
        let last = path[path.len() - 1];
        let d = first_unprocessed_dep(deps, processed, last);
        if in_path[d] {
            // d is already on the path: the stretch from d onward is a cycle
            let cyc = cycle_from_path(deps, &path, d);
            return cyc;
        } else {
            proof {
                assert(!in_path@[d as int]);
                lemma_num_true_update(in_path@, d as int);
                lemma_num_true_le(in_path@.update(d as int, true));
                lemma_path_push(path@, in_path@, d, n as int);
            }
            in_path[d] = true;
            let ghost old_path = path@;
            path.push(d);
            proof {
                assert(path@ =~= old_path.push(d));
            }
        }
    }
}



/// The stretch of `path` from the first occurrence of `d` onward, which
/// is a cycle once the walk has found `d` among the dependencies of the
/// path's last node.
fn cycle_from_path(deps: &Vec<Vec<usize>>, path: &Vec<usize>, d: usize) -> (cyc: Vec<usize>)
    requires
        path@.len() >= 1,
        forall|t: int| 0 <= t < path@.len() ==> (#[trigger] path@[t] as int) < deps@.len(),
        seq_has(path@, d),
        forall|t: int|
            0 <= t < path@.len() - 1 ==> seq_has(deps@[#[trigger] path@[t] as int]@, path@[t + 1]),
        seq_has(deps@[path@[path@.len() - 1] as int]@, d),
    ensures
        cyc@.len() >= 1,
        forall|t: int| 0 <= t < cyc@.len() ==> (#[trigger] cyc@[t] as int) < deps@.len(),
        forall|t: int| 0 <= t < cyc@.len() - 1 ==> seq_has(deps@[#[trigger] cyc@[t] as int]@, cyc@[t + 1]),
        seq_has(deps@[cyc@[cyc@.len() - 1] as int]@, cyc@[0]),
{
    let mut p: usize = 0;
    while p < path.len() && path[p] != d
        invariant
            0 <= p <= path@.len(),
            forall|t: int| 0 <= t < p ==> path@[t] != d,
            seq_has(path@, d),
        decreases path@.len() - p,
    {
        p = p + 1;
    }
    proof {
        if p == path@.len() {
            let t0 = choose|t: int| 0 <= t < path@.len() && path@[t] == d;
            assert(false);
        }
    }
    let mut cyc: Vec<usize> = Vec::new();
    let mut t: usize = p;
    while t < path.len()
        invariant
            p <= t <= path@.len(),
            cyc@ =~= path@.subrange(p as int, t as int),
            path@[p as int] == d,
            (p as int) < path@.len(),
        decreases path@.len() - t,
    {
        let x = path[t];
        cyc.push(x);
        t = t + 1;
    }
    proof {
        assert(cyc@ =~= path@.subrange(p as int, path@.len() as int));
        assert(cyc@[0] == d);
        assert forall|t2: int| 0 <= t2 < cyc@.len() - 1 implies seq_has(
            deps@[#[trigger] cyc@[t2] as int]@,
            cyc@[t2 + 1],
        ) by {
            assert(cyc@[t2] == path@[p + t2]);
            assert(cyc@[t2 + 1] == path@[p + t2 + 1]);
        }
        assert(cyc@[cyc@.len() - 1] == path@[path@.len() - 1]);
    }
    cyc
}

proof fn lemma_path_push(old_path: Seq<usize>, marks: Seq<bool>, d: usize, n: int)
    requires
        n <= usize::MAX,
        marks.len() == n,
        0 <= (d as int) < n,
        forall|v: int| 0 <= v < n ==> (marks[v] <==> seq_has(old_path, v as usize)),
    ensures
        forall|v: int|
            0 <= v < n ==> (marks.update(d as int, true)[v] <==> seq_has(
                old_path.push(d),
                v as usize,
            )),
{
    let new_path = old_path.push(d);
    assert forall|v: int|
        0 <= v < n implies (marks.update(d as int, true)[v] <==> seq_has(
        new_path,
        v as usize,
    )) by {
        if v == d as int {
            assert(new_path[new_path.len() - 1] == d);
        } else {
            if seq_has(old_path, v as usize) {
                let t0 = choose|t: int| 0 <= t < old_path.len() && old_path[t] == v as usize;
                assert(new_path[t0] == v as usize);
            }
            if seq_has(new_path, v as usize) {
                let t0 = choose|t: int| 0 <= t < new_path.len() && new_path[t] == v as usize;
                if t0 < old_path.len() {
                    assert(old_path[t0] == v as usize);
                } else {
                    assert(new_path[t0] == d);
                }
            }
        }
    }
}

/// First dependency of `u` that is not yet processed; the stuck state
/// guarantees there is one.
fn first_unprocessed_dep(deps: &Vec<Vec<usize>>, processed: &Vec<bool>, u: usize) -> (d: usize)
    requires
        processed@.len() == deps@.len(),
        (u as int) < deps@.len(),
        forall|i: int, k: int|
            0 <= i < deps@.len() && 0 <= k < deps@[i]@.len() ==> (#[trigger] deps@[i]@[k] as int)
                < deps@.len(),
        exists|k: int| 0 <= k < deps@[u as int]@.len() && !processed@[deps@[u as int]@[k] as int],
    ensures
        (d as int) < deps@.len(),
        !processed@[d as int],
        seq_has(deps@[u as int]@, d),
{
    let m = deps[u].len();
    let mut k: usize = 0;
    while k < m
        invariant
            0 <= k <= m,
            (u as int) < deps@.len(),
            processed@.len() == deps@.len(),
            m == deps@[u as int]@.len(),
            forall|i: int, k2: int|
                0 <= i < deps@.len() && 0 <= k2 < deps@[i]@.len() ==> (#[trigger] deps@[i]@[k2] as int)
                    < deps@.len(),
            forall|k2: int| 0 <= k2 < k ==> processed@[#[trigger] deps@[u as int]@[k2] as int],
        decreases m - k,
    {
        let d = deps[u][k];
        if !processed[d] {
            proof {
                assert(deps@[u as int]@[k as int] == d);
            }
            return d;
        }
        k = k + 1;
    }
    proof {
        let k0 = choose|k2: int|
            0 <= k2 < deps@[u as int]@.len() && !processed@[deps@[u as int]@[k2] as int];
        assert(false);
    }
    0
}

/// Builds the dependency graph for `units`: resolves every declared
/// dependency, deduplicates entries, and certifies a topological batch
/// order, or reports the configuration fault that prevents it — an
/// unknown dependency identity, or a dependency cycle named by an
/// ordered list of unit identities. Construction succeeds exactly when
/// every dependency is known and no cycle exists.
pub fn build_graph(units: &Vec<Unit>) -> (result: Result<DepGraph, ConfigurationError>)
    requires
        ids_unique(units@),
    ensures
        match result {
            Ok(graph) => {
                &&& graph.wf()
                &&& graph.n() == units@.len()
                &&& forall|i: int| 0 <= i < units@.len() ==> #[trigger] graph.ids@[i]@ == units@[i].id@
                &&& forall|i: int, j: int|
                    0 <= i < units@.len() && 0 <= j < units@.len() ==> (#[trigger] graph.edge(i, j)
                        <==> spec_depends(units@, i, j))
                &&& all_deps_known(units@)
            },
            Err(e) => match e {
                ConfigurationError::UnknownDependency(d) => unknown_dep(units@, d@),
                ConfigurationError::Cycle(c) => id_cycle(units@, views_of(c@)) && has_cycle(units@),
            },
        },
        all_deps_known(units@) && !has_cycle(units@) ==> result is Ok,
{
    let n = units.len();
    let deps = match resolve(units) {
        Err(d) => {
            return Err(ConfigurationError::UnknownDependency(d));
        },
        Ok(deps) => deps,
    };
    match kahn(&deps) {
        Ok((batches, level)) => {
            let mut ids: Vec<String> = Vec::new();
            let mut i: usize = 0;
            while i < n
                invariant
                    0 <= i <= n,
                    n == units@.len(),
                    ids@.len() == i,
                    forall|j: int| 0 <= j < i ==> #[trigger] ids@[j]@ == units@[j].id@,
                decreases n - i,
            {
                ids.push(units[i].id.clone());
                i = i + 1;
            }
            Ok(DepGraph { ids, deps, batches, level })
        },
        Err(processed) => {
            let cyc_idx = find_cycle(&deps, &processed);
            let mut cyc: Vec<String> = Vec::new();
            let mut t: usize = 0;
            let m = cyc_idx.len();
            while t < m
                invariant
                    0 <= t <= m,
                    m == cyc_idx@.len(),
                    n == units@.len(),
                    cyc@.len() == t,
                    forall|t2: int| 0 <= t2 < m ==> (#[trigger] cyc_idx@[t2] as int) < n,
                    forall|t2: int| 0 <= t2 < t ==> #[trigger] cyc@[t2]@ == units@[cyc_idx@[t2] as int].id@,
                decreases m - t,
            {
                cyc.push(units[cyc_idx[t]].id.clone());
                t = t + 1;
            }
            proof {
                let v = views_of(cyc@);
                assert(v.len() == cyc_idx@.len());
                assert forall|t2: int| 0 <= t2 < v.len() implies #[trigger] v[t2] == units@[cyc_idx@[t2] as int].id@ by {
                    assert(v[t2] == cyc@[t2]@);
                }
                assert forall|t2: int| 0 <= t2 < v.len() - 1 implies id_step(units@, #[trigger] v[t2], v[t2 + 1]) by {
                    let i0 = cyc_idx@[t2] as int;
                    let j0 = cyc_idx@[t2 + 1] as int;
                    assert(j0 as usize == cyc_idx@[t2 + 1]);
                    assert(seq_has(deps@[i0]@, j0 as usize));
                    assert(spec_depends(units@, i0, j0));
                }
                let last = v.len() - 1;
                let i0 = cyc_idx@[last] as int;
                let j0 = cyc_idx@[0] as int;
                assert(j0 as usize == cyc_idx@[0]);
                assert(seq_has(deps@[i0]@, j0 as usize));
                assert(spec_depends(units@, i0, j0));
                assert(id_step(units@, v[last], v[0]));
                assert(id_cycle(units@, v));
            }
            Err(ConfigurationError::Cycle(cyc))
        },
    }
}



/// Law: no unit appears before any of its dependencies — every
/// dependency of a unit of batch `b` sits in a strictly earlier batch.
pub proof fn lemma_batches_respect_deps(graph: DepGraph, b: int, t: int, k: int)
    requires
        graph.wf(),
        0 <= b < graph.batches@.len(),
        0 <= t < graph.batches@[b]@.len(),
        0 <= k < graph.deps@[graph.batches@[b]@[t] as int]@.len(),
    ensures
        exists|b2: int, t2: int|
            0 <= b2 < b && 0 <= t2 < graph.batches@[b2]@.len() && graph.batches@[b2]@[t2]
                == graph.deps@[graph.batches@[b]@[t] as int]@[k],
{
    let u = graph.batches@[b]@[t] as int;
    let d = graph.deps@[u]@[k];
    let b2 = graph.level@[d as int] as int;
    assert(b2 < (graph.level@[u] as int));
    assert(seq_has(graph.batches@[b2]@, (d as int) as usize));
    let t2 = choose|t2: int| 0 <= t2 < graph.batches@[b2]@.len() && graph.batches@[b2]@[t2] == (
    d as int) as usize;
    assert(0 <= b2 < b && 0 <= t2 < graph.batches@[b2]@.len() && graph.batches@[b2]@[t2] == d);
}

/// A dependency edge lowers the topological level.
proof fn lemma_edge_level(graph: DepGraph, i: int, j: int)
    requires
        graph.n() <= usize::MAX,
        graph.wf(),
        0 <= i < graph.n(),
        0 <= j < graph.n(),
        graph.edge(i, j),
    ensures
        (graph.level@[j] as int) < (graph.level@[i] as int),
{
    let k = choose|k: int| 0 <= k < graph.deps@[i]@.len() && graph.deps@[i]@[k] == j as usize;
    assert((graph.level@[graph.deps@[i]@[k] as int] as int) < (graph.level@[i] as int));
}

proof fn lemma_level_chain(graph: DepGraph, idx: Seq<int>, t: int)
    requires
        graph.n() <= usize::MAX,
        graph.wf(),
        0 <= t < idx.len(),
        forall|m: int| 0 <= m < idx.len() ==> 0 <= #[trigger] idx[m] < graph.n(),
        forall|m: int| 0 <= m < idx.len() - 1 ==> graph.edge(#[trigger] idx[m], idx[m + 1]),
    ensures
        (graph.level@[idx[t]] as int) <= (graph.level@[idx[0]] as int) - t,
    decreases t,
{
    if t > 0 {
        lemma_level_chain(graph, idx, t - 1);
        lemma_edge_level(graph, idx[t - 1], idx[t]);
    }
}

/// Law: a built graph certifies there is no dependency cycle. Its
/// topological levels strictly decrease along every dependency, so no
/// ordered list of unit identities can close a loop; graph construction
/// therefore fails on every dependency set that contains a cycle.
pub proof fn lemma_built_graph_acyclic(units: Seq<Unit>, graph: DepGraph)
    requires
        units.len() <= usize::MAX,
        ids_unique(units),
        graph.wf(),
        graph.n() == units.len(),
        forall|i: int| 0 <= i < units.len() ==> #[trigger] graph.ids@[i]@ == units[i].id@,
        forall|i: int, j: int|
            0 <= i < units.len() && 0 <= j < units.len() ==> (#[trigger] graph.edge(i, j)
                <==> spec_depends(units, i, j)),
    ensures
        !has_cycle(units),
{
    if has_cycle(units) {
        let c = choose|c: Seq<Seq<char>>| id_cycle(units, c);
        let len = c.len() as int;
        assert forall|t: int| 0 <= t < len implies exists|i: int|
            0 <= i < units.len() && units[i].id@ == #[trigger] c[t] by {
            if t < len - 1 {
                assert(id_step(units, c[t], c[t + 1]));
            } else {
                assert(id_step(units, c[len - 1], c[0]));
            }
        }
        let idx = Seq::new(c.len(), |t: int| choose|i: int| 0 <= i < units.len() && units[i].id@ == c[t]);
        assert forall|t: int| 0 <= t < len implies 0 <= #[trigger] idx[t] < units.len()
            && units[idx[t]].id@ == c[t] by {
            let i0 = choose|i: int| 0 <= i < units.len() && units[i].id@ == c[t];
            assert(idx[t] == i0);
        }
        assert forall|t: int| 0 <= t < len - 1 implies graph.edge(#[trigger] idx[t], idx[t + 1]) by {
            assert(id_step(units, c[t], c[t + 1]));
            let w = choose|i: int|
                0 <= i < units.len() && units[i].id@ == c[t] && declares_dep(units[i], c[t + 1]);
            lemma_same_index(units, w, idx[t]);
            assert(spec_depends(units, idx[t], idx[t + 1]));
        }
        assert(id_step(units, c[len - 1], c[0]));
        let w = choose|i: int|
            0 <= i < units.len() && units[i].id@ == c[len - 1] && declares_dep(units[i], c[0]);
        lemma_same_index(units, w, idx[len - 1]);
        assert(spec_depends(units, idx[len - 1], idx[0]));
        assert(graph.edge(idx[len - 1], idx[0]));
        lemma_level_chain(graph, idx, len - 1);
        lemma_edge_level(graph, idx[len - 1], idx[0]);
        assert(false);
    }
}

/// Two in-range indices carrying one identity are the same index.
proof fn lemma_same_index(units: Seq<Unit>, i: int, j: int)
    requires
        ids_unique(units),
        0 <= i < units.len(),
        0 <= j < units.len(),
        units[i].id@ == units[j].id@,
    ensures
        i == j,
{
}

} // verus!
