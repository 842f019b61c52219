//! Named systems and the dependency-ordered task graph.
//!
//! A system's logic is opaque to the graph: the graph stores one payload
//! per system and only orders them.  The execution order is recomputed
//! whenever the dependency set changes, and a dependency cycle is rejected
//! at build time, naming an offending node; no partial order is produced.

use vstd::prelude::*;

verus! {

/// A dependency list `ds` mentions the system name `n`.
pub open spec fn lists_name(ds: Seq<Seq<char>>, n: Seq<char>) -> bool {
    exists|d: int| 0 <= d < ds.len() && #[trigger] ds[d] == n
}

/// System `j` appears in `ord` somewhere before position `k`.
pub open spec fn placed_before(ord: Seq<usize>, j: int, k: int) -> bool {
    exists|k2: int| 0 <= k2 < k && #[trigger] ord[k2] == j
}

/// System `j` appears somewhere in `ord`.
pub open spec fn in_order(ord: Seq<usize>, j: int) -> bool {
    exists|k: int| 0 <= k < ord.len() && #[trigger] ord[k] == j
}

/// No two systems share a name.
pub open spec fn names_distinct(names: Seq<Seq<char>>) -> bool {
    forall|i: int, j: int| 0 <= i < j < names.len() ==> names[i] != names[j]
}

/// What makes `ord` a correct execution order for systems `names` with
/// dependency lists `deps`: every system appears exactly once, and every
/// system stands strictly after each of its registered dependencies.
pub open spec fn valid_order(
    names: Seq<Seq<char>>,
    deps: Seq<Seq<Seq<char>>>,
    ord: Seq<usize>,
) -> bool {
    &&& forall|k: int| 0 <= k < ord.len() ==> (#[trigger] ord[k]) < names.len()
    &&& forall|k1: int, k2: int| 0 <= k1 < k2 < ord.len() ==> ord[k1] != ord[k2]
    &&& forall|j: int| 0 <= j < names.len() ==> in_order(ord, j)
    &&& forall|k: int, j: int|
        0 <= k < ord.len() && 0 <= j < names.len() && #[trigger] lists_name(
            deps[ord[k] as int],
            names[j],
        ) ==> placed_before(ord, j, k)
}

/// `p` is a walk along dependency edges: each step goes from a system to
/// one of the systems its dependency list mentions.
pub open spec fn is_dep_path(names: Seq<Seq<char>>, deps: Seq<Seq<Seq<char>>>, p: Seq<int>) -> bool {
    &&& p.len() >= 1
    &&& forall|m: int| 0 <= m < p.len() ==> 0 <= #[trigger] p[m] < names.len()
    &&& forall|m: int|
        0 <= m < p.len() - 1 ==> lists_name(deps[#[trigger] p[m]], names[p[m + 1]])
}

/// System `j` has a registered dependency that `placed` does not cover.
spec fn has_unplaced_dep(
    names: Seq<Seq<char>>,
    deps: Seq<Seq<Seq<char>>>,
    placed: Seq<bool>,
    j: int,
) -> bool {
    exists|j2: int|
        0 <= j2 < names.len() && !placed[j2] && #[trigger] lists_name(deps[j], names[j2])
}

/// When every unplaced system still waits on an unplaced registered
/// dependency, a valid order can only mention placed systems: the first
/// unplaced system it mentioned would need an unplaced dependency placed
/// before it.
proof fn lemma_order_positions_placed(
    names: Seq<Seq<char>>,
    deps: Seq<Seq<Seq<char>>>,
    placed: Seq<bool>,
    ord: Seq<usize>,
    k: int,
)
    requires
        names.len() == deps.len(),
        placed.len() == names.len(),
        forall|j: int|
            0 <= j < names.len() && !placed[j] ==> has_unplaced_dep(names, deps, placed, j),
        valid_order(names, deps, ord),
        0 <= k < ord.len(),
    ensures
        placed[ord[k] as int],
    decreases k,
{
    let j = ord[k] as int;
    if !placed[j] {
        assert(has_unplaced_dep(names, deps, placed, j));
        let j2 = choose|j2: int|
            0 <= j2 < names.len() && !placed[j2] && #[trigger] lists_name(deps[j], names[j2]);
        assert(lists_name(deps[ord[k] as int], names[j2]));
        assert(placed_before(ord, j2, k));
        let k2 = choose|k2: int| 0 <= k2 < k && #[trigger] ord[k2] == j2;
        lemma_order_positions_placed(names, deps, placed, ord, k2);
        assert(false);
    }
}

/// A configuration stuck with an unplaced system admits no valid order:
/// the order would have to mention the unplaced system, yet it can only
/// mention placed ones.
proof fn lemma_stuck_excludes_order(
    names: Seq<Seq<char>>,
    deps: Seq<Seq<Seq<char>>>,
    placed: Seq<bool>,
    i0: int,
    ord: Seq<usize>,
)
    requires
        names.len() == deps.len(),
        placed.len() == names.len(),
        forall|j: int|
            0 <= j < names.len() && !placed[j] ==> has_unplaced_dep(names, deps, placed, j),
        0 <= i0 < names.len(),
        !placed[i0],
    ensures
        !valid_order(names, deps, ord),
{
    if valid_order(names, deps, ord) {
        assert(in_order(ord, i0));
        let k = choose|k: int| 0 <= k < ord.len() && #[trigger] ord[k] == i0;
        lemma_order_positions_placed(names, deps, placed, ord, k);
        assert(false);
    }
}

/// A sequence of distinct values drawn from `0 .. n` that misses the value
/// `excl` has fewer than `n` entries.
proof fn lemma_distinct_bounded_len(s: Seq<usize>, n: int, excl: int)
    requires
        forall|k: int| 0 <= k < s.len() ==> 0 <= (#[trigger] s[k]) < n,
        forall|k1: int, k2: int| 0 <= k1 < k2 < s.len() ==> s[k1] != s[k2],
        0 <= excl < n,
        forall|k: int| 0 <= k < s.len() ==> s[k] != excl,
    ensures
        s.len() < n,
{
    broadcast use vstd::set::group_set_axioms;
    broadcast use vstd::set_lib::group_set_lib_default;

    let si = Seq::new(s.len(), |k: int| s[k] as int);
    assert(si.no_duplicates());
    si.unique_seq_to_set();
    let bound = vstd::set_lib::set_int_range(0, n).remove(excl);
    assert forall|x: int| si.to_set().contains(x) implies bound.contains(x) by {
        let k = choose|k: int| 0 <= k < si.len() && si[k] == x;
        assert(s[k] != excl);
    }
    vstd::set_lib::lemma_int_range(0, n);
    assert(bound.len() == n - 1);
    vstd::set_lib::lemma_len_subset(si.to_set(), bound);
}

/// Every system runs strictly after all of its transitive dependencies: a
/// dependency walk that starts at the system standing at position `k` of a
/// valid order ends at a system standing strictly earlier.
pub proof fn lemma_transitive_deps_run_earlier(
    names: Seq<Seq<char>>,
    deps: Seq<Seq<Seq<char>>>,
    ord: Seq<usize>,
    p: Seq<int>,
    k: int,
)
    requires
        deps.len() == names.len(),
        valid_order(names, deps, ord),
        is_dep_path(names, deps, p),
        p.len() >= 2,
        0 <= k < ord.len(),
        ord[k] == p[0],
    ensures
        exists|k2: int| 0 <= k2 < k && #[trigger] ord[k2] == p.last(),
    decreases p.len(),
{
    assert(lists_name(deps[p[0]], names[p[1]]));
    assert(lists_name(deps[ord[k] as int], names[p[1]]));
    assert(placed_before(ord, p[1], k));
    let k1 = choose|k1: int| 0 <= k1 < k && #[trigger] ord[k1] == p[1];
    if p.len() == 2 {
        assert(ord[k1] == p.last());
    } else {
        let q = p.drop_first();
        assert(is_dep_path(names, deps, q)) by {
            assert(forall|m: int| 0 <= m < q.len() ==> q[m] == p[m + 1]);
            assert forall|m: int| 0 <= m < q.len() - 1 implies lists_name(
                deps[#[trigger] q[m]],
                names[q[m + 1]],
            ) by {
                assert(lists_name(deps[p[m + 1]], names[p[m + 2]]));
            }
        }
        lemma_transitive_deps_run_earlier(names, deps, ord, q, k1);
        let k2 = choose|k2: int| 0 <= k2 < k1 && #[trigger] ord[k2] == q.last();
        assert(q.last() == p.last());
        assert(ord[k2] == p.last());
    }
}

/// A valid execution order rules out dependency cycles: no dependency walk
/// leads from a system back to itself.  A cyclic configuration therefore
/// admits no valid order, and building one fails rather than producing a
/// partial or arbitrary order.
pub proof fn lemma_order_excludes_cycles(
    names: Seq<Seq<char>>,
    deps: Seq<Seq<Seq<char>>>,
    ord: Seq<usize>,
    p: Seq<int>,
)
    requires
        deps.len() == names.len(),
        valid_order(names, deps, ord),
        is_dep_path(names, deps, p),
        p.len() >= 2,
    ensures
        p[0] != p.last(),
{
    if p[0] == p.last() {
        assert(in_order(ord, p[0]));
        let k = choose|k: int| 0 <= k < ord.len() && #[trigger] ord[k] == p[0];
        lemma_transitive_deps_run_earlier(names, deps, ord, p, k);
        let k2 = choose|k2: int| 0 <= k2 < k && #[trigger] ord[k2] == p.last();
        assert(ord[k2] == ord[k]);
        assert(false);
    }
}

/// The error a dependency cycle raises at graph-build time.
#[derive(Debug)]
pub struct CycleError {
    /// The name of a system that cannot be scheduled.
    pub node: String,
}

/// Named systems with declared dependencies and a cached execution order.
///
/// The payload type `S` carries each system's logic; the graph itself never
/// looks inside it.  `execution_order` holds storage indices and is kept a
/// valid topological order of the current dependency relation.
pub struct TaskGraph<S> {
    pub(crate) names: Vec<String>,
    pub(crate) dependencies: Vec<Vec<String>>,
    pub(crate) systems: Vec<S>,
    pub(crate) execution_order: Vec<usize>,
}

impl<S> TaskGraph<S> {
    /// The registered system names, in registration order.
    pub open(crate) spec fn name_seq(self) -> Seq<Seq<char>> {
        Seq::new(self.names@.len(), |i: int| self.names@[i]@)
    }

    /// The declared dependency names of every system.
    pub open(crate) spec fn dep_seq(self) -> Seq<Seq<Seq<char>>> {
        Seq::new(
            self.dependencies@.len(),
            |i: int| Seq::new(self.dependencies@[i]@.len(), |d: int| self.dependencies@[i]@[d]@),
        )
    }

    /// The cached execution order, as storage indices.
    pub open(crate) spec fn order(self) -> Seq<usize> {
        self.execution_order@
    }

    /// The system payloads, in registration order.
    pub open(crate) spec fn sys_seq(self) -> Seq<S> {
        self.systems@
    }

    /// The graph's internal invariant: parallel storage, distinct names,
    /// and a cached order that is valid for the current dependency set.
    pub open(crate) spec fn wf(self) -> bool {
        &&& self.names@.len() == self.dependencies@.len()
        &&& self.names@.len() == self.systems@.len()
        &&& names_distinct(self.name_seq())
        &&& valid_order(self.name_seq(), self.dep_seq(), self.order())
    }

    /// An empty graph.
    pub fn new() -> (r: TaskGraph<S>)
        ensures
            r.wf(),
            r.name_seq().len() == 0,
            r.order().len() == 0,
    {
        TaskGraph {
            names: Vec::new(),
            dependencies: Vec::new(),
            systems: Vec::new(),
            execution_order: Vec::new(),
        }
    }

    /// The registry index of the system named `name`.
    fn find_name(&self, name: &String) -> (r: Option<usize>)
        ensures
            match r {
                Some(j) => j < self.name_seq().len() && self.name_seq()[j as int] == name@,
                None => forall|j: int|
                    0 <= j < self.name_seq().len() ==> self.name_seq()[j] != name@,
            },
    {
        let mut j: usize = 0;
        while j < self.names.len()
            invariant
                j <= self.names@.len(),
                forall|j2: int| 0 <= j2 < j ==> self.name_seq()[j2] != name@,
            decreases self.names@.len() - j,
        {
            if self.names[j] == *name {
                proof {
                    assert(self.name_seq()[j as int] == self.names@[j as int]@);
                }
                return Some(j);
            }
            j = j + 1;
        }
        None
    }

    /// Whether every registered dependency of system `i` is already placed.
    fn deps_placed(&self, i: usize, placed: &Vec<bool>) -> (r: bool)
        requires
            self.names@.len() == self.dependencies@.len(),
            names_distinct(self.name_seq()),
            i < self.dependencies@.len(),
            placed@.len() == self.names@.len(),
        ensures
            r == forall|j: int|
                0 <= j < self.name_seq().len() && lists_name(
                    self.dep_seq()[i as int],
                    #[trigger] self.name_seq()[j],
                ) ==> placed@[j],
    {
        let deps = &self.dependencies[i];
        let ghost ds = self.dep_seq()[i as int];
        let mut d: usize = 0;
        while d < deps.len()
            invariant
                self.names@.len() == self.dependencies@.len(),
                names_distinct(self.name_seq()),
                i < self.dependencies@.len(),
                placed@.len() == self.names@.len(),
                deps == &self.dependencies@[i as int],
                ds == self.dep_seq()[i as int],
                d <= deps@.len(),
                ds.len() == deps@.len(),
                forall|j: int|
                    0 <= j < self.name_seq().len() && (exists|d2: int|
                        0 <= d2 < d && #[trigger] ds[d2] == self.name_seq()[j]) ==> placed@[j],
            decreases deps@.len() - d,
        {
            proof {
                assert(ds[d as int] == deps@[d as int]@);
            }
            match self.find_name(&deps[d]) {
                Some(j) => {
                    if !placed[j] {
                        proof {
                            assert(ds[d as int] == self.name_seq()[j as int]);
                            assert(lists_name(ds, self.name_seq()[j as int]));
                        }
                        return false;
                    }
                    proof {
                        assert forall|j2: int|
                            0 <= j2 < self.name_seq().len() && ds[d as int] == self.name_seq()[j2]
                            implies placed@[j2] by {
                            if j2 != j as int {
                                assert(self.name_seq()[j2] != self.name_seq()[j as int]);
                            }
                        }
                    }
                },
                None => {},
            }
            d = d + 1;
        }
        proof {
            assert forall|j: int|
                0 <= j < self.name_seq().len() && lists_name(
                    ds,
                    #[trigger] self.name_seq()[j],
                ) implies placed@[j] by {
                let d2 = choose|d2: int| 0 <= d2 < ds.len() && ds[d2] == self.name_seq()[j];
                assert(ds[d2] == self.name_seq()[j]);
            }
        }
        true
    }

    /// A topological order of the current registry: repeatedly place, in
    /// registry order, any unplaced system whose registered dependencies
    /// are all placed; a round without progress while systems remain
    /// unplaced means a dependency cycle.
    fn compute_order(&self) -> (r: Result<Vec<usize>, CycleError>)
        requires
            self.names@.len() == self.dependencies@.len(),
            names_distinct(self.name_seq()),
        ensures
            match r {
                Ok(ord) => valid_order(self.name_seq(), self.dep_seq(), ord@),
                Err(c) => (exists|j: int|
                    0 <= j < self.name_seq().len() && #[trigger] self.name_seq()[j] == c.node@)
                    && forall|ord: Seq<usize>| !valid_order(self.name_seq(), self.dep_seq(), ord),
            },
    {
        let n = self.names.len();
        let mut placed: Vec<bool> = Vec::new();
        let mut i0: usize = 0;
        while i0 < n
            invariant
                i0 <= n,
                placed@.len() == i0,
                forall|j: int| 0 <= j < i0 ==> !placed@[j],
            decreases n - i0,
        {
            placed.push(false);
            i0 = i0 + 1;
        }
        let mut ord: Vec<usize> = Vec::new();
        let mut progress = true;
        while progress
            invariant
                n == self.names@.len(),
                self.names@.len() == self.dependencies@.len(),
                names_distinct(self.name_seq()),
                placed@.len() == n,
                ord@.len() <= n,
                forall|k: int|
                    0 <= k < ord@.len() ==> (#[trigger] ord@[k]) < n && placed@[ord@[k] as int],
                forall|k1: int, k2: int| 0 <= k1 < k2 < ord@.len() ==> ord@[k1] != ord@[k2],
                forall|j: int| 0 <= j < n && placed@[j] ==> in_order(ord@, j),
                forall|k: int, j: int|
                    0 <= k < ord@.len() && 0 <= j < n && #[trigger] lists_name(
                        self.dep_seq()[ord@[k] as int],
                        self.name_seq()[j],
                    ) ==> placed_before(ord@, j, k),
                !progress ==> forall|j: int|
                    0 <= j < n && !placed@[j] ==> has_unplaced_dep(
                        self.name_seq(),
                        self.dep_seq(),
                        placed@,
                        j,
                    ),
            decreases 2 * (n - ord@.len()) + (if progress {
                1int
            } else {
                0int
            }),
        {
            progress = false;
            let ghost pass_start = ord@.len();
            let ghost placed0 = placed@;
            let mut i: usize = 0;
            while i < n
                invariant
                    n == self.names@.len(),
                    self.names@.len() == self.dependencies@.len(),
                    names_distinct(self.name_seq()),
                    placed@.len() == n,
                    i <= n,
                    ord@.len() <= n,
                    forall|k: int|
                        0 <= k < ord@.len() ==> (#[trigger] ord@[k]) < n && placed@[ord@[k] as int],
                    forall|k1: int, k2: int| 0 <= k1 < k2 < ord@.len() ==> ord@[k1] != ord@[k2],
                    forall|j: int| 0 <= j < n && placed@[j] ==> in_order(ord@, j),
                    forall|k: int, j: int|
                        0 <= k < ord@.len() && 0 <= j < n && #[trigger] lists_name(
                            self.dep_seq()[ord@[k] as int],
                            self.name_seq()[j],
                        ) ==> placed_before(ord@, j, k),
                    progress ==> ord@.len() > pass_start,
                    ord@.len() >= pass_start,
                    !progress ==> placed@ == placed0,
                    !progress ==> forall|i2: int|
                        0 <= i2 < i && !placed@[i2] ==> has_unplaced_dep(
                            self.name_seq(),
                            self.dep_seq(),
                            placed@,
                            i2,
                        ),
                decreases n - i,
            {
                if !placed[i] {
                    let ready = self.deps_placed(i, &placed);
                    if !ready {
                        proof {
                            let j = choose|j: int|
                                0 <= j < self.name_seq().len() && lists_name(
                                    self.dep_seq()[i as int],
                                    #[trigger] self.name_seq()[j],
                                ) && !placed@[j];
                            assert(lists_name(self.dep_seq()[i as int], self.name_seq()[j]));
                            assert(has_unplaced_dep(
                                self.name_seq(),
                                self.dep_seq(),
                                placed@,
                                i as int,
                            ));
                        }
                    }
                    if ready {
                        let ghost placed_pre = placed@;
                        let ghost ord_pre = ord@;
                        placed.set(i, true);
                        ord.push(i);
                        progress = true;
                        proof {
                            let ii = i as int;
                            let nk = ord@.len() - 1;
                            assert(ord@ == ord_pre.push(i));
                            lemma_distinct_bounded_len(ord_pre, n as int, ii);
                            assert forall|k: int|
                                0 <= k < ord@.len() implies (#[trigger] ord@[k]) < n && placed@[
                                ord@[k] as int] by {
                                if k < nk {
                                    assert(ord@[k] == ord_pre[k]);
                                    assert(placed_pre[ord_pre[k] as int]);
                                }
                            }
                            assert forall|k1: int, k2: int|
                                0 <= k1 < k2 < ord@.len() implies ord@[k1] != ord@[k2] by {
                                if k2 == nk {
                                    assert(placed_pre[ord_pre[k1] as int]);
                                    assert(!placed_pre[ii]);
                                }
                            }
                            assert forall|j: int|
                                0 <= j < n && placed@[j] implies in_order(ord@, j) by {
                                if j == ii {
                                    assert(ord@[nk] == j);
                                } else {
                                    assert(placed_pre[j]);
                                    let k = choose|k: int|
                                        0 <= k < ord_pre.len() && #[trigger] ord_pre[k] == j;
                                    assert(ord@[k] == j);
                                }
                            }
                            assert forall|k: int, j: int|
                                0 <= k < ord@.len() && 0 <= j < n && #[trigger] lists_name(
                                    self.dep_seq()[ord@[k] as int],
                                    self.name_seq()[j],
                                ) implies placed_before(ord@, j, k) by {
                                if k < nk {
                                    assert(lists_name(
                                        self.dep_seq()[ord_pre[k] as int],
                                        self.name_seq()[j],
                                    ));
                                    let k2 = choose|k2: int|
                                        0 <= k2 < k && #[trigger] ord_pre[k2] == j;
                                    assert(ord@[k2] == j);
                                } else {
                                    // the placed node's registered dependencies
                                    // were all placed before this pass step
                                    assert(placed_pre[j]);
                                    assert(j != ii);
                                    let k2 = choose|k2: int|
                                        0 <= k2 < ord_pre.len() && #[trigger] ord_pre[k2] == j;
                                    assert(ord@[k2] == j);
                                }
                            }
                        }
                    }
                }
                i = i + 1;
            }
        }
        let mut i: usize = 0;
        while i < n
            invariant
                n == self.names@.len(),
                self.names@.len() == self.dependencies@.len(),
                placed@.len() == n,
                i <= n,
                forall|j: int| 0 <= j < i ==> placed@[j],
                forall|k: int|
                    0 <= k < ord@.len() ==> (#[trigger] ord@[k]) < n && placed@[ord@[k] as int],
                forall|k1: int, k2: int| 0 <= k1 < k2 < ord@.len() ==> ord@[k1] != ord@[k2],
                forall|j: int| 0 <= j < n && placed@[j] ==> in_order(ord@, j),
                forall|k: int, j: int|
                    0 <= k < ord@.len() && 0 <= j < n && #[trigger] lists_name(
                        self.dep_seq()[ord@[k] as int],
                        self.name_seq()[j],
                    ) ==> placed_before(ord@, j, k),
                forall|j: int|
                    0 <= j < n && !placed@[j] ==> has_unplaced_dep(
                        self.name_seq(),
                        self.dep_seq(),
                        placed@,
                        j,
                    ),
            decreases n - i,
        {
            if !placed[i] {
                let node = self.names[i].clone();
                proof {
                    assert(self.name_seq()[i as int] == node@);
                    assert forall|ordx: Seq<usize>| !valid_order(
                        self.name_seq(),
                        self.dep_seq(),
                        ordx,
                    ) by {
                        lemma_stuck_excludes_order(
                            self.name_seq(),
                            self.dep_seq(),
                            placed@,
                            i as int,
                            ordx,
                        );
                    }
                }
                return Err(CycleError { node });
            }
            i = i + 1;
        }
        Ok(ord)
    }

    /// Registers the system named `name` with the given dependency names
    /// and payload, replacing any system registered under the same name,
    /// and recomputes the execution order.  A dependency cycle registers
    /// nothing: the graph is left exactly as it was and the error names a
    /// system that cannot be scheduled.
    pub fn add_system(&mut self, name: String, dependencies: Vec<String>, system: S) -> (r: Result<
        (),
        CycleError,
    >)
        requires
            old(self).wf(),
        ensures
            final(self).wf(),
            ({
                let names0 = old(self).name_seq();
                let deps0 = old(self).dep_seq();
                let newdeps = Seq::new(dependencies@.len(), |d: int| dependencies@[d]@);
                match r {
                    Ok(_) => {
                        &&& forall|i: int|
                            0 <= i < names0.len() && names0[i] == name@ ==> final(self).name_seq()
                                == names0 && final(self).dep_seq() == deps0.update(i, newdeps)
                                && final(self).sys_seq() == old(self).sys_seq().update(i, system)
                        &&& !names0.contains(name@) ==> final(self).name_seq() == names0.push(
                            name@,
                        ) && final(self).dep_seq() == deps0.push(newdeps) && final(self).sys_seq()
                            == old(self).sys_seq().push(system)
                        &&& final(self).name_seq().contains(name@)
                    },
                    Err(_) => {
                        &&& final(self).name_seq() == names0
                        &&& final(self).dep_seq() == deps0
                        &&& final(self).sys_seq() == old(self).sys_seq()
                        &&& final(self).order() == old(self).order()
                        &&& forall|i: int|
                            0 <= i < names0.len() && names0[i] == name@ ==> forall|ord: Seq<usize>|
                                !valid_order(names0, deps0.update(i, newdeps), ord)
                        &&& !names0.contains(name@) ==> forall|ord: Seq<usize>|
                            !valid_order(names0.push(name@), deps0.push(newdeps), ord)
                    },
                }
            }),
    {
        let ghost names0 = self.name_seq();
        let ghost deps0 = self.dep_seq();
        let ghost sys0 = self.systems@;
        let ghost namev = name@;
        let ghost newdeps = Seq::new(dependencies@.len(), |d: int| dependencies@[d]@);
        match self.find_name(&name) {
            Some(i) => {
                let mut held_deps = dependencies;
                let mut held_sys = system;
                core::mem::swap(&mut self.dependencies[i], &mut held_deps);
                core::mem::swap(&mut self.systems[i], &mut held_sys);
                proof {
                    assert(self.name_seq() =~= names0);
                    assert(self.dep_seq() =~~= deps0.update(i as int, newdeps));
                }
                match self.compute_order() {
                    Ok(ord2) => {
                        self.execution_order = ord2;
                        proof {
                            assert(names0.contains(namev));
                            assert forall|i2: int|
                                0 <= i2 < names0.len() && names0[i2] == namev implies i2
                                == i as int by {
                                if i2 != i as int {
                                    assert(names0[i2] != names0[i as int]);
                                }
                            }
                        }
                        Ok(())
                    },
                    Err(c) => {
                        core::mem::swap(&mut self.dependencies[i], &mut held_deps);
                        core::mem::swap(&mut self.systems[i], &mut held_sys);
                        proof {
                            assert(self.name_seq() =~= names0);
                            assert(self.dep_seq() =~~= deps0);
                            assert(self.systems@ =~= sys0);
                            assert(names0.contains(namev));
                            assert forall|i2: int|
                                0 <= i2 < names0.len() && names0[i2] == namev implies i2
                                == i as int by {
                                if i2 != i as int {
                                    assert(names0[i2] != names0[i as int]);
                                }
                            }
                        }
                        Err(c)
                    },
                }
            },
            None => {
                self.names.push(name);
                self.dependencies.push(dependencies);
                self.systems.push(system);
                proof {
                    assert(self.name_seq() =~= names0.push(namev));
                    assert(self.dep_seq() =~~= deps0.push(newdeps));
                    assert(names_distinct(self.name_seq()));
                    if names0.contains(namev) {
                        let j = choose|j: int| 0 <= j < names0.len() && names0[j] == namev;
                        assert(false);
                    }
                }
                match self.compute_order() {
                    Ok(ord2) => {
                        self.execution_order = ord2;
                        proof {
                            assert(self.name_seq()[names0.len() as int] == namev);
                        }
                        Ok(())
                    },
                    Err(c) => {
                        let _ = self.names.pop();
                        let _ = self.dependencies.pop();
                        let _ = self.systems.pop();
                        proof {
                            assert(self.name_seq() =~= names0);
                            assert(self.dep_seq() =~~= deps0);
                            assert(self.systems@ =~= sys0);
                        }
                        Err(c)
                    },
                }
            },
        }
    }

    /// The number of entries in the execution order.
    pub fn order_len(&self) -> (r: usize)
        ensures
            r == self.order().len(),
    {
        self.execution_order.len()
    }

    /// The registry index that stands at position `k` of the execution
    /// order.
    pub fn order_index(&self, k: usize) -> (r: usize)
        requires
            self.wf(),
            k < self.order().len(),
        ensures
            r == self.order()[k as int],
            r < self.sys_seq().len(),
    {
        self.execution_order[k]
    }

    /// A mutable borrow of the system payload at registry index `idx`.
    pub fn system_at(&mut self, idx: usize) -> (r: &mut S)
        requires
            old(self).wf(),
            idx < old(self).sys_seq().len(),
        ensures
            final(self).wf(),
            *r == old(self).sys_seq()[idx as int],
            final(self).sys_seq() == old(self).sys_seq().update(idx as int, *final(r)),
            final(self).name_seq() == old(self).name_seq(),
            final(self).dep_seq() == old(self).dep_seq(),
            final(self).order() == old(self).order(),
    {
        &mut self.systems[idx]
    }

    /// The name of the system at registry index `idx`.
    pub fn name_at(&self, idx: usize) -> (r: &String)
        requires
            idx < self.name_seq().len(),
        ensures
            r@ == self.name_seq()[idx as int],
    {
        &self.names[idx]
    }
}

} // verus!
