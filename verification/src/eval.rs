//! The incremental evaluation engine: one `evaluate_from_with` pass walks
//! the target's dependency subgraph in topological order, decides per node
//! whether the cached result is still valid (by fingerprint), invokes the
//! caller's compute function for stale nodes, and reports hits, misses,
//! timings and errors. Computational failures never abort the pass: they are
//! isolated to the failing node and propagated to its dependents as
//! `Upstream` annotations.

use vstd::prelude::*;

use crate::fingerprint::{
    fp_duplicate, fp_eq, fp_view, lemma_fps_view_index, lemma_spec_fp_unfold, params_duplicate,
    spec_fp, Fingerprint,
};
use crate::graph::{Graph, GraphError, Node, NodeId};
use crate::params::NodeParams;

verus! {

// ----- association lists keyed by node id -----

/// First value stored under key `n`.
pub open spec fn assoc_get<V>(s: Seq<(NodeId, V)>, n: NodeId) -> Option<V>
    decreases s.len(),
{
    if s.len() == 0 {
        None
    } else if s[0].0 == n {
        Some(s[0].1)
    } else {
        assoc_get(s.drop_first(), n)
    }
}

/// Keys are pairwise distinct.
pub open spec fn assoc_unique<V>(s: Seq<(NodeId, V)>) -> bool {
    forall|i: int, j: int| 0 <= i < j < s.len() ==> s[i].0 != s[j].0
}

proof fn lemma_assoc_get_present<V>(s: Seq<(NodeId, V)>, n: NodeId, i: int)
    requires
        assoc_unique(s),
        0 <= i < s.len(),
        s[i].0 == n,
    ensures
        assoc_get(s, n) == Some(s[i].1),
    decreases s.len(),
{
    if i > 0 {
        assert(s[0].0 != n);
        assert(s.drop_first()[i - 1] == s[i]);
        lemma_assoc_get_present(s.drop_first(), n, i - 1);
    }
}

proof fn lemma_assoc_get_absent<V>(s: Seq<(NodeId, V)>, n: NodeId)
    requires
        forall|i: int| 0 <= i < s.len() ==> (#[trigger] s[i]).0 != n,
    ensures
        assoc_get(s, n) is None,
    decreases s.len(),
{
    if s.len() > 0 {
        assert(forall|i: int|
            0 <= i < s.drop_first().len() ==> s.drop_first()[i] == s[i + 1]);
        lemma_assoc_get_absent(s.drop_first(), n);
    }
}

proof fn lemma_assoc_get_update_other<V>(s: Seq<(NodeId, V)>, i: int, p: (NodeId, V), n: NodeId)
    requires
        0 <= i < s.len(),
        p.0 != n,
        s[i].0 != n,
    ensures
        assoc_get(s.update(i, p), n) == assoc_get(s, n),
    decreases s.len(),
{
    let s2 = s.update(i, p);
    if i == 0 {
        assert(s2[0] == p);
        assert(s2.drop_first() =~= s.drop_first());
    } else {
        assert(s2[0] == s[0]);
        if s[0].0 != n {
            assert(s2.drop_first() =~= s.drop_first().update(i - 1, p));
            assert(s.drop_first()[i - 1] == s[i]);
            lemma_assoc_get_update_other(s.drop_first(), i - 1, p, n);
        }
    }
}

proof fn lemma_assoc_get_push_other<V>(s: Seq<(NodeId, V)>, p: (NodeId, V), n: NodeId)
    requires
        p.0 != n,
    ensures
        assoc_get(s.push(p), n) == assoc_get(s, n),
    decreases s.len(),
{
    let s2 = s.push(p);
    if s.len() == 0 {
        assert(s2[0] == p);
        assert(s2.drop_first() =~= Seq::<(NodeId, V)>::empty());
        assert(assoc_get(s2.drop_first(), n) is None);
        assert(assoc_get(s2, n) is None);
        assert(assoc_get(s, n) is None);
    } else {
        assert(s2[0] == s[0]);
        if s[0].0 != n {
            assert(s2.drop_first() =~= s.drop_first().push(p));
            lemma_assoc_get_push_other(s.drop_first(), p, n);
        }
    }
}

/// Membership scan in an association vector.
fn assoc_find<V>(v: &Vec<(NodeId, V)>, n: NodeId) -> (r: Option<&V>)
    requires
        assoc_unique(v@),
    ensures
        match r {
            Some(val) => assoc_get(v@, n) == Some(*val),
            None => assoc_get(v@, n) is None,
        },
{
    let len = v.len();
    let mut i: usize = 0;
    while i < len
        invariant
            assoc_unique(v@),
            len == v@.len(),
            0 <= i <= len,
            forall|j: int| 0 <= j < i ==> (#[trigger] v@[j]).0 != n,
        decreases len - i,
    {
        if v[i].0 == n {
            proof {
                lemma_assoc_get_present(v@, n, i as int);
            }
            return Some(&v[i].1);
        }
        i += 1;
    }
    proof {
        lemma_assoc_get_absent(v@, n);
    }
    None
}

// ----- cache state -----

/// One cache entry: the fingerprint that produced the caller's stored
/// result for this node, and whether that attempt succeeded.
#[derive(Debug)]
pub struct CacheEntry {
    pub fingerprint: Fingerprint,
    pub ok: bool,
}

/// Hit and miss counters of the most recent pass.
#[derive(Debug, Clone, Copy, PartialEq, Eq, Structural)]
pub struct EvalCacheStats {
    pub hits: u64,
    pub misses: u64,
}

/// The engine's persistent state across passes: one fingerprint entry per
/// node, plus the counters of the last pass.
#[derive(Debug)]
pub struct EvalState {
    pub entries: Vec<(NodeId, CacheEntry)>,
    pub stats: EvalCacheStats,
}

impl EvalState {
    /// Keys are pairwise distinct.
    pub open spec fn wf(self) -> bool {
        assoc_unique(self.entries@)
    }

    /// The cache entry recorded for `n`, if any.
    pub open spec fn entry(self, n: NodeId) -> Option<CacheEntry> {
        assoc_get(self.entries@, n)
    }

    /// A fresh, empty cache.
    pub fn new() -> (r: Self)
        ensures
            r.wf(),
            forall|n: NodeId| r.entry(n) is None,
            r.stats == (EvalCacheStats { hits: 0, misses: 0 }),
    {
        let r = EvalState { entries: Vec::new(), stats: EvalCacheStats { hits: 0, misses: 0 } };
        proof {
            assert forall|n: NodeId| r.entry(n) is None by {
                lemma_assoc_get_absent(r.entries@, n);
            }
        }
        r
    }

    /// Looks the entry for `n` up.
    pub fn lookup(&self, n: NodeId) -> (r: Option<&CacheEntry>)
        requires
            self.wf(),
        ensures
            match r {
                Some(e) => self.entry(n) == Some(*e),
                None => self.entry(n) is None,
            },
    {
        assoc_find(&self.entries, n)
    }

    /// Stores (inserting or overwriting) the entry for `n`.
    pub fn put(&mut self, n: NodeId, e: CacheEntry)
        requires
            old(self).wf(),
        ensures
            final(self).wf(),
            final(self).entry(n) == Some(e),
            forall|m: NodeId| m != n ==> final(self).entry(m) == old(self).entry(m),
            final(self).stats == old(self).stats,
    {
        let ghost e_view = e;
        let len = self.entries.len();
        let mut i: usize = 0;
        while i < len
            invariant
                assoc_unique(self.entries@),
                self == old(self),
                e == e_view,
                len == self.entries@.len(),
            0 <= i <= len,
                forall|j: int| 0 <= j < i ==> (#[trigger] self.entries@[j]).0 != n,
            decreases len - i,
        {
            if self.entries[i].0 == n {
                let ghost prev = self.entries@;
                let ghost idx = i as int;
                self.entries.set(i, (n, e));
                proof {
                    assert(self.entries@ == prev.update(idx, (n, e_view)));
                    assert(prev[idx].0 == n);
                    assert(forall|m: int|
                        0 <= m < prev.len() ==> (#[trigger] self.entries@[m]).0 == prev[m].0);
                    assert(assoc_unique(self.entries@));
                    lemma_assoc_get_present(self.entries@, n, idx);
                    assert forall|m: NodeId| m != n implies assoc_get(self.entries@, m)
                        == assoc_get(prev, m) by {
                        lemma_assoc_get_update_other(prev, idx, (n, e_view), m);
                    }
                }
                return ;
            }
            i += 1;
        }
        let ghost prev = self.entries@;
        self.entries.push((n, e));
        proof {
            assert(self.entries@ == prev.push((n, e_view)));
            assert(forall|j: int| 0 <= j < prev.len() ==> self.entries@[j] == prev[j]);
            assert(assoc_unique(self.entries@));
            lemma_assoc_get_present(self.entries@, n, prev.len() as int);
            assert forall|m: NodeId| m != n implies assoc_get(self.entries@, m) == assoc_get(
                prev,
                m,
            ) by {
                lemma_assoc_get_push_other(prev, (n, e_view), m);
            }
        }
    }

    /// Marks the entry for `n`, if any, as a failed attempt so that the
    /// next pass retries instead of serving a stale result.
    pub fn mark_failed(&mut self, n: NodeId)
        requires
            old(self).wf(),
        ensures
            final(self).wf(),
            final(self).entry(n) == match old(self).entry(n) {
                Some(e) => Some(CacheEntry { fingerprint: e.fingerprint, ok: false }),
                None => None::<CacheEntry>,
            },
            forall|m: NodeId| m != n ==> final(self).entry(m) == old(self).entry(m),
            final(self).stats == old(self).stats,
    {
        let len = self.entries.len();
        let mut i: usize = 0;
        while i < len
            invariant
                assoc_unique(self.entries@),
                self == old(self),
                len == self.entries@.len(),
                0 <= i <= len,
                forall|j: int| 0 <= j < i ==> (#[trigger] self.entries@[j]).0 != n,
            decreases len - i,
        {
            if self.entries[i].0 == n {
                let mut tmp: (NodeId, CacheEntry) = (
                    n,
                    CacheEntry {
                        fingerprint: Fingerprint {
                            kind: String::new(),
                            params: NodeParams::new(),
                            upstream: Vec::new(),
                        },
                        ok: false,
                    },
                );
                let ghost prev = self.entries@;
                let ghost idx = i as int;
                self.entries.set_and_swap(i, &mut tmp);
                let fp = tmp.1.fingerprint;
                let mut repl: (NodeId, CacheEntry) = (n, CacheEntry { fingerprint: fp, ok: false });
                self.entries.set_and_swap(i, &mut repl);
                proof {
                    let e0 = prev[idx].1;
                    assert(self.entries@ =~= prev.update(
                        idx,
                        (n, CacheEntry { fingerprint: e0.fingerprint, ok: false }),
                    ));
                    assert(forall|m: int|
                        0 <= m < prev.len() ==> (#[trigger] self.entries@[m]).0 == prev[m].0);
                    assert(assoc_unique(self.entries@));
                    lemma_assoc_get_present(self.entries@, n, idx);
                    lemma_assoc_get_present(prev, n, idx);
                    assert forall|m: NodeId| m != n implies assoc_get(self.entries@, m)
                        == assoc_get(prev, m) by {
                        lemma_assoc_get_update_other(
                            prev,
                            idx,
                            (n, CacheEntry { fingerprint: e0.fingerprint, ok: false }),
                            m,
                        );
                    }
                }
                return ;
            }
            i += 1;
        }
        proof {
            lemma_assoc_get_absent(self.entries@, n);
        }
    }

    /// Drops the entry for a removed node.
    pub fn remove_entry(&mut self, n: NodeId)
        requires
            old(self).wf(),
        ensures
            final(self).wf(),
            final(self).entry(n) is None,
            forall|m: NodeId| m != n ==> final(self).entry(m) == old(self).entry(m),
            final(self).stats == old(self).stats,
    {
        let len = self.entries.len();
        let mut i: usize = 0;
        while i < len
            invariant
                assoc_unique(self.entries@),
                self == old(self),
                len == self.entries@.len(),
                0 <= i <= len,
                forall|j: int| 0 <= j < i ==> (#[trigger] self.entries@[j]).0 != n,
            decreases len - i,
        {
            if self.entries[i].0 == n {
                let ghost prev = self.entries@;
                let ghost idx = i as int;
                self.entries.remove(i);
                proof {
                    assert(self.entries@ == prev.remove(idx));
                    assert(forall|j: int| 0 <= j < idx ==> self.entries@[j] == prev[j]);
                    assert(forall|j: int|
                        idx <= j < self.entries@.len() ==> self.entries@[j] == prev[j + 1]);
                    assert(assoc_unique(self.entries@)) by {
                        assert forall|x: int, y: int|
                            0 <= x < y < self.entries@.len() implies self.entries@[x].0
                            != self.entries@[y].0 by {
                            let x0: int = if x < idx {
                                x
                            } else {
                                x + 1
                            };
                            let y0: int = if y < idx {
                                y
                            } else {
                                y + 1
                            };
                            assert(self.entries@[x] == prev[x0]);
                            assert(self.entries@[y] == prev[y0]);
                        }
                    }
                    assert forall|j: int|
                        0 <= j < self.entries@.len() implies (#[trigger] self.entries@[j]).0
                        != n by {
                        let j0: int = if j < idx {
                            j
                        } else {
                            j + 1
                        };
                        assert(self.entries@[j] == prev[j0]);
                    }
                    lemma_assoc_get_absent(self.entries@, n);
                    assert forall|m: NodeId| m != n implies assoc_get(self.entries@, m)
                        == assoc_get(prev, m) by {
                        lemma_assoc_remove_other(prev, idx, m);
                    }
                }
                return ;
            }
            i += 1;
        }
        proof {
            lemma_assoc_get_absent(self.entries@, n);
        }
    }
}

proof fn lemma_assoc_remove_other<V>(s: Seq<(NodeId, V)>, i: int, n: NodeId)
    requires
        0 <= i < s.len(),
        s[i].0 != n,
    ensures
        assoc_get(s.remove(i), n) == assoc_get(s, n),
    decreases s.len(),
{
    let s2 = s.remove(i);
    if i == 0 {
        assert(s2 =~= s.drop_first());
    } else {
        assert(s2[0] == s[0]);
        if s[0].0 != n {
            assert(s2.drop_first() =~= s.drop_first().remove(i - 1));
            assert(s.drop_first()[i - 1] == s[i]);
            lemma_assoc_remove_other(s.drop_first(), i - 1, n);
        }
    }
}

impl Default for EvalState {
    /// Same as [`EvalState::new`]: an empty cache.
    fn default() -> (r: Self)
        ensures
            r.wf(),
            forall|n: NodeId| r.entry(n) is None,
            r.stats == (EvalCacheStats { hits: 0, misses: 0 }),
    {
        EvalState::new()
    }
}

// ----- reports -----

/// Per-node outcome of one pass.
#[derive(Debug, Clone, Copy, PartialEq, Eq, Structural)]
pub struct EvalNodeReport {
    /// Time spent in the node's compute function, in microseconds; zero for
    /// cache hits and skipped nodes.
    pub duration_us: u64,
    pub cache_hit: bool,
}

/// Errors reported by a pass; evaluation always completes and returns the
/// full list rather than aborting on the first failure.
#[derive(Debug, Clone, PartialEq)]
pub enum EvalError {
    /// The node's own compute function failed with the given message.
    Node { node: NodeId, message: String },
    /// The node was skipped because the listed ancestors failed.
    Upstream { node: NodeId, upstream: Vec<NodeId> },
}

/// The full telemetry of one evaluation pass.
#[derive(Debug, PartialEq)]
pub struct EvalReport {
    pub target: NodeId,
    /// Whether the target's result is valid: no failure anywhere in its
    /// ancestry this pass.
    pub output_valid: bool,
    /// Nodes whose compute function ran and succeeded this pass.
    pub computed: Vec<NodeId>,
    pub cache_hits: u64,
    pub cache_misses: u64,
    /// One entry per visited node, in evaluation order.
    pub node_reports: Vec<(NodeId, EvalNodeReport)>,
    /// One entry per failed node, in evaluation order.
    pub errors: Vec<EvalError>,
}

/// The node an error is reported against.
pub open spec fn err_node(e: EvalError) -> NodeId {
    match e {
        EvalError::Node { node, .. } => node,
        EvalError::Upstream { node, .. } => node,
    }
}

/// Whether some error in the list is reported against `n`.
pub open spec fn node_failed(errors: Seq<EvalError>, n: NodeId) -> bool {
    exists|i: int| 0 <= i < errors.len() && err_node(#[trigger] errors[i]) == n
}

/// Whether the list holds a `Node` (own-compute) error against `n`.
pub open spec fn is_node_error(errors: Seq<EvalError>, n: NodeId) -> bool {
    exists|i: int|
        0 <= i < errors.len() && ((#[trigger] errors[i]) matches EvalError::Node { node, .. }
            && node == n)
}

/// Whether the cache entry recorded before the pass is still valid for `n`:
/// present, successful, and carrying the node's current fingerprint.
pub open spec fn was_hit(g: Graph, s0: EvalState, n: NodeId) -> bool {
    match s0.entry(n) {
        Some(e) => e.ok && e.fingerprint@ == spec_fp(g, n),
        None => false,
    }
}

/// Whether some direct dependency of `n` failed this pass.
pub open spec fn dep_failed(g: Graph, errors: Seq<EvalError>, n: NodeId) -> bool {
    exists|m: NodeId| #[trigger] g.dep_edge(n, m) && node_failed(errors, m)
}

/// Copies a vector of node ids.
fn clone_ids(v: &Vec<NodeId>) -> (r: Vec<NodeId>)
    ensures
        r@ == v@,
{
    let len = v.len();
    let mut r: Vec<NodeId> = Vec::new();
    let mut i: usize = 0;
    while i < len
        invariant
            len == v@.len(),
            0 <= i <= len,
            r@ == v@.take(i as int),
        decreases len - i,
    {
        r.push(v[i]);
        proof {
            assert(r@ =~= v@.take(i + 1));
        }
        i += 1;
    }
    proof {
        assert(v@.take(len as int) =~= v@);
    }
    r
}

/// Membership scan in a node-id vector.
fn ids_contains(v: &Vec<NodeId>, x: NodeId) -> (r: bool)
    ensures
        r == v@.contains(x),
{
    let len = v.len();
    let mut i: usize = 0;
    while i < len
        invariant
            len == v@.len(),
            0 <= i <= len,
            forall|j: int| 0 <= j < i ==> v@[j] != x,
        decreases len - i,
    {
        if v[i] == x {
            proof {
                assert(v@[i as int] == x);
            }
            return true;
        }
        i += 1;
    }
    proof {
        if v@.contains(x) {
            let j = choose|j: int| 0 <= j < v@.len() && v@[j] == x;
        }
    }
    false
}

/// Everything one successful pass promises, relating the graph, the cache
/// before (`s0`) and after (`s1`), and the report.
pub open spec fn eval_pass_post<F: Fn(NodeId, &NodeParams) -> Result<(), String>>(
    g: Graph,
    t: NodeId,
    f: F,
    s0: EvalState,
    s1: EvalState,
    rep: EvalReport,
) -> bool {
    &&& rep.target == t
    &&& s1.wf()
    &&& s1.stats == (EvalCacheStats { hits: rep.cache_hits, misses: rep.cache_misses })
    &&& rep.output_valid == !node_failed(rep.errors@, t)
    &&& rep.computed@.no_duplicates()
    &&& rep.cache_hits == count_hits(rep.node_reports@)
    &&& rep.cache_misses == rep.computed@.len() + count_node_errors(rep.errors@)
    // Nodes outside the target's dependency cone are untouched.
    &&& (forall|n: NodeId| !g.reaches(t, n) ==> s1.entry(n) == s0.entry(n))
    // A valid cached entry with no failing dependency is served unchanged.
    &&& (forall|n: NodeId|
        g.reaches(t, n) && was_hit(g, s0, n) && !node_failed(rep.errors@, n) ==> s1.entry(n)
            == s0.entry(n))
    // The computed set is exactly the stale, unfailed part of the cone.
    &&& (forall|n: NodeId|
        rep.computed@.contains(n) == (g.reaches(t, n) && !was_hit(g, s0, n) && !node_failed(
            rep.errors@,
            n,
        )))
    // Freshly computed nodes carry a valid entry and a successful call.
    &&& (forall|n: NodeId|
        g.reaches(t, n) && !was_hit(g, s0, n) && !node_failed(rep.errors@, n) ==> ({
            let e = s1.entry(n);
            &&& e is Some
            &&& e->0.ok
            &&& e->0.fingerprint@ == spec_fp(g, n)
            &&& call_ensures(f, (n, &g.spec_node(n).params), Ok::<(), String>(()))
        }))
    // Errors name distinct nodes inside the cone.
    &&& (forall|k: int|
        0 <= k < rep.errors@.len() ==> g.reaches(t, err_node(#[trigger] rep.errors@[k])))
    &&& (forall|k1: int, k2: int|
        0 <= k1 < k2 < rep.errors@.len() ==> err_node(rep.errors@[k1]) != err_node(
            rep.errors@[k2],
        ))
    // Shape of each error.
    &&& (forall|k: int|
        0 <= k < rep.errors@.len() ==> match #[trigger] rep.errors@[k] {
            EvalError::Node { node, message } => {
                &&& !was_hit(g, s0, node)
                &&& call_ensures(f, (node, &g.spec_node(node).params), Err::<(), String>(message))
                &&& !dep_failed(g, rep.errors@, node)
                &&& s1.entry(node) == (match s0.entry(node) {
                    Some(e) => Some(CacheEntry { fingerprint: e.fingerprint, ok: false }),
                    None => None::<CacheEntry>,
                })
            },
            EvalError::Upstream { node, upstream } => {
                &&& dep_failed(g, rep.errors@, node)
                &&& s1.entry(node) == s0.entry(node)
                &&& upstream@.len() > 0
                &&& upstream@.no_duplicates()
                &&& (forall|y: NodeId|
                    upstream@.contains(y) ==> is_node_error(rep.errors@, y) && g.reaches(node, y))
                &&& (forall|y: NodeId|
                    is_node_error(rep.errors@, y) && #[trigger] g.reaches(node, y)
                        ==> upstream@.contains(y))
            },
        })
    // A node with a failing dependency is itself reported as failed.
    &&& (forall|n: NodeId|
        g.reaches(t, n) && dep_failed(g, rep.errors@, n) ==> node_failed(rep.errors@, n))
    // One report per node of the cone, in evaluation order.
    &&& (forall|k1: int, k2: int|
        0 <= k1 < k2 < rep.node_reports@.len() ==> rep.node_reports@[k1].0
            != rep.node_reports@[k2].0)
    &&& (forall|k: int|
        0 <= k < rep.node_reports@.len() ==> g.reaches(t, (#[trigger] rep.node_reports@[k]).0)
            && rep.node_reports@[k].1.cache_hit == (was_hit(g, s0, rep.node_reports@[k].0)
            && !node_failed(rep.errors@, rep.node_reports@[k].0)))
    &&& (forall|n: NodeId|
        #[trigger] g.reaches(t, n) ==> exists|k: int|
            0 <= k < rep.node_reports@.len() && (#[trigger] rep.node_reports@[k]).0 == n)
    // Witnesses that tie the counters to staleness.
    &&& (rep.cache_misses != 0 ==> exists|n: NodeId|
        #[trigger] g.reaches(t, n) && !was_hit(g, s0, n))
    &&& (rep.errors@.len() != 0 ==> exists|n: NodeId|
        #[trigger] g.reaches(t, n) && !was_hit(g, s0, n) && is_node_error(rep.errors@, n))
}

/// Number of per-node reports flagged as served from cache.
pub open spec fn count_hits(reports: Seq<(NodeId, EvalNodeReport)>) -> int
    decreases reports.len(),
{
    if reports.len() == 0 {
        0
    } else {
        count_hits(reports.drop_last()) + if reports.last().1.cache_hit {
            1int
        } else {
            0int
        }
    }
}

/// Number of own-compute (`Node`) errors in the list.
pub open spec fn count_node_errors(errors: Seq<EvalError>) -> int
    decreases errors.len(),
{
    if errors.len() == 0 {
        0
    } else {
        count_node_errors(errors.drop_last()) + (match errors.last() {
            EvalError::Node { .. } => 1int,
            EvalError::Upstream { .. } => 0int,
        })
    }
}

proof fn lemma_count_hits_push(s: Seq<(NodeId, EvalNodeReport)>, e: (NodeId, EvalNodeReport))
    ensures
        count_hits(s.push(e)) == count_hits(s) + if e.1.cache_hit {
            1int
        } else {
            0int
        },
{
    assert(s.push(e).drop_last() =~= s);
    assert(s.push(e).last() == e);
}

proof fn lemma_count_errors_push(s: Seq<EvalError>, e: EvalError)
    ensures
        count_node_errors(s.push(e)) == count_node_errors(s) + (match e {
            EvalError::Node { .. } => 1int,
            EvalError::Upstream { .. } => 0int,
        }),
{
    assert(s.push(e).drop_last() =~= s);
    assert(s.push(e).last() == e);
}

// ----- clock (trusted) -----

#[verifier::external_type_specification]
#[verifier::external_body]
pub struct ExInstant(std::time::Instant);

/// Relies on std::time::Instant::now for a timestamp. Nothing is assumed
/// about the value: timings are recorded but never influence control flow.
#[verifier::external_body]
fn clock_now() -> std::time::Instant {
    std::time::Instant::now()
}

/// Relies on std::time::Instant::elapsed for the time since `start`, in
/// microseconds (truncated into u64). Nothing is assumed about the value.
#[verifier::external_body]
fn clock_elapsed_us(start: &std::time::Instant) -> u64 {
    start.elapsed().as_micros() as u64
}

/// The dependency-order facts that the sort provides and the pass relies
/// on throughout.
pub open spec fn order_ok(g: Graph, target: NodeId, order: Seq<NodeId>) -> bool {
    &&& g.wf()
    &&& g.has_node(target)
    &&& order.no_duplicates()
    &&& order.contains(target)
    &&& (forall|x: int| 0 <= x < order.len() ==> g.reaches(target, #[trigger] order[x]))
    &&& (forall|m: NodeId| #[trigger] g.reaches(target, m) ==> order.contains(m))
    &&& (forall|x: int, m: NodeId|
        0 <= x < order.len() && #[trigger] g.dep_edge(order[x], m) ==> exists|j: int|
            0 <= j < x && order[j] == m)
    &&& (forall|x: int| 0 <= x < order.len() ==> g.has_node(#[trigger] order[x]))
}

/// The pass invariant after the first `i` nodes of the order have been
/// processed: everything `eval_pass_post` needs, restricted to the prefix.
/// Kept opaque so that the evaluation loop reasons about it only through
/// the step lemmas below.
#[verifier::opaque]
pub open spec fn pass_inv<F: Fn(NodeId, &NodeParams) -> Result<(), String>>(
    g: Graph,
    s0: EvalState,
    target: NodeId,
    order: Seq<NodeId>,
    i: int,
    st: EvalState,
    errors: Seq<EvalError>,
    failed: Seq<(NodeId, Vec<NodeId>)>,
    computed: Seq<NodeId>,
    f: F,
) -> bool {
    &&& st.wf()
    &&& (forall|k: int|
        0 <= k < errors.len() ==> exists|j: int|
            0 <= j < i && order[j] == err_node(#[trigger] errors[k]))
    &&& (forall|k1: int, k2: int|
        0 <= k1 < k2 < errors.len() ==> err_node(errors[k1]) != err_node(errors[k2]))
    &&& (errors.len() != 0 ==> exists|x: NodeId|
        #[trigger] g.reaches(target, x) && !was_hit(g, s0, x) && is_node_error(errors, x))
    &&& (forall|k: int|
        0 <= k < errors.len() ==> match #[trigger] errors[k] {
            EvalError::Node { node, message } => {
                &&& !was_hit(g, s0, node)
                &&& call_ensures(f, (node, &g.spec_node(node).params), Err::<(), String>(message))
                &&& !dep_failed(g, errors, node)
                &&& st.entry(node) == (match s0.entry(node) {
                    Some(e) => Some(CacheEntry { fingerprint: e.fingerprint, ok: false }),
                    None => None::<CacheEntry>,
                })
            },
            EvalError::Upstream { node, upstream } => {
                &&& dep_failed(g, errors, node)
                &&& st.entry(node) == s0.entry(node)
                &&& upstream@.len() > 0
                &&& upstream@.no_duplicates()
                &&& (forall|y: NodeId|
                    upstream@.contains(y) ==> is_node_error(errors, y) && g.reaches(node, y))
                &&& (forall|y: NodeId|
                    is_node_error(errors, y) && #[trigger] g.reaches(node, y)
                        ==> upstream@.contains(y))
            },
        })
    &&& assoc_unique(failed)
    &&& (forall|x: NodeId| node_failed(errors, x) == (assoc_get(failed, x) is Some))
    &&& (forall|k: int|
        0 <= k < failed.len() ==> ({
            let x = (#[trigger] failed[k]).0;
            let rts = failed[k].1;
            &&& node_failed(errors, x)
            &&& rts@.len() > 0
            &&& rts@.no_duplicates()
            &&& (forall|y: NodeId|
                rts@.contains(y) ==> is_node_error(errors, y) && g.reaches(x, y))
            &&& (forall|y: NodeId|
                is_node_error(errors, y) && #[trigger] g.reaches(x, y) ==> rts@.contains(y))
            &&& (is_node_error(errors, x) ==> rts@ == seq![x])
        }))
    &&& (forall|j: int|
        0 <= j < i && dep_failed(g, errors, #[trigger] order[j]) ==> node_failed(
            errors,
            order[j],
        ))
    &&& computed.no_duplicates()
    &&& (forall|x: NodeId|
        computed.contains(x) == ((exists|j: int| 0 <= j < i && order[j] == x) && !was_hit(
            g,
            s0,
            x,
        ) && !node_failed(errors, x)))
    &&& (forall|x: NodeId|
        !(exists|j: int| 0 <= j < i && order[j] == x) ==> st.entry(x) == s0.entry(x))
    &&& (forall|j: int|
        0 <= j < i && was_hit(g, s0, #[trigger] order[j]) && !node_failed(errors, order[j])
            ==> st.entry(order[j]) == s0.entry(order[j]))
    &&& (forall|j: int|
        0 <= j < i && !was_hit(g, s0, #[trigger] order[j]) && !node_failed(errors, order[j])
            ==> call_ensures(f, (order[j], &g.spec_node(order[j]).params), Ok::<(), String>(())))
    &&& (forall|j: int|
        0 <= j < i && !node_failed(errors, #[trigger] order[j]) ==> ({
            let e = st.entry(order[j]);
            &&& e is Some
            &&& e->0.ok
            &&& e->0.fingerprint@ == spec_fp(g, order[j])
        }))
}

/// The value stored in an association list is stored at some index.
proof fn lemma_assoc_some_index<V>(s: Seq<(NodeId, V)>, n: NodeId)
    requires
        assoc_get(s, n) is Some,
    ensures
        exists|k: int| 0 <= k < s.len() && #[trigger] s[k] == (n, assoc_get(s, n)->0),
    decreases s.len(),
{
    if s.len() > 0 {
        if s[0].0 == n {
            assert(s[0] == (n, assoc_get(s, n)->0));
        } else {
            lemma_assoc_some_index(s.drop_first(), n);
            let k = choose|k: int|
                0 <= k < s.drop_first().len() && #[trigger] s.drop_first()[k] == (
                    n,
                    assoc_get(s.drop_first(), n)->0,
                );
            assert(s[k + 1] == (n, assoc_get(s, n)->0));
        }
    }
}

/// A processed node is never the one being processed now.
proof fn lemma_not_processed(order: Seq<NodeId>, i: int, n: NodeId)
    requires
        order.no_duplicates(),
        0 <= i < order.len(),
        order[i] == n,
    ensures
        !(exists|j: int| 0 <= j < i && order[j] == n),
{
    if exists|j: int| 0 <= j < i && order[j] == n {
        let j = choose|j: int| 0 <= j < i && order[j] == n;
    }
}

/// Dropping the head of a dependency path leaves a dependency path.
proof fn lemma_drop_first_path(g: Graph, p: Seq<NodeId>)
    requires
        g.is_dep_path(p),
        p.len() >= 2,
    ensures
        g.is_dep_path(p.drop_first()),
        p.drop_first().len() == p.len() - 1,
        p.drop_first()[0] == p[1],
        p.drop_first().last() == p.last(),
{
    let q = p.drop_first();
    assert forall|x: int| 0 <= x < q.len() - 1 implies g.dep_edge(q[x], #[trigger] q[x + 1]) by {
        assert(q[x] == p[x + 1]);
        assert(q[x + 1] == p[x + 2]);
        assert(g.dep_edge(p[x + 1], p[x + 1 + 1]));
    }
}

/// Everything a node of a dependency order reaches sits at or before its
/// own position.
proof fn lemma_reaches_in_order_path(g: Graph, order: Seq<NodeId>, j: int, p: Seq<NodeId>)
    requires
        forall|x: int, m: NodeId|
            0 <= x < order.len() && #[trigger] g.dep_edge(order[x], m) ==> exists|j2: int|
                0 <= j2 < x && order[j2] == m,
        0 <= j < order.len(),
        g.is_dep_path(p),
        p.len() >= 1,
        p[0] == order[j],
    ensures
        exists|j2: int| 0 <= j2 <= j && order[j2] == p.last(),
    decreases p.len(),
{
    if p.len() == 1 {
        assert(0 <= j <= j && order[j] == p.last());
    } else {
        let zero: int = 0;
        assert(g.dep_edge(p[zero], p[zero + 1]));
        assert(g.dep_edge(order[j], p[1]));
        let j1 = choose|j2: int| 0 <= j2 < j && order[j2] == p[1];
        let q = p.drop_first();
        assert(q[0] == p[1]);
        assert(q.last() == p.last());
        assert forall|x: int| 0 <= x < q.len() - 1 implies g.dep_edge(q[x], #[trigger] q[x + 1]) by {
            assert(q[x] == p[x + 1]);
            assert(q[x + 1] == p[x + 2]);
            assert(g.dep_edge(p[x + 1], p[x + 1 + 1]));
        }
        assert(g.is_dep_path(q));
        lemma_reaches_in_order_path(g, order, j1, q);
        let j2 = choose|j3: int| 0 <= j3 <= j1 && order[j3] == q.last();
        assert(0 <= j2 <= j && order[j2] == p.last());
    }
}

/// Wrapper over a chosen path.
proof fn lemma_reaches_in_order(g: Graph, order: Seq<NodeId>, j: int, x: NodeId)
    requires
        forall|x2: int, m: NodeId|
            0 <= x2 < order.len() && #[trigger] g.dep_edge(order[x2], m) ==> exists|j2: int|
                0 <= j2 < x2 && order[j2] == m,
        0 <= j < order.len(),
        g.reaches(order[j], x),
    ensures
        exists|j2: int| 0 <= j2 <= j && order[j2] == x,
{
    let p = choose|p: Seq<NodeId>|
        p.len() >= 1 && p[0] == order[j] && p.last() == x && #[trigger] g.is_dep_path(p);
    lemma_reaches_in_order_path(g, order, j, p);
}

/// Failure propagates backward along a dependency path that starts at a
/// processed node: if the far end failed, so did the start.
proof fn lemma_failed_back_path(
    g: Graph,
    order: Seq<NodeId>,
    i: int,
    errors: Seq<EvalError>,
    p: Seq<NodeId>,
    j: int,
)
    requires
        forall|x: int, m: NodeId|
            0 <= x < order.len() && #[trigger] g.dep_edge(order[x], m) ==> exists|j2: int|
                0 <= j2 < x && order[j2] == m,
        0 <= i <= order.len(),
        forall|jj: int|
            0 <= jj < i && dep_failed(g, errors, #[trigger] order[jj]) ==> node_failed(
                errors,
                order[jj],
            ),
        g.is_dep_path(p),
        p.len() >= 1,
        node_failed(errors, p.last()),
        0 <= j < i,
        order[j] == p[0],
    ensures
        node_failed(errors, p[0]),
    decreases p.len(),
{
    if p.len() > 1 {
        let zero: int = 0;
        assert(g.dep_edge(p[zero], p[zero + 1]));
        assert(g.dep_edge(order[j], p[1]));
        let j1 = choose|j2: int| 0 <= j2 < j && order[j2] == p[1];
        let q = p.drop_first();
        assert(q[0] == p[1]);
        assert(q.last() == p.last());
        assert forall|x: int| 0 <= x < q.len() - 1 implies g.dep_edge(q[x], #[trigger] q[x + 1]) by {
            assert(q[x] == p[x + 1]);
            assert(q[x + 1] == p[x + 2]);
            assert(g.dep_edge(p[x + 1], p[x + 1 + 1]));
        }
        assert(g.is_dep_path(q));
        lemma_failed_back_path(g, order, i, errors, q, j1);
        assert(node_failed(errors, p[1]));
        assert(dep_failed(g, errors, order[j])) by {
            assert(g.dep_edge(order[j], p[1]) && node_failed(errors, p[1]));
        }
    }
}

/// Extracts from the opaque invariant exactly the clauses the exec helpers
/// need.
proof fn lemma_inv_parts<F: Fn(NodeId, &NodeParams) -> Result<(), String>>(
    g: Graph,
    s0: EvalState,
    target: NodeId,
    order: Seq<NodeId>,
    i: int,
    st: EvalState,
    errors: Seq<EvalError>,
    failed: Seq<(NodeId, Vec<NodeId>)>,
    computed: Seq<NodeId>,
    f: F,
)
    requires
        pass_inv(g, s0, target, order, i, st, errors, failed, computed, f),
    ensures
        st.wf(),
        assoc_unique(failed),
        forall|x: NodeId| node_failed(errors, x) == (assoc_get(failed, x) is Some),
        forall|kk: int|
            0 <= kk < failed.len() ==> ({
                let x = (#[trigger] failed[kk]).0;
                let rts = failed[kk].1;
                &&& node_failed(errors, x)
                &&& rts@.len() > 0
                &&& rts@.no_duplicates()
                &&& (forall|y: NodeId|
                    rts@.contains(y) ==> is_node_error(errors, y) && g.reaches(x, y))
                &&& (is_node_error(errors, x) ==> rts@ == seq![x])
            }),
        forall|j: int|
            0 <= j < i && !node_failed(errors, #[trigger] order[j]) ==> ({
                let e = st.entry(order[j]);
                &&& e is Some
                &&& e->0.ok
                &&& e->0.fingerprint@ == spec_fp(g, order[j])
            }),
{
    reveal(pass_inv);
}

/// The node about to be processed still carries its pre-pass entry.
proof fn lemma_unprocessed_entry<F: Fn(NodeId, &NodeParams) -> Result<(), String>>(
    g: Graph,
    s0: EvalState,
    target: NodeId,
    order: Seq<NodeId>,
    i: int,
    st: EvalState,
    errors: Seq<EvalError>,
    failed: Seq<(NodeId, Vec<NodeId>)>,
    computed: Seq<NodeId>,
    f: F,
)
    requires
        order.no_duplicates(),
        0 <= i < order.len(),
        pass_inv(g, s0, target, order, i, st, errors, failed, computed, f),
    ensures
        st.entry(order[i]) == s0.entry(order[i]),
{
    reveal(pass_inv);
    lemma_not_processed(order, i, order[i]);
}

/// Serving a valid cached node changes nothing the invariant tracks.
#[verifier::rlimit(60)]
proof fn lemma_step_hit<F: Fn(NodeId, &NodeParams) -> Result<(), String>>(
    g: Graph,
    s0: EvalState,
    target: NodeId,
    order: Seq<NodeId>,
    i: int,
    st: EvalState,
    errors: Seq<EvalError>,
    failed: Seq<(NodeId, Vec<NodeId>)>,
    computed: Seq<NodeId>,
    f: F,
)
    requires
        order_ok(g, target, order),
        pass_inv(g, s0, target, order, i, st, errors, failed, computed, f),
        0 <= i < order.len(),
        was_hit(g, s0, order[i]),
        !dep_failed(g, errors, order[i]),
    ensures
        pass_inv(g, s0, target, order, i + 1, st, errors, failed, computed, f),
        !node_failed(errors, order[i]),
        st.entry(order[i]) == s0.entry(order[i]),
        st.wf(),
        assoc_unique(failed),
{
    reveal(pass_inv);
    let n = order[i];
    lemma_not_processed(order, i, n);
    assert(!node_failed(errors, n)) by {
        if node_failed(errors, n) {
            let k = choose|k: int| 0 <= k < errors.len() && err_node(errors[k]) == n;
            let j = choose|j: int| 0 <= j < i && order[j] == err_node(errors[k]);
        }
    }
    assert(st.entry(n) == s0.entry(n));
    assert forall|k: int| 0 <= k < errors.len() implies exists|j: int|
        0 <= j < i + 1 && order[j] == err_node(#[trigger] errors[k]) by {
        let j = choose|j: int| 0 <= j < i && order[j] == err_node(errors[k]);
    }
    assert forall|x: NodeId|
        computed.contains(x) == ((exists|j: int| 0 <= j < i + 1 && order[j] == x) && !was_hit(
            g,
            s0,
            x,
        ) && !node_failed(errors, x)) by {
        if (exists|j: int| 0 <= j < i + 1 && order[j] == x) && !was_hit(g, s0, x)
            && !node_failed(errors, x) {
            let j = choose|j: int| 0 <= j < i + 1 && order[j] == x;
            if j == i {
                assert(was_hit(g, s0, x));
            }
        }
    }
    assert forall|x: NodeId|
        !(exists|j: int| 0 <= j < i + 1 && order[j] == x) implies st.entry(x) == s0.entry(
        x,
    ) by {
        assert(!(exists|j: int| 0 <= j < i && order[j] == x));
    }
}

/// Recording a fresh successful compute extends the invariant.
#[verifier::rlimit(60)]
proof fn lemma_step_success<F: Fn(NodeId, &NodeParams) -> Result<(), String>>(
    g: Graph,
    s0: EvalState,
    target: NodeId,
    order: Seq<NodeId>,
    i: int,
    st0: EvalState,
    st1: EvalState,
    errors: Seq<EvalError>,
    failed: Seq<(NodeId, Vec<NodeId>)>,
    computed0: Seq<NodeId>,
    computed1: Seq<NodeId>,
    f: F,
)
    requires
        order_ok(g, target, order),
        pass_inv(g, s0, target, order, i, st0, errors, failed, computed0, f),
        0 <= i < order.len(),
        !was_hit(g, s0, order[i]),
        !dep_failed(g, errors, order[i]),
        call_ensures(f, (order[i], &g.spec_node(order[i]).params), Ok::<(), String>(())),
        st1.wf(),
        st1.entry(order[i]) is Some,
        st1.entry(order[i])->0.ok,
        st1.entry(order[i])->0.fingerprint@ == spec_fp(g, order[i]),
        forall|m: NodeId| m != order[i] ==> st1.entry(m) == st0.entry(m),
        computed1 == computed0.push(order[i]),
    ensures
        pass_inv(g, s0, target, order, i + 1, st1, errors, failed, computed1, f),
        !node_failed(errors, order[i]),
        assoc_unique(failed),
{
    reveal(pass_inv);
    let n = order[i];
    lemma_not_processed(order, i, n);
    assert(!node_failed(errors, n)) by {
        if node_failed(errors, n) {
            let k = choose|k: int| 0 <= k < errors.len() && err_node(errors[k]) == n;
            let j = choose|j: int| 0 <= j < i && order[j] == err_node(errors[k]);
        }
    }
    assert forall|k: int| 0 <= k < errors.len() implies exists|j: int|
        0 <= j < i + 1 && order[j] == err_node(#[trigger] errors[k]) by {
        let j = choose|j: int| 0 <= j < i && order[j] == err_node(errors[k]);
    }
    // old error clauses only mention processed nodes, whose entries are
    // unchanged in st1
    assert forall|k: int| 0 <= k < errors.len() implies match #[trigger] errors[k] {
        EvalError::Node { node, message } => {
            &&& !was_hit(g, s0, node)
            &&& call_ensures(f, (node, &g.spec_node(node).params), Err::<(), String>(message))
            &&& !dep_failed(g, errors, node)
            &&& st1.entry(node) == (match s0.entry(node) {
                Some(e) => Some(CacheEntry { fingerprint: e.fingerprint, ok: false }),
                None => None::<CacheEntry>,
            })
        },
        EvalError::Upstream { node, upstream } => {
            &&& dep_failed(g, errors, node)
            &&& st1.entry(node) == s0.entry(node)
            &&& upstream@.len() > 0
            &&& upstream@.no_duplicates()
            &&& (forall|y: NodeId|
                upstream@.contains(y) ==> is_node_error(errors, y) && g.reaches(node, y))
            &&& (forall|y: NodeId|
                is_node_error(errors, y) && #[trigger] g.reaches(node, y) ==> upstream@.contains(
                    y,
                ))
        },
    } by {
        let j = choose|j: int| 0 <= j < i && order[j] == err_node(errors[k]);
        assert(err_node(errors[k]) != n);
    }
    assert(!computed0.contains(n)) by {
        if computed0.contains(n) {
            let j = choose|j: int| 0 <= j < i && order[j] == n;
        }
    }
    assert(computed1.no_duplicates()) by {
        assert(forall|u: int| 0 <= u < computed0.len() ==> computed1[u] == computed0[u]);
        assert(computed1[computed0.len() as int] == n);
    }
    assert forall|x: NodeId|
        computed1.contains(x) == ((exists|j: int| 0 <= j < i + 1 && order[j] == x) && !was_hit(
            g,
            s0,
            x,
        ) && !node_failed(errors, x)) by {
        assert(forall|u: int| 0 <= u < computed0.len() ==> computed1[u] == computed0[u]);
        assert(computed1[computed0.len() as int] == n);
        if computed1.contains(x) {
            let u = choose|u: int| 0 <= u < computed1.len() && computed1[u] == x;
            if u < computed0.len() {
                assert(computed0.contains(x));
                let j = choose|j: int| 0 <= j < i && order[j] == x;
            } else {
                assert(x == n);
            }
        }
        if (exists|j: int| 0 <= j < i + 1 && order[j] == x) && !was_hit(g, s0, x)
            && !node_failed(errors, x) {
            let j = choose|j: int| 0 <= j < i + 1 && order[j] == x;
            if j < i {
                assert(computed0.contains(x));
                let u = choose|u: int| 0 <= u < computed0.len() && computed0[u] == x;
                assert(computed1[u] == x);
            } else {
                assert(computed1[computed0.len() as int] == x);
            }
        }
    }
    assert forall|x: NodeId|
        !(exists|j: int| 0 <= j < i + 1 && order[j] == x) implies st1.entry(x) == s0.entry(
        x,
    ) by {
        assert(x != n);
        assert(!(exists|j: int| 0 <= j < i && order[j] == x));
    }
    assert forall|j: int|
        0 <= j < i + 1 && was_hit(g, s0, #[trigger] order[j]) && !node_failed(errors, order[j])
            implies st1.entry(order[j]) == s0.entry(order[j]) by {
        if j < i {
            assert(order[j] != n);
        }
    }
    assert forall|j: int|
        0 <= j < i + 1 && !node_failed(errors, #[trigger] order[j]) implies ({
        let e = st1.entry(order[j]);
        &&& e is Some
        &&& e->0.ok
        &&& e->0.fingerprint@ == spec_fp(g, order[j])
    }) by {
        if j < i {
            assert(order[j] != n);
        }
    }
}

/// Pushing a fresh error for the node currently being processed preserves
/// the shape of every earlier error: the new failure cannot be a dependency
/// of an earlier-processed node, because dependencies come strictly earlier
/// in a topological order.
#[verifier::rlimit(60)]
proof fn lemma_after_error_push<F: Fn(NodeId, &NodeParams) -> Result<(), String>>(
    g: Graph,
    s0: EvalState,
    st: EvalState,
    target: NodeId,
    order: Seq<NodeId>,
    i: int,
    errs0: Seq<EvalError>,
    errs1: Seq<EvalError>,
    failed: Seq<(NodeId, Vec<NodeId>)>,
    computed: Seq<NodeId>,
    n: NodeId,
    f: F,
)
    requires
        order_ok(g, target, order),
        pass_inv(g, s0, target, order, i, st, errs0, failed, computed, f),
        0 <= i < order.len(),
        order[i] == n,
        errs1.len() == errs0.len() + 1,
        forall|kk: int| 0 <= kk < errs0.len() ==> errs1[kk] == errs0[kk],
        err_node(errs1[errs0.len() as int]) == n,
    ensures
        forall|kk: int| 0 <= kk < errs0.len() ==> err_node(#[trigger] errs1[kk]) != n,
        forall|k1: int, k2: int|
            0 <= k1 < k2 < errs1.len() ==> err_node(errs1[k1]) != err_node(errs1[k2]),
        forall|kk: int|
            0 <= kk < errs1.len() ==> exists|j: int|
                0 <= j < i + 1 && order[j] == err_node(#[trigger] errs1[kk]),
        forall|x: NodeId| x != n ==> node_failed(errs1, x) == node_failed(errs0, x),
        forall|x: NodeId| x != n ==> is_node_error(errs1, x) == is_node_error(errs0, x),
        is_node_error(errs1, n) == (errs1[errs0.len() as int] matches EvalError::Node { .. }),
        node_failed(errs1, n),
        !node_failed(errs0, n),
        forall|kk: int|
            0 <= kk < errs0.len() ==> match #[trigger] errs1[kk] {
                EvalError::Node { node, message } => {
                    &&& !was_hit(g, s0, node)
                    &&& call_ensures(
                        f,
                        (node, &g.spec_node(node).params),
                        Err::<(), String>(message),
                    )
                    &&& !dep_failed(g, errs1, node)
                    &&& st.entry(node) == (match s0.entry(node) {
                        Some(e) => Some(CacheEntry { fingerprint: e.fingerprint, ok: false }),
                        None => None::<CacheEntry>,
                    })
                },
                EvalError::Upstream { node, upstream } => {
                    &&& dep_failed(g, errs1, node)
                    &&& st.entry(node) == s0.entry(node)
                    &&& upstream@.len() > 0
                    &&& upstream@.no_duplicates()
                    &&& (forall|y: NodeId|
                        upstream@.contains(y) ==> is_node_error(errs1, y) && g.reaches(node, y))
                    &&& (forall|y: NodeId|
                        is_node_error(errs1, y) && #[trigger] g.reaches(node, y)
                            ==> upstream@.contains(y))
                },
            },
{
    reveal(pass_inv);
    assert forall|kk: int| 0 <= kk < errs0.len() implies err_node(#[trigger] errs1[kk]) != n by {
        let j = choose|j: int| 0 <= j < i && order[j] == err_node(errs0[kk]);
        if err_node(errs0[kk]) == n {
            assert(order[j] == order[i]);
        }
    }
    assert(node_failed(errs1, n)) by {
        assert(err_node(errs1[errs0.len() as int]) == n);
    }
    assert(!node_failed(errs0, n)) by {
        if node_failed(errs0, n) {
            let kk = choose|kk: int| 0 <= kk < errs0.len() && err_node(errs0[kk]) == n;
        }
    }
    assert forall|x: NodeId| x != n implies node_failed(errs1, x) == node_failed(errs0, x) by {
        if node_failed(errs1, x) {
            let kk = choose|kk: int| 0 <= kk < errs1.len() && err_node(errs1[kk]) == x;
            assert(kk < errs0.len());
            assert(err_node(errs0[kk]) == x);
        }
        if node_failed(errs0, x) {
            let kk = choose|kk: int| 0 <= kk < errs0.len() && err_node(errs0[kk]) == x;
            assert(err_node(errs1[kk]) == x);
        }
    }
    assert forall|x: NodeId| x != n implies is_node_error(errs1, x) == is_node_error(
        errs0,
        x,
    ) by {
        if is_node_error(errs1, x) {
            let kk = choose|kk: int|
                0 <= kk < errs1.len() && ((#[trigger] errs1[kk]) matches EvalError::Node {
                    node,
                    ..
                } && node == x);
            assert(err_node(errs1[kk]) == x);
            assert(kk < errs0.len());
            assert(errs0[kk] == errs1[kk]);
        }
        if is_node_error(errs0, x) {
            let kk = choose|kk: int|
                0 <= kk < errs0.len() && ((#[trigger] errs0[kk]) matches EvalError::Node {
                    node,
                    ..
                } && node == x);
            assert(errs1[kk] == errs0[kk]);
        }
    }
    assert(is_node_error(errs1, n) == (errs1[errs0.len() as int] matches EvalError::Node {
        ..
    })) by {
        if is_node_error(errs1, n) {
            let kk = choose|kk: int|
                0 <= kk < errs1.len() && ((#[trigger] errs1[kk]) matches EvalError::Node {
                    node,
                    ..
                } && node == n);
            assert(err_node(errs1[kk]) == n);
            if kk < errs0.len() {
                assert(err_node(errs1[kk]) != n);
            }
        }
        if errs1[errs0.len() as int] matches EvalError::Node { .. } {
            let le = errs0.len() as int;
            match errs1[le] {
                EvalError::Node { node, .. } => {
                    assert(err_node(errs1[le]) == node);
                    assert(node == n);
                    assert(0 <= le < errs1.len() && (errs1[le] matches EvalError::Node {
                        node: n2,
                        ..
                    } && n2 == n));
                },
                EvalError::Upstream { .. } => {},
            }
        }
    }
    assert forall|kk: int| 0 <= kk < errs0.len() implies match #[trigger] errs1[kk] {
        EvalError::Node { node, message } => {
            &&& !was_hit(g, s0, node)
            &&& call_ensures(f, (node, &g.spec_node(node).params), Err::<(), String>(message))
            &&& !dep_failed(g, errs1, node)
            &&& st.entry(node) == (match s0.entry(node) {
                Some(e) => Some(CacheEntry { fingerprint: e.fingerprint, ok: false }),
                None => None::<CacheEntry>,
            })
        },
        EvalError::Upstream { node, upstream } => {
            &&& dep_failed(g, errs1, node)
            &&& st.entry(node) == s0.entry(node)
            &&& upstream@.len() > 0
            &&& upstream@.no_duplicates()
            &&& (forall|y: NodeId|
                upstream@.contains(y) ==> is_node_error(errs1, y) && g.reaches(node, y))
            &&& (forall|y: NodeId|
                is_node_error(errs1, y) && #[trigger] g.reaches(node, y) ==> upstream@.contains(
                    y,
                ))
        },
    } by {
        assert(errs1[kk] == errs0[kk]);
        let j = choose|j: int| 0 <= j < i && order[j] == err_node(errs0[kk]);
        match errs0[kk] {
            EvalError::Node { node, message } => {
                assert(order[j] == node);
                assert(!dep_failed(g, errs1, node)) by {
                    if dep_failed(g, errs1, node) {
                        let m = choose|m: NodeId|
                            #[trigger] g.dep_edge(node, m) && node_failed(errs1, m);
                        if m == n {
                            assert(g.dep_edge(order[j], n));
                            let j2 = choose|j2: int| 0 <= j2 < j && order[j2] == n;
                            assert(order[j2] == order[i]);
                        } else {
                            assert(node_failed(errs0, m));
                        }
                    }
                }
            },
            EvalError::Upstream { node, upstream } => {
                assert(order[j] == node);
                assert(dep_failed(g, errs1, node)) by {
                    let m = choose|m: NodeId|
                        #[trigger] g.dep_edge(node, m) && node_failed(errs0, m);
                    assert(m != n);
                    assert(node_failed(errs1, m));
                }
                assert forall|y: NodeId| upstream@.contains(y) implies is_node_error(errs1, y)
                    && g.reaches(node, y) by {
                    assert(is_node_error(errs0, y));
                    assert(y != n) by {
                        if y == n {
                            let kk2 = choose|kk2: int|
                                0 <= kk2 < errs0.len() && ((#[trigger] errs0[kk2])
                                    matches EvalError::Node { node: n2, .. } && n2 == y);
                            assert(err_node(errs0[kk2]) == n);
                        }
                    }
                }
                assert forall|y: NodeId|
                    is_node_error(errs1, y) && #[trigger] g.reaches(node, y)
                        implies upstream@.contains(y) by {
                    if y == n {
                        lemma_reaches_in_order(g, order, j, n);
                        let j2 = choose|j2: int| 0 <= j2 <= j && order[j2] == n;
                        assert(order[j2] == order[i]);
                    } else {
                        assert(is_node_error(errs0, y));
                    }
                }
            },
        }
    }
    assert forall|k1: int, k2: int| 0 <= k1 < k2 < errs1.len() implies err_node(errs1[k1])
        != err_node(errs1[k2]) by {
        if k2 < errs0.len() {
        } else {
            assert(err_node(errs1[k1]) != n);
        }
    }
    assert forall|kk: int| 0 <= kk < errs1.len() implies exists|j: int|
        0 <= j < i + 1 && order[j] == err_node(#[trigger] errs1[kk]) by {
        if kk < errs0.len() {
            let j = choose|j: int| 0 <= j < i && order[j] == err_node(errs0[kk]);
            assert(order[j] == err_node(errs1[kk]));
        } else {
            assert(order[i] == err_node(errs1[kk]));
        }
    }
}

/// Recording a node's own compute failure extends the invariant.
#[verifier::rlimit(100)]
proof fn lemma_step_node_error<F: Fn(NodeId, &NodeParams) -> Result<(), String>>(
    g: Graph,
    s0: EvalState,
    target: NodeId,
    order: Seq<NodeId>,
    i: int,
    st0: EvalState,
    st1: EvalState,
    errs0: Seq<EvalError>,
    errs1: Seq<EvalError>,
    failed0: Seq<(NodeId, Vec<NodeId>)>,
    failed1: Seq<(NodeId, Vec<NodeId>)>,
    computed: Seq<NodeId>,
    msg: String,
    f: F,
)
    requires
        order_ok(g, target, order),
        pass_inv(g, s0, target, order, i, st0, errs0, failed0, computed, f),
        0 <= i < order.len(),
        !was_hit(g, s0, order[i]),
        !dep_failed(g, errs0, order[i]),
        call_ensures(f, (order[i], &g.spec_node(order[i]).params), Err::<(), String>(msg)),
        errs1 == errs0.push(EvalError::Node { node: order[i], message: msg }),
        st1.wf(),
        st1.entry(order[i]) == (match st0.entry(order[i]) {
            Some(e) => Some(CacheEntry { fingerprint: e.fingerprint, ok: false }),
            None => None::<CacheEntry>,
        }),
        forall|m: NodeId| m != order[i] ==> st1.entry(m) == st0.entry(m),
        failed1.len() == failed0.len() + 1,
        forall|kk: int| 0 <= kk < failed0.len() ==> failed1[kk] == failed0[kk],
        failed1[failed0.len() as int].0 == order[i],
        failed1[failed0.len() as int].1@ == seq![order[i]],
    ensures
        pass_inv(g, s0, target, order, i + 1, st1, errs1, failed1, computed, f),
        node_failed(errs1, order[i]),
        is_node_error(errs1, order[i]),
        forall|x: NodeId| x != order[i] ==> node_failed(errs1, x) == node_failed(errs0, x),
        assoc_unique(failed1),
{
    reveal(pass_inv);
    let n = order[i];
    lemma_not_processed(order, i, n);
    lemma_after_error_push(g, s0, st0, target, order, i, errs0, errs1, failed0, computed, n, f);
    g.lemma_reaches_refl(n);
    let le = errs0.len() as int;
    assert(err_node(errs1[le]) == n);
    assert(is_node_error(errs1, n));
    // old error clauses transfer from st0 to st1 since their nodes differ
    // from n
    assert forall|kk: int| 0 <= kk < errs0.len() implies match #[trigger] errs1[kk] {
        EvalError::Node { node, message } => {
            &&& !was_hit(g, s0, node)
            &&& call_ensures(f, (node, &g.spec_node(node).params), Err::<(), String>(message))
            &&& !dep_failed(g, errs1, node)
            &&& st1.entry(node) == (match s0.entry(node) {
                Some(e) => Some(CacheEntry { fingerprint: e.fingerprint, ok: false }),
                None => None::<CacheEntry>,
            })
        },
        EvalError::Upstream { node, upstream } => {
            &&& dep_failed(g, errs1, node)
            &&& st1.entry(node) == s0.entry(node)
            &&& upstream@.len() > 0
            &&& upstream@.no_duplicates()
            &&& (forall|y: NodeId|
                upstream@.contains(y) ==> is_node_error(errs1, y) && g.reaches(node, y))
            &&& (forall|y: NodeId|
                is_node_error(errs1, y) && #[trigger] g.reaches(node, y) ==> upstream@.contains(
                    y,
                ))
        },
    } by {
        assert(err_node(errs1[kk]) != n);
        match errs1[kk] {
            EvalError::Node { node, .. } => {
                assert(node != n);
                assert(st1.entry(node) == st0.entry(node));
            },
            EvalError::Upstream { node, .. } => {
                assert(node != n);
                assert(st1.entry(node) == st0.entry(node));
            },
        }
    }
    // the new error's own clause
    assert(match errs1[le] {
        EvalError::Node { node, message } => {
            &&& !was_hit(g, s0, node)
            &&& call_ensures(f, (node, &g.spec_node(node).params), Err::<(), String>(message))
            &&& !dep_failed(g, errs1, node)
            &&& st1.entry(node) == (match s0.entry(node) {
                Some(e) => Some(CacheEntry { fingerprint: e.fingerprint, ok: false }),
                None => None::<CacheEntry>,
            })
        },
        EvalError::Upstream { .. } => true,
    }) by {
        assert(!dep_failed(g, errs1, n)) by {
            if dep_failed(g, errs1, n) {
                let m = choose|m: NodeId| #[trigger] g.dep_edge(n, m) && node_failed(errs1, m);
                if m == n {
                    // a dependency self-edge contradicts the acyclic order
                    let j2 = choose|j2: int| 0 <= j2 < i && order[j2] == n;
                    assert(order[j2] == order[i]);
                } else {
                    assert(node_failed(errs0, m));
                }
            }
        }
        assert(st0.entry(n) == s0.entry(n));
    }
    // failed list
    assert(assoc_unique(failed1)) by {
        assert forall|x1: int, x2: int| 0 <= x1 < x2 < failed1.len() implies failed1[x1].0
            != failed1[x2].0 by {
            if x2 == failed0.len() {
                if failed1[x1].0 == n {
                    assert(node_failed(errs0, failed0[x1].0));
                }
            }
        }
    }
    assert forall|x: NodeId| node_failed(errs1, x) == (assoc_get(failed1, x) is Some) by {
        if x == n {
            lemma_assoc_get_present(failed1, n, failed0.len() as int);
        } else {
            lemma_assoc_get_push_other(failed0, failed1[failed0.len() as int], x);
            assert(failed1 =~= failed0.push(failed1[failed0.len() as int]));
        }
    }
    assert forall|k: int| 0 <= k < failed1.len() implies ({
        let x = (#[trigger] failed1[k]).0;
        let rts = failed1[k].1;
        &&& node_failed(errs1, x)
        &&& rts@.len() > 0
        &&& rts@.no_duplicates()
        &&& (forall|y: NodeId| rts@.contains(y) ==> is_node_error(errs1, y) && g.reaches(x, y))
        &&& (forall|y: NodeId|
            is_node_error(errs1, y) && #[trigger] g.reaches(x, y) ==> rts@.contains(y))
        &&& (is_node_error(errs1, x) ==> rts@ == seq![x])
    }) by {
        if k < failed0.len() {
            let x = failed1[k].0;
            assert(failed1[k] == failed0[k]);
            assert(node_failed(errs0, x));
            assert(x != n) by {
                if x == n {
                    assert(node_failed(errs0, n));
                }
            }
            assert forall|y: NodeId| failed0[k].1@.contains(y) implies is_node_error(errs1, y)
                && g.reaches(x, y) by {
                assert(is_node_error(errs0, y));
                assert(y != n) by {
                    if y == n {
                        let kk2 = choose|kk2: int|
                            0 <= kk2 < errs0.len() && ((#[trigger] errs0[kk2])
                                matches EvalError::Node { node: n2, .. } && n2 == y);
                        assert(err_node(errs0[kk2]) == n);
                    }
                }
            }
            assert forall|y: NodeId|
                is_node_error(errs1, y) && #[trigger] g.reaches(x, y)
                    implies failed0[k].1@.contains(y) by {
                let ke = choose|ke: int| 0 <= ke < errs0.len() && err_node(errs0[ke]) == x;
                let jx = choose|j: int| 0 <= j < i && order[j] == err_node(errs0[ke]);
                if y == n {
                    lemma_reaches_in_order(g, order, jx, n);
                    let j2 = choose|j2: int| 0 <= j2 <= jx && order[j2] == n;
                    assert(order[j2] == order[i]);
                } else {
                    assert(is_node_error(errs0, y));
                }
            }
        } else {
            let rts = failed1[k].1;
            assert(rts@ == seq![n]);
            assert(rts@[0] == n);
            assert forall|y: NodeId| rts@.contains(y) implies is_node_error(errs1, y)
                && g.reaches(n, y) by {
                let u = choose|u: int| 0 <= u < rts@.len() && rts@[u] == y;
                assert(y == n);
            }
            assert forall|y: NodeId|
                is_node_error(errs1, y) && #[trigger] g.reaches(n, y) implies rts@.contains(
                y,
            ) by {
                if y == n {
                    assert(rts@.contains(n)) by {
                        assert(rts@[0] == n);
                    }
                } else {
                    assert(is_node_error(errs0, y));
                    assert(node_failed(errs0, y)) by {
                        let kk2 = choose|kk2: int|
                            0 <= kk2 < errs0.len() && ((#[trigger] errs0[kk2])
                                matches EvalError::Node { node: n2, .. } && n2 == y);
                        assert(err_node(errs0[kk2]) == y);
                    }
                    let p = g.lemma_simple_path(n, y);
                    assert(p.len() >= 2) by {
                        if p.len() == 1 {
                            assert(p[0] == p.last());
                        }
                    }
                    let zero: int = 0;
                    assert(g.dep_edge(p[zero], p[zero + 1]));
                    assert(g.dep_edge(order[i], p[1]));
                    let jm = choose|j2: int| 0 <= j2 < i && order[j2] == p[1];
                    lemma_drop_first_path(g, p);
                    lemma_failed_back_path(g, order, i, errs0, p.drop_first(), jm);
                    assert(node_failed(errs0, p[1]));
                    assert(dep_failed(g, errs0, n)) by {
                        assert(g.dep_edge(n, p[1]) && node_failed(errs0, p[1]));
                    }
                }
            }
        }
    }
    // propagation
    assert forall|j: int|
        0 <= j < i + 1 && dep_failed(g, errs1, #[trigger] order[j]) implies node_failed(
        errs1,
        order[j],
    ) by {
        if j < i {
            if dep_failed(g, errs1, order[j]) {
                let m = choose|m: NodeId|
                    #[trigger] g.dep_edge(order[j], m) && node_failed(errs1, m);
                if m == n {
                    let j2 = choose|j2: int| 0 <= j2 < j && order[j2] == n;
                    assert(order[j2] == order[i]);
                } else {
                    assert(node_failed(errs0, m));
                    assert(dep_failed(g, errs0, order[j]));
                }
            }
        }
    }
    // computed unchanged
    assert forall|x: NodeId|
        computed.contains(x) == ((exists|j: int| 0 <= j < i + 1 && order[j] == x) && !was_hit(
            g,
            s0,
            x,
        ) && !node_failed(errs1, x)) by {
        if computed.contains(x) {
            let j = choose|j: int| 0 <= j < i && order[j] == x;
            assert(x != n);
        }
        if (exists|j: int| 0 <= j < i + 1 && order[j] == x) && !was_hit(g, s0, x)
            && !node_failed(errs1, x) {
            let j = choose|j: int| 0 <= j < i + 1 && order[j] == x;
            if j == i {
                assert(node_failed(errs1, n));
            } else {
                assert(x != n);
                assert(node_failed(errs0, x) == node_failed(errs1, x));
            }
        }
    }
    // entry frames
    assert forall|x: NodeId|
        !(exists|j: int| 0 <= j < i + 1 && order[j] == x) implies st1.entry(x) == s0.entry(
        x,
    ) by {
        assert(x != n);
        assert(!(exists|j: int| 0 <= j < i && order[j] == x));
    }
    assert forall|j: int|
        0 <= j < i + 1 && was_hit(g, s0, #[trigger] order[j]) && !node_failed(errs1, order[j])
            implies st1.entry(order[j]) == s0.entry(order[j]) by {
        if j < i {
            assert(order[j] != n);
            assert(node_failed(errs0, order[j]) == node_failed(errs1, order[j]));
        } else {
            assert(node_failed(errs1, n));
        }
    }
    assert forall|j: int|
        0 <= j < i + 1 && !was_hit(g, s0, #[trigger] order[j]) && !node_failed(errs1, order[j])
            implies call_ensures(
        f,
        (order[j], &g.spec_node(order[j]).params),
        Ok::<(), String>(()),
    ) by {
        if j < i {
            assert(order[j] != n);
            assert(node_failed(errs0, order[j]) == node_failed(errs1, order[j]));
        } else {
            assert(node_failed(errs1, n));
        }
    }
    assert forall|j: int|
        0 <= j < i + 1 && !node_failed(errs1, #[trigger] order[j]) implies ({
        let e = st1.entry(order[j]);
        &&& e is Some
        &&& e->0.ok
        &&& e->0.fingerprint@ == spec_fp(g, order[j])
    }) by {
        if j < i {
            assert(order[j] != n);
            assert(node_failed(errs0, order[j]) == node_failed(errs1, order[j]));
        } else {
            assert(node_failed(errs1, n));
        }
    }
    // error witness
    assert(errs1.len() != 0 ==> exists|x: NodeId|
        #[trigger] g.reaches(target, x) && !was_hit(g, s0, x) && is_node_error(errs1, x)) by {
        assert(g.reaches(target, n));
        assert(is_node_error(errs1, n));
    }
}

/// Recording an upstream-failure skip extends the invariant.
#[verifier::rlimit(100)]
proof fn lemma_step_upstream<F: Fn(NodeId, &NodeParams) -> Result<(), String>>(
    g: Graph,
    s0: EvalState,
    target: NodeId,
    order: Seq<NodeId>,
    i: int,
    st: EvalState,
    errs0: Seq<EvalError>,
    errs1: Seq<EvalError>,
    failed0: Seq<(NodeId, Vec<NodeId>)>,
    failed1: Seq<(NodeId, Vec<NodeId>)>,
    computed: Seq<NodeId>,
    rts: Seq<NodeId>,
    f: F,
)
    requires
        order_ok(g, target, order),
        pass_inv(g, s0, target, order, i, st, errs0, failed0, computed, f),
        0 <= i < order.len(),
        dep_failed(g, errs0, order[i]),
        errs1.len() == errs0.len() + 1,
        forall|kk: int| 0 <= kk < errs0.len() ==> errs1[kk] == errs0[kk],
        errs1[errs0.len() as int] matches EvalError::Upstream { node, upstream } && node
            == order[i] && upstream@ == rts,
        rts.len() > 0,
        rts.no_duplicates(),
        forall|y: NodeId|
            rts.contains(y) ==> is_node_error(errs0, y) && g.reaches(order[i], y),
        forall|y: NodeId|
            is_node_error(errs0, y) && #[trigger] g.reaches(order[i], y) ==> rts.contains(y),
        failed1.len() == failed0.len() + 1,
        forall|kk: int| 0 <= kk < failed0.len() ==> failed1[kk] == failed0[kk],
        failed1[failed0.len() as int].0 == order[i],
        failed1[failed0.len() as int].1@ == rts,
    ensures
        pass_inv(g, s0, target, order, i + 1, st, errs1, failed1, computed, f),
        node_failed(errs1, order[i]),
        forall|x: NodeId| x != order[i] ==> node_failed(errs1, x) == node_failed(errs0, x),
        st.wf(),
        assoc_unique(failed1),
{
    reveal(pass_inv);
    let n = order[i];
    lemma_not_processed(order, i, n);
    assert(err_node(errs1[errs0.len() as int]) == n) by {
        match errs1[errs0.len() as int] {
            EvalError::Upstream { node, .. } => {
                assert(node == n);
            },
            EvalError::Node { .. } => {},
        }
    }
    lemma_after_error_push(g, s0, st, target, order, i, errs0, errs1, failed0, computed, n, f);
    let le = errs0.len() as int;
    // the new error's own clause
    assert(match errs1[le] {
        EvalError::Node { .. } => true,
        EvalError::Upstream { node, upstream } => {
            &&& dep_failed(g, errs1, node)
            &&& st.entry(node) == s0.entry(node)
            &&& upstream@.len() > 0
            &&& upstream@.no_duplicates()
            &&& (forall|y: NodeId|
                upstream@.contains(y) ==> is_node_error(errs1, y) && g.reaches(node, y))
            &&& (forall|y: NodeId|
                is_node_error(errs1, y) && #[trigger] g.reaches(node, y) ==> upstream@.contains(
                    y,
                ))
        },
    }) by {
        assert(dep_failed(g, errs1, n)) by {
            let m = choose|m: NodeId| #[trigger] g.dep_edge(n, m) && node_failed(errs0, m);
            assert(m != n);
            assert(node_failed(errs1, m));
        }
        assert(st.entry(n) == s0.entry(n));
        assert(!is_node_error(errs1, n));
        assert forall|y: NodeId| rts.contains(y) implies is_node_error(errs1, y) && g.reaches(
            n,
            y,
        ) by {
            assert(is_node_error(errs0, y));
            assert(y != n) by {
                if y == n {
                    let kk2 = choose|kk2: int|
                        0 <= kk2 < errs0.len() && ((#[trigger] errs0[kk2])
                            matches EvalError::Node { node: n2, .. } && n2 == y);
                    assert(err_node(errs0[kk2]) == n);
                }
            }
        }
        assert forall|y: NodeId|
            is_node_error(errs1, y) && #[trigger] g.reaches(n, y) implies rts.contains(y) by {
            assert(y != n);
            assert(is_node_error(errs0, y));
        }
    }
    // failed list
    assert(assoc_unique(failed1)) by {
        assert forall|x1: int, x2: int| 0 <= x1 < x2 < failed1.len() implies failed1[x1].0
            != failed1[x2].0 by {
            if x2 == failed0.len() {
                if failed1[x1].0 == n {
                    assert(node_failed(errs0, failed0[x1].0));
                }
            }
        }
    }
    assert forall|x: NodeId| node_failed(errs1, x) == (assoc_get(failed1, x) is Some) by {
        if x == n {
            lemma_assoc_get_present(failed1, n, failed0.len() as int);
        } else {
            lemma_assoc_get_push_other(failed0, failed1[failed0.len() as int], x);
            assert(failed1 =~= failed0.push(failed1[failed0.len() as int]));
        }
    }
    assert forall|k: int| 0 <= k < failed1.len() implies ({
        let x = (#[trigger] failed1[k]).0;
        let rts2 = failed1[k].1;
        &&& node_failed(errs1, x)
        &&& rts2@.len() > 0
        &&& rts2@.no_duplicates()
        &&& (forall|y: NodeId| rts2@.contains(y) ==> is_node_error(errs1, y) && g.reaches(x, y))
        &&& (forall|y: NodeId|
            is_node_error(errs1, y) && #[trigger] g.reaches(x, y) ==> rts2@.contains(y))
        &&& (is_node_error(errs1, x) ==> rts2@ == seq![x])
    }) by {
        assert(!is_node_error(errs1, n));
        if k < failed0.len() {
            let x = failed1[k].0;
            assert(failed1[k] == failed0[k]);
            assert(node_failed(errs0, x));
            assert(x != n) by {
                if x == n {
                    assert(node_failed(errs0, n));
                }
            }
            assert forall|y: NodeId| failed0[k].1@.contains(y) implies is_node_error(errs1, y)
                && g.reaches(x, y) by {
                assert(is_node_error(errs0, y));
                assert(y != n) by {
                    if y == n {
                        let kk2 = choose|kk2: int|
                            0 <= kk2 < errs0.len() && ((#[trigger] errs0[kk2])
                                matches EvalError::Node { node: n2, .. } && n2 == y);
                        assert(err_node(errs0[kk2]) == n);
                    }
                }
            }
            assert forall|y: NodeId|
                is_node_error(errs1, y) && #[trigger] g.reaches(x, y)
                    implies failed0[k].1@.contains(y) by {
                assert(y != n);
                assert(is_node_error(errs0, y));
            }
        } else {
            assert(failed1[k].0 == n);
            assert(failed1[k].1@ == rts);
            assert(!is_node_error(errs1, n)) by {
                assert(!(errs1[le] matches EvalError::Node { .. }));
            }
            assert forall|y: NodeId|
                is_node_error(errs1, y) && #[trigger] g.reaches(n, y) implies rts.contains(
                y,
            ) by {
                assert(y != n);
                assert(is_node_error(errs0, y));
            }
        }
    }
    // propagation
    assert forall|j: int|
        0 <= j < i + 1 && dep_failed(g, errs1, #[trigger] order[j]) implies node_failed(
        errs1,
        order[j],
    ) by {
        if j < i {
            if dep_failed(g, errs1, order[j]) {
                let m = choose|m: NodeId|
                    #[trigger] g.dep_edge(order[j], m) && node_failed(errs1, m);
                if m == n {
                    let j2 = choose|j2: int| 0 <= j2 < j && order[j2] == n;
                    assert(order[j2] == order[i]);
                } else {
                    assert(node_failed(errs0, m));
                    assert(dep_failed(g, errs0, order[j]));
                }
            }
        } else {
            assert(node_failed(errs1, n));
        }
    }
    // computed unchanged
    assert forall|x: NodeId|
        computed.contains(x) == ((exists|j: int| 0 <= j < i + 1 && order[j] == x) && !was_hit(
            g,
            s0,
            x,
        ) && !node_failed(errs1, x)) by {
        if computed.contains(x) {
            let j = choose|j: int| 0 <= j < i && order[j] == x;
            assert(x != n);
        }
        if (exists|j: int| 0 <= j < i + 1 && order[j] == x) && !was_hit(g, s0, x)
            && !node_failed(errs1, x) {
            let j = choose|j: int| 0 <= j < i + 1 && order[j] == x;
            if j == i {
                assert(node_failed(errs1, n));
            } else {
                assert(x != n);
                assert(node_failed(errs0, x) == node_failed(errs1, x));
            }
        }
    }
    // entry frames (state untouched)
    assert forall|x: NodeId|
        !(exists|j: int| 0 <= j < i + 1 && order[j] == x) implies st.entry(x) == s0.entry(x) by {
        assert(!(exists|j: int| 0 <= j < i && order[j] == x));
    }
    assert forall|j: int|
        0 <= j < i + 1 && was_hit(g, s0, #[trigger] order[j]) && !node_failed(errs1, order[j])
            implies st.entry(order[j]) == s0.entry(order[j]) by {
        if j < i {
            assert(order[j] != n);
            assert(node_failed(errs0, order[j]) == node_failed(errs1, order[j]));
        } else {
            assert(node_failed(errs1, n));
        }
    }
    assert forall|j: int|
        0 <= j < i + 1 && !was_hit(g, s0, #[trigger] order[j]) && !node_failed(errs1, order[j])
            implies call_ensures(
        f,
        (order[j], &g.spec_node(order[j]).params),
        Ok::<(), String>(()),
    ) by {
        if j < i {
            assert(order[j] != n);
            assert(node_failed(errs0, order[j]) == node_failed(errs1, order[j]));
        } else {
            assert(node_failed(errs1, n));
        }
    }
    assert forall|j: int|
        0 <= j < i + 1 && !node_failed(errs1, #[trigger] order[j]) implies ({
        let e = st.entry(order[j]);
        &&& e is Some
        &&& e->0.ok
        &&& e->0.fingerprint@ == spec_fp(g, order[j])
    }) by {
        if j < i {
            assert(order[j] != n);
            assert(node_failed(errs0, order[j]) == node_failed(errs1, order[j]));
        } else {
            assert(node_failed(errs1, n));
        }
    }
    // error witness: the dependency chain bottoms out in some own-failure
    assert(errs1.len() != 0 ==> exists|x: NodeId|
        #[trigger] g.reaches(target, x) && !was_hit(g, s0, x) && is_node_error(errs1, x)) by {
        assert(errs0.len() != 0) by {
            let m = choose|m: NodeId| #[trigger] g.dep_edge(n, m) && node_failed(errs0, m);
            let kk = choose|kk: int| 0 <= kk < errs0.len() && err_node(errs0[kk]) == m;
        }
        let x = choose|x: NodeId|
            #[trigger] g.reaches(target, x) && !was_hit(g, s0, x) && is_node_error(errs0, x);
        assert(x != n) by {
            if x == n {
                let kk2 = choose|kk2: int|
                    0 <= kk2 < errs0.len() && ((#[trigger] errs0[kk2]) matches EvalError::Node {
                        node: n2,
                        ..
                    } && n2 == x);
                assert(err_node(errs0[kk2]) == n);
                assert(node_failed(errs0, n));
                lemma_not_processed(order, i, n);
                let j = choose|j: int|
                    0 <= j < i && order[j] == err_node(errs0[kk2]);
            }
        }
        assert(is_node_error(errs1, x));
    }
}

/// Merges the recorded root causes of the failed dependency `m` into the
/// accumulating root set for `n`, keeping it duplicate-free.
#[verifier::rlimit(100)]
fn merge_roots(
    graph: &Graph,
    roots: &mut Vec<NodeId>,
    rts: &Vec<NodeId>,
    n: NodeId,
    m: NodeId,
    Ghost(errors): Ghost<Seq<EvalError>>,
)
    requires
        graph.dep_edge(n, m),
        rts@.len() > 0,
        rts@.no_duplicates(),
        forall|y: NodeId| #[trigger] rts@.contains(y) ==> is_node_error(errors, y)
            && graph.reaches(m, y),
        old(roots)@.no_duplicates(),
        forall|y: NodeId|
            #[trigger] old(roots)@.contains(y) ==> is_node_error(errors, y) && graph.reaches(
                n,
                y,
            ),
    ensures
        final(roots)@.no_duplicates(),
        final(roots)@.len() > 0,
        forall|y: NodeId|
            #[trigger] final(roots)@.contains(y) ==> is_node_error(errors, y) && graph.reaches(
                n,
                y,
            ),
        forall|y: NodeId| #[trigger] old(roots)@.contains(y) ==> final(roots)@.contains(y),
        forall|y: NodeId| #[trigger] rts@.contains(y) ==> final(roots)@.contains(y),
{
    let ghost r0 = old(roots)@;
    let rlen = rts.len();
    let mut t2: usize = 0;
    while t2 < rlen
        invariant
            rlen == rts@.len(),
            0 <= t2 <= rlen,
            rts@.len() > 0,
            rts@.no_duplicates(),
            graph.dep_edge(n, m),
            forall|y: NodeId| #[trigger] rts@.contains(y) ==> is_node_error(errors, y)
            && graph.reaches(m, y),
            roots@.no_duplicates(),
            forall|y: NodeId|
                #[trigger] roots@.contains(y) ==> is_node_error(errors, y) && graph.reaches(
                    n,
                    y,
                ),
            forall|tt: int| 0 <= tt < t2 ==> roots@.contains(#[trigger] rts@[tt]),
            forall|y: NodeId| #[trigger] r0.contains(y) ==> roots@.contains(y),
            t2 > 0 ==> roots@.len() > 0,
            r0.len() > 0 ==> roots@.len() > 0,
        decreases rlen - t2,
    {
        let y = rts[t2];
        proof {
            assert(rts@.contains(y));
            assert(graph.reaches(m, y));
            graph.lemma_reaches_step(n, m);
            graph.lemma_reaches_trans(n, m, y);
        }
        if !ids_contains(&roots, y) {
            let ghost pr = roots@;
            roots.push(y);
            proof {
                assert(roots@ == pr.push(y));
                assert(forall|u: int| 0 <= u < pr.len() ==> roots@[u] == pr[u]);
                assert(roots@[pr.len() as int] == y);
                assert(roots@.no_duplicates()) by {
                    assert(!pr.contains(y));
                }
                assert forall|z: NodeId| roots@.contains(z) implies is_node_error(errors, z)
                    && graph.reaches(n, z) by {
                    let u = choose|u: int| 0 <= u < roots@.len() && roots@[u] == z;
                    if u < pr.len() {
                        assert(pr.contains(z));
                    } else {
                        assert(z == y);
                    }
                }
                assert forall|z: NodeId| pr.contains(z) implies roots@.contains(z) by {
                    let u = choose|u: int| 0 <= u < pr.len() && pr[u] == z;
                    assert(roots@[u] == z);
                }
                assert forall|tt: int| 0 <= tt < t2 + 1 implies roots@.contains(
                    #[trigger] rts@[tt],
                ) by {
                    if tt < t2 {
                        assert(pr.contains(rts@[tt]));
                    } else {
                        assert(rts@[tt] == y);
                    }
                }
            }
        } else {
            proof {
                assert forall|tt: int| 0 <= tt < t2 + 1 implies roots@.contains(
                    #[trigger] rts@[tt],
                ) by {
                    if tt == t2 {
                        assert(roots@.contains(y));
                    }
                }
            }
        }
        t2 += 1;
    }
    proof {
        assert(roots@.contains(rts@[0]));
        assert forall|y: NodeId| rts@.contains(y) implies roots@.contains(y) by {
            let tt = choose|tt: int| 0 <= tt < rts@.len() && rts@[tt] == y;
        }
    }
}

/// Scans the direct dependencies of `n` for recorded failures and unions
/// their root causes.
#[verifier::rlimit(100)]
fn collect_roots(
    graph: &Graph,
    failed: &Vec<(NodeId, Vec<NodeId>)>,
    ups: &Vec<NodeId>,
    n: NodeId,
    Ghost(errors): Ghost<Seq<EvalError>>,
) -> (r: (bool, Vec<NodeId>))
    requires
        graph.wf(),
        forall|m: NodeId| ups@.contains(m) == graph.dep_edge(n, m),
        assoc_unique(failed@),
        forall|x: NodeId| node_failed(errors, x) == (assoc_get(failed@, x) is Some),
        forall|kk: int|
            0 <= kk < failed@.len() ==> ({
                let x = (#[trigger] failed@[kk]).0;
                let rts = failed@[kk].1;
                &&& node_failed(errors, x)
                &&& rts@.len() > 0
                &&& rts@.no_duplicates()
                &&& (forall|y: NodeId|
                    rts@.contains(y) ==> is_node_error(errors, y) && graph.reaches(x, y))
                &&& (is_node_error(errors, x) ==> rts@ == seq![x])
            }),
    ensures
        r.0 == dep_failed(*graph, errors, n),
        r.0 ==> r.1@.len() > 0,
        r.1@.no_duplicates(),
        forall|y: NodeId| r.1@.contains(y) ==> is_node_error(errors, y) && graph.reaches(n, y),
        forall|m: NodeId|
            #[trigger] graph.dep_edge(n, m) && is_node_error(errors, m) ==> r.1@.contains(m),
        forall|f2: int, y: NodeId|
            0 <= f2 < failed@.len() && ups@.contains((#[trigger] failed@[f2]).0)
                && #[trigger] failed@[f2].1@.contains(y) ==> r.1@.contains(y),
{
    let ghost g = *graph;
    let ulen = ups.len();
    let mut roots: Vec<NodeId> = Vec::new();
    let mut any_failed = false;
    let mut k: usize = 0;
    while k < ulen
        invariant
            g == *graph,
            g.wf(),
            ulen == ups@.len(),
            0 <= k <= ulen,
            forall|m: NodeId| ups@.contains(m) == g.dep_edge(n, m),
            assoc_unique(failed@),
            forall|x: NodeId| node_failed(errors, x) == (assoc_get(failed@, x) is Some),
            forall|kk: int|
                0 <= kk < failed@.len() ==> ({
                    let x = (#[trigger] failed@[kk]).0;
                    let rts = failed@[kk].1;
                    &&& node_failed(errors, x)
                    &&& rts@.len() > 0
                    &&& rts@.no_duplicates()
                    &&& (forall|y: NodeId|
                        rts@.contains(y) ==> is_node_error(errors, y) && g.reaches(x, y))
                    &&& (is_node_error(errors, x) ==> rts@ == seq![x])
                }),
            any_failed == (exists|kk: int|
                0 <= kk < k && node_failed(errors, #[trigger] ups@[kk])),
            any_failed ==> roots@.len() > 0,
            roots@.no_duplicates(),
            forall|y: NodeId| roots@.contains(y) ==> is_node_error(errors, y) && g.reaches(n, y),
            forall|kk: int|
                0 <= kk < k && is_node_error(errors, #[trigger] ups@[kk]) ==> roots@.contains(
                    ups@[kk],
                ),
            forall|f2: int, y: NodeId|
                0 <= f2 < failed@.len() && (exists|kk: int|
                    0 <= kk < k && ups@[kk] == (#[trigger] failed@[f2]).0)
                    && #[trigger] failed@[f2].1@.contains(y) ==> roots@.contains(y),
        decreases ulen - k,
    {
        let m = ups[k];
        proof {
            assert(ups@.contains(m));
            assert(g.dep_edge(n, m));
        }
        match assoc_find(failed, m) {
            Some(rts) => {
                any_failed = true;
                let ghost r_before = roots@;
                proof {
                    lemma_assoc_some_index(failed@, m);
                    let kk = choose|kk: int|
                        0 <= kk < failed@.len() && #[trigger] failed@[kk] == (
                            m,
                            assoc_get(failed@, m)->0,
                        );
                    assert(failed@[kk].1 == *rts);
                    assert(rts@.len() > 0);
                    assert(rts@.no_duplicates());
                    assert(forall|y: NodeId|
                        rts@.contains(y) ==> is_node_error(errors, y) && g.reaches(m, y));
                    assert(is_node_error(errors, m) ==> rts@ == seq![m]);
                }
                merge_roots(graph, &mut roots, rts, n, m, Ghost(errors));
                proof {
                    assert(node_failed(errors, m));
                    assert(0 <= k < k + 1 && node_failed(errors, ups@[k as int]));
                    assert forall|kk2: int|
                        0 <= kk2 < k + 1 && is_node_error(errors, #[trigger] ups@[kk2])
                            implies roots@.contains(ups@[kk2]) by {
                        if kk2 == k {
                            assert(rts@ == seq![m]);
                            assert(rts@[0] == m);
                            assert(rts@.contains(m));
                        } else {
                            assert(r_before.contains(ups@[kk2]));
                        }
                    }
                    assert forall|f2: int, y: NodeId|
                        0 <= f2 < failed@.len() && (exists|kk2: int|
                            0 <= kk2 < k + 1 && ups@[kk2] == (#[trigger] failed@[f2]).0)
                            && #[trigger] failed@[f2].1@.contains(y) implies roots@.contains(
                        y,
                    ) by {
                        let kk2 = choose|kk2: int|
                            0 <= kk2 < k + 1 && ups@[kk2] == failed@[f2].0;
                        if kk2 == k {
                            lemma_assoc_get_present(failed@, m, f2);
                            assert(failed@[f2].1 == *rts);
                            assert(rts@.contains(y));
                        } else {
                            assert(r_before.contains(y));
                        }
                    }
                }
            },
            None => {
                proof {
                    assert(!node_failed(errors, m));
                    assert forall|kk2: int|
                        0 <= kk2 < k + 1 && is_node_error(errors, #[trigger] ups@[kk2])
                            implies roots@.contains(ups@[kk2]) by {
                        if kk2 == k {
                            assert(is_node_error(errors, m));
                            let e2 = choose|e2: int|
                                0 <= e2 < errors.len() && ((#[trigger] errors[e2])
                                    matches EvalError::Node { node, .. } && node == m);
                            assert(err_node(errors[e2]) == m);
                            assert(node_failed(errors, m));
                        }
                    }
                    assert forall|f2: int, y: NodeId|
                        0 <= f2 < failed@.len() && (exists|kk2: int|
                            0 <= kk2 < k + 1 && ups@[kk2] == (#[trigger] failed@[f2]).0)
                            && #[trigger] failed@[f2].1@.contains(y) implies roots@.contains(
                        y,
                    ) by {
                        let kk2 = choose|kk2: int|
                            0 <= kk2 < k + 1 && ups@[kk2] == failed@[f2].0;
                        if kk2 == k {
                            lemma_assoc_get_present(failed@, m, f2);
                        }
                    }
                }
            },
        }
        k += 1;
    }
    proof {
        assert(any_failed == dep_failed(g, errors, n)) by {
            if any_failed {
                let kk = choose|kk: int| 0 <= kk < k && node_failed(errors, #[trigger] ups@[kk]);
                assert(ups@.contains(ups@[kk]));
                assert(g.dep_edge(n, ups@[kk]));
            }
            if dep_failed(g, errors, n) {
                let m = choose|m: NodeId| #[trigger] g.dep_edge(n, m) && node_failed(errors, m);
                assert(ups@.contains(m));
                let kk = choose|kk: int| 0 <= kk < ups@.len() && ups@[kk] == m;
            }
        }
        assert forall|m: NodeId|
            #[trigger] g.dep_edge(n, m) && is_node_error(errors, m) implies roots@.contains(
            m,
        ) by {
            assert(ups@.contains(m));
            let kk = choose|kk: int| 0 <= kk < ups@.len() && ups@[kk] == m;
        }
        assert forall|f2: int, y: NodeId|
            0 <= f2 < failed@.len() && ups@.contains((#[trigger] failed@[f2]).0)
                && #[trigger] failed@[f2].1@.contains(y) implies roots@.contains(y) by {
            let kk = choose|kk: int| 0 <= kk < ups@.len() && ups@[kk] == failed@[f2].0;
        }
    }
    (any_failed, roots)
}

/// Builds the current fingerprint of `order[i]` from the valid entries of
/// its dependencies.
#[verifier::rlimit(80)]
fn build_fingerprint(
    graph: &Graph,
    state: &EvalState,
    node_ref: &Node,
    ups: &Vec<NodeId>,
    Ghost(target): Ghost<NodeId>,
    Ghost(order): Ghost<Seq<NodeId>>,
    Ghost(i): Ghost<int>,
    Ghost(errs): Ghost<Seq<EvalError>>,
) -> (fp: Fingerprint)
    requires
        order_ok(*graph, target, order),
        state.wf(),
        0 <= i < order.len(),
        *node_ref == graph.spec_node(order[i]),
        forall|m: NodeId| ups@.contains(m) == graph.dep_edge(order[i], m),
        graph.has_node(order[i]) ==> ups@ == graph.upstream_seq(order[i]),
        !dep_failed(*graph, errs, order[i]),
        forall|j: int|
            0 <= j < i && !node_failed(errs, #[trigger] order[j]) ==> ({
                let e = state.entry(order[j]);
                &&& e is Some
                &&& e->0.ok
                &&& e->0.fingerprint@ == spec_fp(*graph, order[j])
            }),
    ensures
        fp@ == spec_fp(*graph, order[i]),
{
    let ghost g = *graph;
    let ghost n = order[i];
    proof {
        assert forall|kk: int| 0 <= kk < ups@.len() implies ({
            let e = state.entry(#[trigger] ups@[kk]);
            &&& e is Some
            &&& e->0.ok
            &&& e->0.fingerprint@ == spec_fp(g, ups@[kk])
        }) by {
            assert(ups@.contains(ups@[kk]));
            assert(g.dep_edge(n, ups@[kk]));
            let j = choose|j: int| 0 <= j < i && order[j] == ups@[kk];
            assert(!node_failed(errs, ups@[kk]));
        }
    }
    let ulen = ups.len();
    let mut upfps: Vec<Fingerprint> = Vec::new();
    let mut k2: usize = 0;
    while k2 < ulen
        invariant
            g == *graph,
            state.wf(),
            ulen == ups@.len(),
            0 <= k2 <= ulen,
            upfps@.len() == k2,
            forall|kk: int|
                0 <= kk < ups@.len() ==> ({
                    let e = state.entry(#[trigger] ups@[kk]);
                    &&& e is Some
                    &&& e->0.ok
                    &&& e->0.fingerprint@ == spec_fp(g, ups@[kk])
                }),
            forall|kk: int|
                0 <= kk < k2 ==> fp_view(#[trigger] upfps@[kk]) == spec_fp(g, ups@[kk]),
        decreases ulen - k2,
    {
        let m = ups[k2];
        let e = match state.lookup(m) {
            Some(e) => e,
            None => {
                proof {
                    assert(state.entry(ups@[k2 as int]) is Some);
                    assert(false);
                }
                return Fingerprint {
                    kind: String::new(),
                    params: NodeParams::new(),
                    upstream: Vec::new(),
                };
            },
        };
        upfps.push(fp_duplicate(&e.fingerprint));
        proof {
            assert(state.entry(ups@[k2 as int]) == Some(*e));
            assert(upfps@[k2 as int]@ == e.fingerprint@);
        }
        k2 += 1;
    }
    let ghost upfps_view = upfps@;
    let fp = Fingerprint {
        kind: node_ref.name.clone(),
        params: params_duplicate(&node_ref.params),
        upstream: upfps,
    };
    proof {
        lemma_spec_fp_unfold(g, order, i);
        lemma_fps_view_index(fp.upstream@);
        let ups_spec = g.upstream_seq(n);
        assert(ups@ == ups_spec);
        assert(fp.upstream@ == upfps_view);
        assert forall|kk: int| 0 <= kk < ulen implies fp@.upstream[kk] == spec_fp(
            g,
            ups_spec[kk],
        ) by {
            assert(fp@.upstream[kk] == fp_view(fp.upstream@[kk]));
            assert(fp_view(upfps_view[kk]) == spec_fp(g, ups@[kk]));
        }
        assert(fp@.upstream =~= Seq::new(ups_spec.len(), |kk: int| spec_fp(g, ups_spec[kk])));
        assert(fp@ == spec_fp(g, n));
    }
    fp
}

/// The union of the recorded root causes of a node's failed dependencies
/// covers every own-failed ancestor the node reaches: failure propagates
/// along every dependency path, so the first hop towards such an ancestor
/// is itself a recorded failure whose roots already include it.
proof fn lemma_roots_complete<F: Fn(NodeId, &NodeParams) -> Result<(), String>>(
    g: Graph,
    s0: EvalState,
    target: NodeId,
    order: Seq<NodeId>,
    i: int,
    st: EvalState,
    errors: Seq<EvalError>,
    failed: Seq<(NodeId, Vec<NodeId>)>,
    computed: Seq<NodeId>,
    ups: Seq<NodeId>,
    roots: Seq<NodeId>,
    f: F,
)
    requires
        order_ok(g, target, order),
        pass_inv(g, s0, target, order, i, st, errors, failed, computed, f),
        0 <= i < order.len(),
        forall|m: NodeId| ups.contains(m) == g.dep_edge(order[i], m),
        forall|f2: int, y: NodeId|
            0 <= f2 < failed.len() && ups.contains((#[trigger] failed[f2]).0)
                && #[trigger] failed[f2].1@.contains(y) ==> roots.contains(y),
    ensures
        forall|y: NodeId|
            is_node_error(errors, y) && #[trigger] g.reaches(order[i], y) ==> roots.contains(y),
{
    reveal(pass_inv);
    let n = order[i];
    lemma_not_processed(order, i, n);
    assert forall|y: NodeId|
        is_node_error(errors, y) && #[trigger] g.reaches(n, y) implies roots.contains(y) by {
        assert(node_failed(errors, y)) by {
            let ke = choose|ke: int|
                0 <= ke < errors.len() && ((#[trigger] errors[ke]) matches EvalError::Node {
                    node,
                    ..
                } && node == y);
            assert(err_node(errors[ke]) == y);
        }
        assert(y != n) by {
            if y == n {
                let ke = choose|ke: int| 0 <= ke < errors.len() && err_node(errors[ke]) == n;
                let j = choose|j: int| 0 <= j < i && order[j] == err_node(errors[ke]);
            }
        }
        let p = g.lemma_simple_path(n, y);
        assert(p.len() >= 2) by {
            if p.len() == 1 {
                assert(p[0] == p.last());
            }
        }
        let zero: int = 0;
        assert(g.dep_edge(p[zero], p[zero + 1]));
        assert(g.dep_edge(order[i], p[1]));
        let jm = choose|j2: int| 0 <= j2 < i && order[j2] == p[1];
        let m = p[1];
        lemma_drop_first_path(g, p);
        lemma_failed_back_path(g, order, i, errors, p.drop_first(), jm);
        assert(node_failed(errors, m));
        assert(assoc_get(failed, m) is Some);
        lemma_assoc_some_index(failed, m);
        let f2 = choose|f2: int|
            0 <= f2 < failed.len() && #[trigger] failed[f2] == (m, assoc_get(failed, m)->0);
        assert(g.reaches(m, y)) by {
            let q = p.drop_first();
            assert(q.len() >= 1 && q[0] == m && q.last() == y && g.is_dep_path(q));
        }
        assert(failed[f2].1@.contains(y));
        assert(ups.contains(m)) by {
            assert(g.dep_edge(n, m));
        }
        assert(roots.contains(y));
    }
}

/// Evaluates the graph up to `target`: walks the dependency cone in
/// topological order, serves fingerprint-valid cached nodes, invokes `f`
/// for stale ones, and reports timings, counters and errors. The pass never
/// aborts on a compute failure; failures are isolated and propagated as
/// `Upstream` errors. On a structural error (unknown target, cycle) the
/// cache is untouched.
#[verifier::rlimit(100)]
pub fn evaluate_from_with<F: Fn(NodeId, &NodeParams) -> Result<(), String>>(
    graph: &Graph,
    target: NodeId,
    state: &mut EvalState,
    f: F,
) -> (r: Result<EvalReport, GraphError>)
    requires
        graph.wf(),
        old(state).wf(),
        forall|n: NodeId, p: &NodeParams| call_requires(f, (n, p)),
    ensures
        final(state).wf(),
        !graph.has_node(target) ==> r == Err::<EvalReport, GraphError>(GraphError::UnknownNode(
            target,
        )),
        graph.has_node(target) && graph.cycle_reachable_from(target) ==> r == Err::<
            EvalReport,
            GraphError,
        >(GraphError::CycleDetected),
        graph.has_node(target) && !graph.cycle_reachable_from(target) ==> r is Ok,
        r is Err ==> *final(state) == *old(state),
        r is Ok ==> eval_pass_post(*graph, target, f, *old(state), *final(state), r->Ok_0),
{
    let ghost g = *graph;
    let ghost s0 = *state;
    let order = match graph.topo_sort_from(target) {
        Ok(o) => o,
        Err(e) => {
            return Err(e);
        },
    };
    proof {
        graph.lemma_reaches_refl(target);
        assert(order@.contains(target));
        assert forall|x: int| 0 <= x < order@.len() implies g.has_node(#[trigger] order@[x]) by {
            graph.lemma_reaches_has_node(target, order@[x]);
        }
        assert(order_ok(g, target, order@));
    }
    let olen = order.len();
    let mut computed: Vec<NodeId> = Vec::new();
    let mut errors: Vec<EvalError> = Vec::new();
    let mut node_reports: Vec<(NodeId, EvalNodeReport)> = Vec::new();
    let mut failed: Vec<(NodeId, Vec<NodeId>)> = Vec::new();
    let mut hits: u64 = 0;
    let mut misses: u64 = 0;
    proof {
        assert(pass_inv(g, s0, target, order@, 0, *state, errors@, failed@, computed@, f)) by {
            reveal(pass_inv);
            assert forall|x: NodeId| !computed@.contains(x) by {}
        }
    }
    let mut i: usize = 0;
    while i < olen
        invariant
            g == *graph,
            s0 == *old(state),
            s0.wf(),
            state.stats == s0.stats,
            forall|np: NodeId, pp: &NodeParams| call_requires(f, (np, pp)),
            olen == order@.len(),
            order_ok(g, target, order@),
            pass_inv(g, s0, target, order@, i as int, *state, errors@, failed@, computed@, f),
            state.wf(),
            assoc_unique(failed@),
            0 <= i <= olen,
            hits as int <= i as int,
            misses as int <= i as int,
            hits as int == count_hits(node_reports@),
            misses as int == computed@.len() + count_node_errors(errors@),
            node_reports@.len() == i,
            forall|j: int| 0 <= j < i ==> (#[trigger] node_reports@[j]).0 == order@[j],
            forall|j: int|
                0 <= j < i ==> (#[trigger] node_reports@[j]).1.cache_hit == (was_hit(
                    g,
                    s0,
                    order@[j],
                ) && !node_failed(errors@, order@[j])),
            misses != 0 ==> exists|x: NodeId|
                #[trigger] g.reaches(target, x) && !was_hit(g, s0, x),
        decreases olen - i,
    {
        let n = order[i];
        proof {
            assert(g.reaches(target, n));
            lemma_not_processed(order@, i as int, n);
        }
        let node_ref = match graph.node(n) {
            Some(nd) => nd,
            None => {
                proof {
                    assert(false);
                }
                return Err(GraphError::UnknownNode(n));
            },
        };
        let ups = graph.upstream_nodes(n);
        proof {
            lemma_inv_parts(
                g,
                s0,
                target,
                order@,
                i as int,
                *state,
                errors@,
                failed@,
                computed@,
                f,
            );
        }
        let (any_failed, roots) = collect_roots(graph, &failed, &ups, n, Ghost(errors@));
        if any_failed {
            let roots_copy = clone_ids(&roots);
            let ghost roots_view = roots@;
            let ghost errs0 = errors@;
            let ghost failed0 = failed@;
            let ghost nr0 = node_reports@;
            errors.push(EvalError::Upstream { node: n, upstream: roots });
            failed.push((n, roots_copy));
            node_reports.push((n, EvalNodeReport { duration_us: 0, cache_hit: false }));
            proof {
                lemma_count_hits_push(nr0, (n, EvalNodeReport { duration_us: 0, cache_hit: false }));
                lemma_count_errors_push(errs0, errors@.last());
                assert(errs0.push(errors@.last()) == errors@);
                assert(forall|kk: int| 0 <= kk < errs0.len() ==> errors@[kk] == errs0[kk]);
                assert(errors@[errs0.len() as int] matches EvalError::Upstream { node, upstream }
                    && node == n && upstream@ == roots_view);
                assert(forall|kk: int| 0 <= kk < failed0.len() ==> failed@[kk] == failed0[kk]);
                assert(failed@[failed0.len() as int].0 == n);
                assert(failed@[failed0.len() as int].1@ == roots_view);
                lemma_roots_complete(
                    g,
                    s0,
                    target,
                    order@,
                    i as int,
                    *state,
                    errs0,
                    failed0,
                    computed@,
                    ups@,
                    roots_view,
                    f,
                );
                lemma_step_upstream(
                    g,
                    s0,
                    target,
                    order@,
                    i as int,
                    *state,
                    errs0,
                    errors@,
                    failed0,
                    failed@,
                    computed@,
                    roots_view,
                    f,
                );
            }
        } else {
            // No failing dependency: build the fingerprint and check the
            // cache.
            let fp = build_fingerprint(
                graph,
                state,
                node_ref,
                &ups,
                Ghost(target),
                Ghost(order@),
                Ghost(i as int),
                Ghost(errors@),
            );
            let hit = match state.lookup(n) {
                Some(e) => e.ok && fp_eq(&e.fingerprint, &fp),
                None => false,
            };
            proof {
                lemma_unprocessed_entry(
                    g,
                    s0,
                    target,
                    order@,
                    i as int,
                    *state,
                    errors@,
                    failed@,
                    computed@,
                    f,
                );
                assert(hit == was_hit(g, s0, n));
            }
            if hit {
                hits = hits + 1;
                let ghost nr0 = node_reports@;
                node_reports.push((n, EvalNodeReport { duration_us: 0, cache_hit: true }));
                proof {
                    lemma_count_hits_push(
                        nr0,
                        (n, EvalNodeReport { duration_us: 0, cache_hit: true }),
                    );
                    lemma_step_hit(
                        g,
                        s0,
                        target,
                        order@,
                        i as int,
                        *state,
                        errors@,
                        failed@,
                        computed@,
                        f,
                    );
                }
            } else {
                misses = misses + 1;
                let t0 = clock_now();
                let res = f(n, &node_ref.params);
                let ghost res_view = res;
                let dt = clock_elapsed_us(&t0);
                match res {
                    Ok(u) => {
                        let ghost st0 = *state;
                        let ghost computed0 = computed@;
                        let ghost nr0 = node_reports@;
                        state.put(n, CacheEntry { fingerprint: fp, ok: true });
                        computed.push(n);
                        node_reports.push(
                            (n, EvalNodeReport { duration_us: dt, cache_hit: false }),
                        );
                        proof {
                            lemma_count_hits_push(
                                nr0,
                                (n, EvalNodeReport { duration_us: dt, cache_hit: false }),
                            );
                            assert(computed@.len() == computed0.len() + 1);
                            assert(call_ensures(f, (n, &node_ref.params), res_view));
                            assert(res_view == Ok::<(), String>(u));
                            assert(u == ());
                            assert(call_ensures(
                                f,
                                (n, &g.spec_node(n).params),
                                Ok::<(), String>(()),
                            ));
                            lemma_step_success(
                                g,
                                s0,
                                target,
                                order@,
                                i as int,
                                st0,
                                *state,
                                errors@,
                                failed@,
                                computed0,
                                computed@,
                                f,
                            );
                        }
                    },
                    Err(msg) => {
                        let ghost errs0 = errors@;
                        let ghost failed0 = failed@;
                        let ghost st0 = *state;
                        let ghost msg_view = msg;
                        let ghost nr0 = node_reports@;
                        errors.push(EvalError::Node { node: n, message: msg });
                        state.mark_failed(n);
                        let mut single: Vec<NodeId> = Vec::new();
                        single.push(n);
                        failed.push((n, single));
                        node_reports.push(
                            (n, EvalNodeReport { duration_us: dt, cache_hit: false }),
                        );
                        proof {
                            lemma_count_hits_push(
                                nr0,
                                (n, EvalNodeReport { duration_us: dt, cache_hit: false }),
                            );
                            lemma_count_errors_push(
                                errs0,
                                EvalError::Node { node: n, message: msg_view },
                            );
                            assert(call_ensures(f, (n, &node_ref.params), res_view));
                            assert(res_view == Err::<(), String>(msg_view));
                            assert(call_ensures(
                                f,
                                (n, &node_ref.params),
                                Err::<(), String>(msg_view),
                            ));
                            assert(call_ensures(
                                f,
                                (n, &g.spec_node(n).params),
                                Err::<(), String>(msg_view),
                            ));
                            assert(errors@ == errs0.push(
                                EvalError::Node { node: n, message: msg_view },
                            ));
                            assert(forall|kk: int|
                                0 <= kk < failed0.len() ==> failed@[kk] == failed0[kk]);
                            assert(failed@[failed0.len() as int].0 == n);
                            assert(failed@[failed0.len() as int].1@ =~= seq![n]);
                            lemma_step_node_error(
                                g,
                                s0,
                                target,
                                order@,
                                i as int,
                                st0,
                                *state,
                                errs0,
                                errors@,
                                failed0,
                                failed@,
                                computed@,
                                msg_view,
                                f,
                            );
                        }
                    },
                }
            }
        }
        i += 1;
    }
    let output_valid = match assoc_find(&failed, target) {
        Some(_) => false,
        None => true,
    };
    proof {
        reveal(pass_inv);
        assert(output_valid == !node_failed(errors@, target));
    }
    state.stats = EvalCacheStats { hits, misses };
    let rep = EvalReport {
        target,
        output_valid,
        computed,
        cache_hits: hits,
        cache_misses: misses,
        node_reports,
        errors,
    };
    proof {
        reveal(pass_inv);
        assert forall|x: NodeId| #[trigger] g.reaches(target, x) implies exists|j: int|
            0 <= j < olen && order@[j] == x by {
            assert(order@.contains(x));
        }
        assert forall|x: NodeId|
            rep.computed@.contains(x) == (g.reaches(target, x) && !was_hit(g, s0, x)
                && !node_failed(rep.errors@, x)) by {
            if exists|j: int| 0 <= j < olen && order@[j] == x {
                let j = choose|j: int| 0 <= j < olen && order@[j] == x;
                assert(g.reaches(target, order@[j]));
            }
        }
        assert forall|x: NodeId|
            g.reaches(target, x) && was_hit(g, s0, x) && !node_failed(rep.errors@, x)
                implies state.entry(x) == s0.entry(x) by {
            let j = choose|j: int| 0 <= j < olen && order@[j] == x;
        }
        assert forall|x: NodeId|
            g.reaches(target, x) && !was_hit(g, s0, x) && !node_failed(rep.errors@, x)
                implies ({
            let e = state.entry(x);
            &&& e is Some
            &&& e->0.ok
            &&& e->0.fingerprint@ == spec_fp(g, x)
            &&& call_ensures(f, (x, &g.spec_node(x).params), Ok::<(), String>(()))
        }) by {
            let j = choose|j: int| 0 <= j < olen && order@[j] == x;
        }
        assert forall|x: NodeId| !g.reaches(target, x) implies state.entry(x) == s0.entry(x) by {
            if exists|j: int| 0 <= j < olen && order@[j] == x {
                let j = choose|j: int| 0 <= j < olen && order@[j] == x;
                assert(g.reaches(target, order@[j]));
            }
        }
        assert forall|kk: int| 0 <= kk < rep.errors@.len() implies g.reaches(
            target,
            err_node(#[trigger] rep.errors@[kk]),
        ) by {
            let j = choose|j: int| 0 <= j < olen && order@[j] == err_node(rep.errors@[kk]);
        }
        assert forall|x: NodeId|
            g.reaches(target, x) && dep_failed(g, rep.errors@, x) implies node_failed(
            rep.errors@,
            x,
        ) by {
            let j = choose|j: int| 0 <= j < olen && order@[j] == x;
        }
        assert forall|k1: int, k2: int|
            0 <= k1 < k2 < rep.node_reports@.len() implies rep.node_reports@[k1].0
            != rep.node_reports@[k2].0 by {
            assert(rep.node_reports@[k1].0 == order@[k1]);
            assert(rep.node_reports@[k2].0 == order@[k2]);
        }
        assert forall|kk: int| 0 <= kk < rep.node_reports@.len() implies g.reaches(
            target,
            (#[trigger] rep.node_reports@[kk]).0,
        ) && rep.node_reports@[kk].1.cache_hit == (was_hit(g, s0, rep.node_reports@[kk].0)
            && !node_failed(rep.errors@, rep.node_reports@[kk].0)) by {
            assert(rep.node_reports@[kk].0 == order@[kk]);
        }
        assert forall|x: NodeId| #[trigger] g.reaches(target, x) implies exists|kk: int|
            0 <= kk < rep.node_reports@.len() && (#[trigger] rep.node_reports@[kk]).0 == x by {
            let j = choose|j: int| 0 <= j < olen && order@[j] == x;
            assert(rep.node_reports@[j].0 == x);
        }
        assert(eval_pass_post(g, target, f, s0, *state, rep));
    }
    Ok(rep)
}

/// A structural pass with a compute that always succeeds: refreshes every
/// stale fingerprint without running any real computation. Useful for
/// dependency analysis and warming a cache.
pub fn evaluate_from(graph: &Graph, target: NodeId, state: &mut EvalState) -> (r: Result<
    EvalReport,
    GraphError,
>)
    requires
        graph.wf(),
        old(state).wf(),
    ensures
        final(state).wf(),
        !graph.has_node(target) ==> r == Err::<EvalReport, GraphError>(GraphError::UnknownNode(
            target,
        )),
        graph.has_node(target) && graph.cycle_reachable_from(target) ==> r == Err::<
            EvalReport,
            GraphError,
        >(GraphError::CycleDetected),
        graph.has_node(target) && !graph.cycle_reachable_from(target) ==> r is Ok,
        r is Err ==> *final(state) == *old(state),
        r is Ok ==> ({
            let rep = r->Ok_0;
            &&& rep.target == target
            &&& rep.errors@.len() == 0
            &&& rep.output_valid
            &&& (forall|n: NodeId|
                !graph.reaches(target, n) ==> final(state).entry(n) == old(state).entry(n))
            &&& (forall|n: NodeId|
                #[trigger] graph.reaches(target, n) ==> ({
                    let e = final(state).entry(n);
                    &&& e is Some
                    &&& e->0.ok
                    &&& e->0.fingerprint@ == spec_fp(*graph, n)
                }))
            &&& (forall|n: NodeId|
                rep.computed@.contains(n) == (graph.reaches(target, n) && !was_hit(
                    *graph,
                    *old(state),
                    n,
                )))
            &&& rep.computed@.no_duplicates()
            &&& rep.cache_misses == rep.computed@.len()
            &&& (rep.cache_misses != 0 ==> exists|n: NodeId|
                #[trigger] graph.reaches(target, n) && !was_hit(*graph, *old(state), n))
        }),
{
    let pass = |n: NodeId, p: &NodeParams| -> (out: Result<(), String>)
        ensures
            out is Ok,
        {
            Ok(())
        };
    let r = evaluate_from_with(graph, target, state, pass);
    proof {
        if r is Ok {
            let rep = r->Ok_0;
            let g = *graph;
            let s0 = *old(state);
            assert(rep.errors@.len() == 0) by {
                if rep.errors@.len() != 0 {
                    let x = choose|x: NodeId|
                        #[trigger] g.reaches(target, x) && !was_hit(g, s0, x) && is_node_error(
                            rep.errors@,
                            x,
                        );
                    let kk = choose|kk: int|
                        0 <= kk < rep.errors@.len() && ((#[trigger] rep.errors@[kk])
                            matches EvalError::Node { node, .. } && node == x);
                    match rep.errors@[kk] {
                        EvalError::Node { node, message } => {
                            assert(call_ensures(
                                pass,
                                (node, &g.spec_node(node).params),
                                Err::<(), String>(message),
                            ));
                        },
                        EvalError::Upstream { .. } => {},
                    }
                }
            }
            assert forall|n: NodeId| #[trigger] g.reaches(target, n) implies ({
                let e = final(state).entry(n);
                &&& e is Some
                &&& e->0.ok
                &&& e->0.fingerprint@ == spec_fp(g, n)
            }) by {
                assert(!node_failed(rep.errors@, n)) by {
                    if node_failed(rep.errors@, n) {
                        let kk = choose|kk: int|
                            0 <= kk < rep.errors@.len() && err_node(rep.errors@[kk]) == n;
                    }
                }
                if was_hit(g, s0, n) {
                    assert(final(state).entry(n) == s0.entry(n));
                }
            }
            assert forall|n: NodeId|
                rep.computed@.contains(n) == (g.reaches(target, n) && !was_hit(g, s0, n)) by {
                assert(!node_failed(rep.errors@, n)) by {
                    if node_failed(rep.errors@, n) {
                        let kk = choose|kk: int|
                            0 <= kk < rep.errors@.len() && err_node(rep.errors@[kk]) == n;
                    }
                }
            }
            assert(rep.output_valid);
            assert(count_node_errors(rep.errors@) == 0);
        }
    }
    r
}

} // verus!
