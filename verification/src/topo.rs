//! Topological ordering of a node and everything it transitively depends
//! on, with defensive cycle detection: the sort reports a cycle instead of
//! looping even if the acyclicity guard of `add_link` was bypassed (for
//! example by bulk-loaded data).

use vstd::prelude::*;
use vstd::set_lib::lemma_len_subset;

use crate::graph::{Graph, GraphError, NodeId};

verus! {

/// Membership scan over a node-id vector.
fn contains_id(v: &Vec<NodeId>, id: NodeId) -> (r: bool)
    ensures
        r == v@.contains(id),
{
    let n = v.len();
    let mut i: usize = 0;
    while i < n
        invariant
            n == v@.len(),
            0 <= i <= n,
            forall|j: int| 0 <= j < i ==> v@[j] != id,
        decreases n - i,
    {
        if v[i] == id {
            proof {
                assert(v@[i as int] == id);
            }
            return true;
        }
        i += 1;
    }
    proof {
        if v@.contains(id) {
            let j = choose|j: int| 0 <= j < v@.len() && v@[j] == id;
        }
    }
    false
}

impl Graph {
    /// Position of `c` in a duplicate-free order.
    pub open spec fn order_index(order: Seq<NodeId>, c: NodeId) -> int {
        choose|j: int| 0 <= j < order.len() && order[j] == c
    }

    /// Walking a dependency path through a dependency-ordered sequence
    /// strictly lowers the position at every step.
    proof fn lemma_order_chain(self, order: Seq<NodeId>, p: Seq<NodeId>, k: int)
        requires
            order.no_duplicates(),
            forall|i: int, m: NodeId|
                0 <= i < order.len() && #[trigger] self.dep_edge(order[i], m) ==> exists|j: int|
                    0 <= j < i && order[j] == m,
            self.is_dep_path(p),
            forall|i: int| 0 <= i < p.len() ==> order.contains(#[trigger] p[i]),
            0 <= k < p.len(),
        ensures
            0 <= Self::order_index(order, p[k]) < order.len(),
            order[Self::order_index(order, p[k])] == p[k],
            Self::order_index(order, p[k]) <= Self::order_index(order, p[0]) - k,
        decreases k,
    {
        assert(order.contains(p[k]));
        let ik = Self::order_index(order, p[k]);
        assert(0 <= ik < order.len() && order[ik] == p[k]);
        if k > 0 {
            self.lemma_order_chain(order, p, k - 1);
            let ik1 = Self::order_index(order, p[k - 1]);
            assert(self.dep_edge(p[k - 1], p[k - 1 + 1]));
            assert(self.dep_edge(order[ik1], p[k]));
            let j = choose|j: int| 0 <= j < ik1 && order[j] == p[k];
            if j != ik {
                assert(order[j] == order[ik]);
            }
            assert(ik < ik1);
        }
    }

    /// A sequence that is dependency-ordered and covers everything the
    /// target reaches certifies the absence of reachable cycles.
    proof fn lemma_topo_no_cycle(self, target: NodeId, order: Seq<NodeId>)
        requires
            order.no_duplicates(),
            forall|i: int, m: NodeId|
                0 <= i < order.len() && #[trigger] self.dep_edge(order[i], m) ==> exists|j: int|
                    0 <= j < i && order[j] == m,
            forall|m: NodeId| #[trigger] self.reaches(target, m) ==> order.contains(m),
        ensures
            !self.cycle_reachable_from(target),
    {
        if self.cycle_reachable_from(target) {
            let n = choose|n: NodeId| #[trigger] self.reaches(target, n) && self.in_cycle(n);
            let p = choose|p: Seq<NodeId>|
                p.len() >= 2 && p[0] == n && p.last() == n && #[trigger] self.is_dep_path(p);
            assert forall|i: int| 0 <= i < p.len() implies order.contains(#[trigger] p[i]) by {
                let q = p.take(i + 1);
                assert(q.len() == i + 1);
                assert(q[0] == p[0]);
                assert(q.last() == p[i]);
                assert forall|x: int| 0 <= x < q.len() - 1 implies self.dep_edge(
                    q[x],
                    #[trigger] q[x + 1],
                ) by {
                    assert(q[x] == p[x] && q[x + 1] == p[x + 1]);
                    assert(self.dep_edge(p[x], p[x + 1]));
                }
                assert(self.is_dep_path(q));
                assert(self.reaches(n, p[i]));
                self.lemma_reaches_trans(target, n, p[i]);
            }
            self.lemma_order_chain(order, p, p.len() - 1);
            assert(p[p.len() - 1] == p[0]);
            assert(false);
        }
    }

    /// Whether `v` depends on some node that is reachable (`rset`) but not
    /// yet ordered. Kept opaque so that quantified hypotheses over it do not
    /// feed the solver an unbounded chain of instantiations.
    #[verifier::opaque]
    pub closed spec fn has_blocked_dep(
        self,
        rset: Seq<NodeId>,
        order: Seq<NodeId>,
        v: NodeId,
    ) -> bool {
        exists|m: NodeId|
            #[trigger] self.dep_edge(v, m) && rset.contains(m) && !order.contains(m)
    }

    /// Builds an arbitrarily long dependency path inside the set of nodes
    /// that are reachable but not yet ordered, assuming each of them still
    /// has an unordered dependency.
    proof fn build_chain(
        self,
        rset: Seq<NodeId>,
        order: Seq<NodeId>,
        v0: NodeId,
        n: nat,
    ) -> (p: Seq<NodeId>)
        requires
            rset.contains(v0),
            !order.contains(v0),
            forall|v: NodeId|
                #[trigger] rset.contains(v) && !order.contains(v) ==> self.has_blocked_dep(
                    rset,
                    order,
                    v,
                ),
        ensures
            p.len() == n + 1,
            p[0] == v0,
            self.is_dep_path(p),
            forall|i: int|
                0 <= i < p.len() ==> rset.contains(#[trigger] p[i]) && !order.contains(p[i]),
        decreases n,
    {
        if n == 0 {
            let p = seq![v0];
            assert(p[0] == v0);
            assert(self.is_dep_path(p));
            p
        } else {
            assert(self.has_blocked_dep(rset, order, v0));
            assert(exists|m: NodeId|
                #[trigger] self.dep_edge(v0, m) && rset.contains(m) && !order.contains(m)) by {
                reveal(Graph::has_blocked_dep);
            }
            let m = choose|m: NodeId|
                #[trigger] self.dep_edge(v0, m) && rset.contains(m) && !order.contains(m);
            let rest = self.build_chain(rset, order, m, (n - 1) as nat);
            let p = seq![v0] + rest;
            assert(p[0] == v0);
            assert(p.len() == n + 1);
            assert forall|i: int| 0 <= i < p.len() - 1 implies self.dep_edge(
                p[i],
                #[trigger] p[i + 1],
            ) by {
                if i == 0 {
                    assert(p[1] == rest[0]);
                    assert(rest[0] == m);
                } else {
                    assert(p[i] == rest[i - 1]);
                    assert(p[i + 1] == rest[i]);
                    assert(self.dep_edge(rest[i - 1], rest[i - 1 + 1]));
                }
            }
            assert forall|i: int| 0 <= i < p.len() implies rset.contains(#[trigger] p[i])
                && !order.contains(p[i]) by {
                if i > 0 {
                    assert(p[i] == rest[i - 1]);
                    assert(rset.contains(rest[i - 1]));
                }
            }
            p
        }
    }

    /// If every reachable-but-unordered node still waits on an unordered
    /// dependency, a reachable dependency cycle exists.
    proof fn lemma_stuck_cycle(
        self,
        target: NodeId,
        rset: Seq<NodeId>,
        order: Seq<NodeId>,
        v0: NodeId,
    )
        requires
            rset.no_duplicates(),
            forall|i: int| 0 <= i < rset.len() ==> self.reaches(target, #[trigger] rset[i]),
            rset.contains(v0),
            !order.contains(v0),
            forall|v: NodeId|
                #[trigger] rset.contains(v) && !order.contains(v) ==> self.has_blocked_dep(
                    rset,
                    order,
                    v,
                ),
        ensures
            self.cycle_reachable_from(target),
    {
        let p = self.build_chain(rset, order, v0, rset.len());
        assert(p.len() == rset.len() + 1);
        if p.no_duplicates() {
            p.unique_seq_to_set();
            rset.unique_seq_to_set();
            assert forall|i: int| 0 <= i < p.len() implies rset.to_set().contains(
                #[trigger] p[i],
            ) by {
                assert(rset.contains(p[i]));
            }
            assert(p.to_set() <= rset.to_set());
            lemma_len_subset(p.to_set(), rset.to_set());
            assert(false);
        }
        let (i, j) = choose|i: int, j: int|
            0 <= i < p.len() && 0 <= j < p.len() && i != j && p[i] == p[j];
        let (lo, hi): (int, int) = if i < j {
            (i, j)
        } else {
            (j, i)
        };
        assert(p[lo] == p[hi]);
        let c = p.subrange(lo, hi + 1);
        assert(c.len() >= 2);
        assert(c[0] == p[lo]);
        assert(c.last() == p[hi]);
        assert forall|x: int| 0 <= x < c.len() - 1 implies self.dep_edge(
            c[x],
            #[trigger] c[x + 1],
        ) by {
            assert(c[x] == p[lo + x] && c[x + 1] == p[lo + x + 1]);
            assert(self.dep_edge(p[lo + x], p[lo + x + 1]));
        }
        assert(self.is_dep_path(c));
        assert(self.in_cycle(p[lo]));
        assert(rset.contains(p[lo]));
        let t = choose|t: int| 0 <= t < rset.len() && rset[t] == p[lo];
        assert(self.reaches(target, p[lo]));
    }

    /// Returns an ordering of `target` and everything it transitively
    /// depends on in which every node appears after all of its upstream
    /// dependencies. Fails with `CycleDetected` when the reachable subgraph
    /// is not a DAG, and with `UnknownNode` when the target does not exist.
    #[verifier::rlimit(80)]
    pub fn topo_sort_from(&self, target: NodeId) -> (r: Result<Vec<NodeId>, GraphError>)
        requires
            self.wf(),
        ensures
            !self.has_node(target) ==> r == Err::<Vec<NodeId>, GraphError>(GraphError::UnknownNode(
                target,
            )),
            self.has_node(target) && self.cycle_reachable_from(target) ==> r == Err::<
                Vec<NodeId>,
                GraphError,
            >(GraphError::CycleDetected),
            self.has_node(target) && !self.cycle_reachable_from(target) ==> r is Ok,
            r is Ok ==> ({
                let order = r->Ok_0;
                &&& order@.no_duplicates()
                &&& order@.contains(target)
                &&& (forall|i: int| 0 <= i < order@.len() ==> self.reaches(target, #[trigger] order@[i]))
                &&& (forall|m: NodeId| #[trigger] self.reaches(target, m) ==> order@.contains(m))
                &&& (forall|i: int, m: NodeId|
                    0 <= i < order@.len() && #[trigger] self.dep_edge(order@[i], m)
                        ==> exists|j: int| 0 <= j < i && order@[j] == m)
                &&& !self.cycle_reachable_from(target)
            }),
    {
        match self.node(target) {
            Some(_) => {},
            None => {
                return Err(GraphError::UnknownNode(target));
            },
        }
        let rset = self.reachable_from(target);
        let rlen = rset.len();
        let mut order: Vec<NodeId> = Vec::new();
        while order.len() < rlen
            invariant
                self.wf(),
                self.has_node(target),
                rlen == rset@.len(),
                rset@.no_duplicates(),
                rset@.contains(target),
                forall|i: int| 0 <= i < rset@.len() ==> self.reaches(target, #[trigger] rset@[i]),
                forall|m: NodeId| #[trigger] self.reaches(target, m) ==> rset@.contains(m),
                forall|v: NodeId, m: NodeId|
                    rset@.contains(v) && #[trigger] self.dep_edge(v, m) ==> rset@.contains(m),
                order@.no_duplicates(),
                forall|i: int| 0 <= i < order@.len() ==> rset@.contains(#[trigger] order@[i]),
                forall|i: int, m: NodeId|
                    0 <= i < order@.len() && #[trigger] self.dep_edge(order@[i], m)
                        ==> exists|j: int| 0 <= j < i && order@[j] == m,
                order@.len() <= rlen,
            decreases rlen - order@.len(),
        {
            let ghost order0 = order@;
            let mut progress = false;
            let mut idx: usize = 0;
            while idx < rlen
                invariant
                    self.wf(),
                    self.has_node(target),
                    rlen == rset@.len(),
                    rset@.no_duplicates(),
                    rset@.contains(target),
                    forall|i: int|
                        0 <= i < rset@.len() ==> self.reaches(target, #[trigger] rset@[i]),
                    forall|m: NodeId| #[trigger] self.reaches(target, m) ==> rset@.contains(m),
                    forall|v: NodeId, m: NodeId|
                        rset@.contains(v) && #[trigger] self.dep_edge(v, m) ==> rset@.contains(m),
                    order@.no_duplicates(),
                    forall|i: int| 0 <= i < order@.len() ==> rset@.contains(#[trigger] order@[i]),
                    forall|i: int, m: NodeId|
                        0 <= i < order@.len() && #[trigger] self.dep_edge(order@[i], m)
                            ==> exists|j: int| 0 <= j < i && order@[j] == m,
                    0 <= idx <= rlen,
                    order0.len() <= order@.len(),
                    progress ==> order@.len() > order0.len(),
                    !progress ==> order@ == order0,
                    !progress ==> forall|q: int|
                        0 <= q < idx ==> order@.contains(#[trigger] rset@[q]) || (exists|m: NodeId|
                            #[trigger] self.dep_edge(rset@[q], m) && !order@.contains(m)),
                decreases rlen - idx,
            {
                let v = rset[idx];
                if !contains_id(&order, v) {
                    let ups = self.upstream_nodes(v);
                    let ulen = ups.len();
                    let mut all_in = true;
                    let mut t: usize = 0;
                    while t < ulen
                        invariant
                            ulen == ups@.len(),
                            0 <= t <= ulen,
                            all_in ==> forall|u: int|
                                0 <= u < t ==> order@.contains(#[trigger] ups@[u]),
                            !all_in ==> exists|u: int|
                                0 <= u < ulen && !order@.contains(#[trigger] ups@[u]),
                        decreases ulen - t,
                    {
                        if !contains_id(&order, ups[t]) {
                            all_in = false;
                            proof {
                                assert(!order@.contains(ups@[t as int]));
                            }
                            t = ulen;
                        } else {
                            t += 1;
                        }
                    }
                    if all_in {
                        let ghost prev = order@;
                        order.push(v);
                        progress = true;
                        proof {
                            assert(order@ == prev.push(v));
                            assert(forall|u: int| 0 <= u < prev.len() ==> order@[u] == prev[u]);
                            assert(order@[prev.len() as int] == v);
                            assert(order@.no_duplicates()) by {
                                assert(!prev.contains(v));
                            }
                            assert forall|i: int, m: NodeId|
                                0 <= i < order@.len() && #[trigger] self.dep_edge(order@[i], m)
                                    implies exists|j: int| 0 <= j < i && order@[j] == m by {
                                if i < prev.len() {
                                    assert(order@[i] == prev[i]);
                                    assert(self.dep_edge(prev[i], m));
                                    let j = choose|j: int| 0 <= j < i && prev[j] == m;
                                    assert(order@[j] == m);
                                } else {
                                    assert(order@[i] == v);
                                    assert(ups@.contains(m));
                                    let u = choose|u: int| 0 <= u < ups@.len() && ups@[u] == m;
                                    assert(prev.contains(ups@[u]));
                                    let j = choose|j: int| 0 <= j < prev.len() && prev[j] == m;
                                    assert(order@[j] == m);
                                }
                            }
                            assert(rset@.contains(order@[prev.len() as int]));
                        }
                    } else {
                        proof {
                            if !progress {
                                let u = choose|u: int|
                                    0 <= u < ulen && !order@.contains(#[trigger] ups@[u]);
                                assert(ups@.contains(ups@[u]));
                                assert(self.dep_edge(v, ups@[u]));
                                assert(self.dep_edge(rset@[idx as int], ups@[u])
                                    && !order@.contains(ups@[u]));
                            }
                        }
                    }
                } else {
                    proof {
                        assert(order@.contains(rset@[idx as int]));
                    }
                }
                idx += 1;
            }
            if !progress {
                proof {
                    // Some reachable node is still unordered: otherwise the
                    // duplicate-free reachable set would fit inside the
                    // strictly shorter order.
                    assert(exists|q: int|
                        0 <= q < rlen && !order@.contains(#[trigger] rset@[q])) by {
                        if forall|q: int|
                            0 <= q < rlen ==> order@.contains(#[trigger] rset@[q]) {
                            rset@.unique_seq_to_set();
                            order@.lemma_cardinality_of_set();
                            assert forall|m: NodeId| rset@.to_set().contains(m) implies order@
                                .to_set().contains(m) by {
                                let q = choose|q: int| 0 <= q < rset@.len() && rset@[q] == m;
                                assert(order@.contains(m));
                            }
                            assert(rset@.to_set() <= order@.to_set());
                            lemma_len_subset(rset@.to_set(), order@.to_set());
                            assert(false);
                        }
                    }
                    let q0 = choose|q: int|
                        0 <= q < rlen && !order@.contains(#[trigger] rset@[q]);
                    let v0 = rset@[q0];
                    assert(rset@.contains(v0));
                    assert forall|v: NodeId|
                        #[trigger] rset@.contains(v) && !order@.contains(v) implies self
                        .has_blocked_dep(rset@, order@, v) by {
                        let q = choose|q: int| 0 <= q < rset@.len() && rset@[q] == v;
                        assert(order@.contains(rset@[q]) || (exists|m: NodeId|
                            #[trigger] self.dep_edge(rset@[q], m) && !order@.contains(m)));
                        let m = choose|m: NodeId|
                            #[trigger] self.dep_edge(rset@[q], m) && !order@.contains(m);
                        assert(rset@.contains(m));
                        assert(self.dep_edge(v, m) && rset@.contains(m) && !order@.contains(m));
                        reveal(Graph::has_blocked_dep);
                    }
                    self.lemma_stuck_cycle(target, rset@, order@, v0);
                }
                return Err(GraphError::CycleDetected);
            }
            proof {
                order@.unique_seq_to_set();
                rset@.lemma_cardinality_of_set();
                assert forall|m: NodeId| order@.to_set().contains(m) implies rset@.to_set()
                    .contains(m) by {
                    let q = choose|q: int| 0 <= q < order@.len() && order@[q] == m;
                    assert(rset@.contains(m));
                    let q2 = choose|q2: int| 0 <= q2 < rset@.len() && rset@[q2] == m;
                }
                assert(order@.to_set() <= rset@.to_set());
                lemma_len_subset(order@.to_set(), rset@.to_set());
                assert(order@.len() <= rlen);
            }
        }
        proof {
            // Equal sizes and containment one way give full coverage.
            order@.unique_seq_to_set();
            rset@.unique_seq_to_set();
            assert forall|m: NodeId| order@.to_set().contains(m) implies rset@.to_set().contains(
                m,
            ) by {
                let q = choose|q: int| 0 <= q < order@.len() && order@[q] == m;
                assert(rset@.contains(m));
            }
            assert(order@.to_set() <= rset@.to_set());
            vstd::set_lib::lemma_subset_equality(order@.to_set(), rset@.to_set());
            assert forall|m: NodeId| #[trigger] self.reaches(target, m) implies order@.contains(
                m,
            ) by {
                assert(rset@.contains(m));
                let q = choose|q: int| 0 <= q < rset@.len() && rset@[q] == m;
                assert(rset@.to_set().contains(m));
                assert(order@.to_set().contains(m));
            }
            assert(order@.contains(target));
            self.lemma_topo_no_cycle(target, order@);
        }
        Ok(order)
    }
}

} // verus!
