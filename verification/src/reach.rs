//! Reachability over the dependency relation: path lemmas and the worklist
//! search that `add_link` uses to guard against cycles.

use vstd::prelude::*;
use vstd::seq_lib::group_seq_properties;

use crate::graph::{Graph, NodeId};

verus! {

/// Pushing preserves membership and adds the pushed element.
proof fn lemma_seq_push_contains<A>(s: Seq<A>, v: A)
    ensures
        forall|x: A| s.contains(x) ==> #[trigger] s.push(v).contains(x),
        s.push(v).contains(v),
{
    assert forall|x: A| s.contains(x) implies #[trigger] s.push(v).contains(x) by {
        let i = choose|i: int| 0 <= i < s.len() && s[i] == x;
        assert(s.push(v)[i] == x);
    }
    assert(s.push(v)[s.len() as int] == v);
}

impl Graph {
    /// Reflexivity: the one-element path.
    pub proof fn lemma_reaches_refl(self, a: NodeId)
        ensures
            self.reaches(a, a),
    {
        let p = seq![a];
        assert(p.len() == 1 && p[0] == a && p.last() == a);
        assert(self.is_dep_path(p));
    }

    /// One dependency edge is a path.
    pub proof fn lemma_reaches_step(self, a: NodeId, b: NodeId)
        requires
            self.dep_edge(a, b),
        ensures
            self.reaches(a, b),
    {
        let p = seq![a, b];
        assert(p[0] == a && p.last() == b);
        assert forall|i: int| 0 <= i < p.len() - 1 implies self.dep_edge(p[i], #[trigger] p[i + 1]) by {
            assert(i == 0);
        }
        assert(self.is_dep_path(p));
    }

    /// Paths compose.
    pub proof fn lemma_reaches_trans(self, a: NodeId, b: NodeId, c: NodeId)
        requires
            self.reaches(a, b),
            self.reaches(b, c),
        ensures
            self.reaches(a, c),
    {
        let p1 = choose|p: Seq<NodeId>|
            p.len() >= 1 && p[0] == a && p.last() == b && #[trigger] self.is_dep_path(p);
        let p2 = choose|p: Seq<NodeId>|
            p.len() >= 1 && p[0] == b && p.last() == c && #[trigger] self.is_dep_path(p);
        let p = p1 + p2.drop_first();
        assert(p.len() >= 1);
        assert(p[0] == a);
        if p2.len() == 1 {
            assert(p =~= p1);
            assert(b == c);
            assert(p.last() == c);
        } else {
            assert(p.last() == p2.drop_first().last());
            assert(p2.drop_first().last() == p2.last());
        }
        assert forall|i: int| 0 <= i < p.len() - 1 implies self.dep_edge(p[i], #[trigger] p[i + 1]) by {
            if i < p1.len() - 1 {
                assert(p[i] == p1[i] && p[i + 1] == p1[i + 1]);
                assert(self.dep_edge(p1[i], p1[i + 1]));
            } else if i == p1.len() - 1 {
                assert(p[i] == p1.last());
                assert(p[i + 1] == p2.drop_first()[0]);
                assert(p2.drop_first()[0] == p2[1]);
                assert(self.dep_edge(p2[0], p2[1]));
            } else {
                let j = i - p1.len();
                assert(p[i] == p2.drop_first()[j]);
                assert(p[i + 1] == p2.drop_first()[j + 1]);
                assert(p2.drop_first()[j] == p2[j + 1]);
                assert(p2.drop_first()[j + 1] == p2[j + 2]);
                assert(self.dep_edge(p2[j + 1], p2[j + 1 + 1]));
            }
        }
        assert(self.is_dep_path(p));
    }

    /// Both ends of a dependency edge are live nodes.
    pub proof fn lemma_dep_edge_nodes(self, a: NodeId, b: NodeId)
        requires
            self.wf(),
            self.dep_edge(a, b),
        ensures
            self.has_node(a),
            self.has_node(b),
    {
        let i = choose|i: int|
            0 <= i < self.links@.len() && {
                let l = #[trigger] self.links@[i];
                &&& self.has_pin(l.to)
                &&& self.has_pin(l.from)
                &&& self.spec_pin(l.to).node == a
                &&& self.spec_pin(l.from).node == b
            };
        let l = self.links@[i];
        let ti = self.pin_idx(l.to);
        assert(self.pins@[ti] == self.spec_pin(l.to));
        let fi = self.pin_idx(l.from);
        assert(self.pins@[fi] == self.spec_pin(l.from));
    }

    /// Every element of a dependency path from a member of a dep-closed set
    /// stays in the set.
    proof fn lemma_path_in_closed(self, s: Seq<NodeId>, p: Seq<NodeId>, i: int)
        requires
            self.is_dep_path(p),
            p.len() >= 1,
            s.contains(p[0]),
            forall|v: NodeId, m: NodeId|
                s.contains(v) && #[trigger] self.dep_edge(v, m) ==> s.contains(m),
            0 <= i < p.len(),
        ensures
            s.contains(p[i]),
        decreases i,
    {
        if i > 0 {
            self.lemma_path_in_closed(s, p, i - 1);
            assert(self.dep_edge(p[i - 1], p[i - 1 + 1]));
        }
    }

    /// A set that contains `a` and is closed under dependency edges contains
    /// everything `a` reaches.
    pub proof fn lemma_closed_covers(self, a: NodeId, s: Seq<NodeId>)
        requires
            s.contains(a),
            forall|v: NodeId, m: NodeId|
                s.contains(v) && #[trigger] self.dep_edge(v, m) ==> s.contains(m),
        ensures
            forall|b: NodeId| #[trigger] self.reaches(a, b) ==> s.contains(b),
    {
        assert forall|b: NodeId| #[trigger] self.reaches(a, b) implies s.contains(b) by {
            let p = choose|p: Seq<NodeId>|
                p.len() >= 1 && p[0] == a && p.last() == b && #[trigger] self.is_dep_path(p);
            self.lemma_path_in_closed(s, p, p.len() - 1);
        }
    }

    /// Ids of the live nodes, as a set.
    pub open spec fn node_id_seq(self) -> Seq<NodeId> {
        self.nodes@.map_values(|n: crate::graph::Node| n.id)
    }

    /// A duplicate-free sequence whose elements are `a` or live nodes cannot
    /// outgrow the node store by more than one.
    proof fn lemma_visited_bound(self, a: NodeId, s: Seq<NodeId>)
        requires
            s.no_duplicates(),
            forall|i: int| 0 <= i < s.len() ==> (#[trigger] s[i] == a || self.has_node(s[i])),
        ensures
            s.len() <= self.nodes@.len() + 1,
    {
        broadcast use group_seq_properties;

        let ids = self.node_id_seq();
        assert(ids.len() == self.nodes@.len());
        assert forall|i: int| 0 <= i < s.len() implies ids.to_set().insert(a).contains(
            #[trigger] s[i],
        ) by {
            if s[i] != a {
                let j = choose|j: int| 0 <= j < self.nodes@.len() && self.nodes@[j].id == s[i];
                assert(ids[j] == s[i]);
                assert(ids.to_set().contains(s[i]));
            }
        }
        assert(s.to_set() <= ids.to_set().insert(a));
        s.unique_seq_to_set();
        ids.lemma_cardinality_of_set();
        vstd::set_lib::lemma_len_subset(s.to_set(), ids.to_set().insert(a));
        assert(ids.to_set().insert(a).len() <= ids.to_set().len() + 1);
    }

    /// Any dependency path can be shortened to a duplicate-free one with
    /// the same endpoints.
    proof fn shorten_path(self, p: Seq<NodeId>) -> (q: Seq<NodeId>)
        requires
            self.is_dep_path(p),
            p.len() >= 1,
        ensures
            self.is_dep_path(q),
            q.len() >= 1,
            q.len() <= p.len(),
            q[0] == p[0],
            q.last() == p.last(),
            q.no_duplicates(),
        decreases p.len(),
    {
        if p.no_duplicates() {
            p
        } else {
            let (i, j) = choose|i: int, j: int|
                0 <= i < p.len() && 0 <= j < p.len() && i != j && p[i] == p[j];
            let (lo, hi): (int, int) = if i < j {
                (i, j)
            } else {
                (j, i)
            };
            assert(p[lo] == p[hi]);
            let p2 = p.take(lo) + p.skip(hi);
            assert(p2.len() == p.len() - (hi - lo));
            assert(p2.len() >= 1);
            assert(p2[0] == p[0]) by {
                if lo > 0 {
                    assert(p2[0] == p[0]);
                } else {
                    assert(p2[0] == p.skip(hi)[0]);
                    assert(p.skip(hi)[0] == p[hi]);
                }
            }
            assert(p2.last() == p.last()) by {
                assert(p2.last() == p.skip(hi).last());
            }
            assert forall|x: int| 0 <= x < p2.len() - 1 implies self.dep_edge(
                p2[x],
                #[trigger] p2[x + 1],
            ) by {
                if x < lo - 1 {
                    assert(p2[x] == p[x] && p2[x + 1] == p[x + 1]);
                    assert(self.dep_edge(p[x], p[x + 1]));
                } else if x == lo - 1 {
                    assert(p2[x] == p[x]);
                    assert(p2[x + 1] == p.skip(hi)[0]);
                    assert(p.skip(hi)[0] == p[hi]);
                    assert(p[hi] == p[lo]);
                    assert(self.dep_edge(p[x], p[x + 1]));
                    assert(p[x + 1] == p[lo]);
                } else {
                    assert(p2[x] == p.skip(hi)[x - lo]);
                    assert(p2[x + 1] == p.skip(hi)[x + 1 - lo]);
                    assert(p.skip(hi)[x - lo] == p[hi + x - lo]);
                    assert(p.skip(hi)[x + 1 - lo] == p[hi + x + 1 - lo]);
                    assert(self.dep_edge(p[hi + x - lo], p[hi + x - lo + 1]));
                }
            }
            assert(self.is_dep_path(p2));
            self.shorten_path(p2)
        }
    }

    /// Reachability is witnessed by a duplicate-free path.
    pub proof fn lemma_simple_path(self, a: NodeId, b: NodeId) -> (q: Seq<NodeId>)
        requires
            self.reaches(a, b),
        ensures
            self.is_dep_path(q),
            q.len() >= 1,
            q[0] == a,
            q.last() == b,
            q.no_duplicates(),
    {
        let p = choose|p: Seq<NodeId>|
            p.len() >= 1 && p[0] == a && p.last() == b && #[trigger] self.is_dep_path(p);
        self.shorten_path(p)
    }

    /// On a well-formed graph, everything reached from a live node is live.
    pub proof fn lemma_reaches_has_node(self, a: NodeId, b: NodeId)
        requires
            self.wf(),
            self.has_node(a),
            self.reaches(a, b),
        ensures
            self.has_node(b),
    {
        let p = choose|p: Seq<NodeId>|
            p.len() >= 1 && p[0] == a && p.last() == b && #[trigger] self.is_dep_path(p);
        if p.len() == 1 {
            assert(b == a);
        } else {
            assert(self.dep_edge(p[p.len() - 2], p[p.len() - 2 + 1]));
            self.lemma_dep_edge_nodes(p[p.len() - 2], p[p.len() - 1]);
        }
    }

    /// A duplicate-free sequence of live nodes is no longer than the node
    /// store.
    pub proof fn lemma_distinct_nodes_bound(self, s: Seq<NodeId>)
        requires
            s.no_duplicates(),
            forall|i: int| 0 <= i < s.len() ==> self.has_node(#[trigger] s[i]),
        ensures
            s.len() <= self.nodes@.len(),
    {
        broadcast use group_seq_properties;

        let ids = self.node_id_seq();
        assert(ids.len() == self.nodes@.len());
        assert forall|i: int| 0 <= i < s.len() implies ids.to_set().contains(#[trigger] s[i]) by {
            let j = choose|j: int| 0 <= j < self.nodes@.len() && self.nodes@[j].id == s[i];
            assert(ids[j] == s[i]);
        }
        assert(s.to_set() <= ids.to_set());
        s.unique_seq_to_set();
        ids.lemma_cardinality_of_set();
        vstd::set_lib::lemma_len_subset(s.to_set(), ids.to_set());
    }

    /// Every node that `a` reaches through dependency edges (including `a`
    /// itself), collected by a worklist search. The result is closed under
    /// dependency edges.
    pub fn reachable_from(&self, a: NodeId) -> (r: Vec<NodeId>)
        requires
            self.wf(),
        ensures
            r@.no_duplicates(),
            r@.contains(a),
            forall|i: int| 0 <= i < r@.len() ==> self.reaches(a, #[trigger] r@[i]),
            forall|m: NodeId| #[trigger] self.reaches(a, m) ==> r@.contains(m),
            forall|v: NodeId, m: NodeId|
                r@.contains(v) && #[trigger] self.dep_edge(v, m) ==> r@.contains(m),
    {
        let mut visited: Vec<NodeId> = Vec::new();
        let mut worklist: Vec<NodeId> = Vec::new();
        visited.push(a);
        worklist.push(a);
        proof {
            self.lemma_reaches_refl(a);
            assert(visited@[0] == a);
            assert(visited@.contains(a));
            assert(worklist@[0] == a);
            assert(visited@.contains(worklist@[0]));
        }
        let nnodes = self.nodes.len();
        while worklist.len() > 0
            invariant
                self.wf(),
                nnodes == self.nodes@.len(),
                visited@.no_duplicates(),
                worklist@.no_duplicates(),
                visited@.contains(a),
                forall|i: int|
                    0 <= i < worklist@.len() ==> visited@.contains(#[trigger] worklist@[i]),
                forall|i: int| 0 <= i < visited@.len() ==> self.reaches(a, #[trigger] visited@[i]),
                forall|i: int|
                    0 <= i < visited@.len() ==> (#[trigger] visited@[i] == a || self.has_node(
                        visited@[i],
                    )),
                visited@.len() <= nnodes + 1,
                forall|v: NodeId, m: NodeId|
                    visited@.contains(v) && #[trigger] self.dep_edge(v, m) && !worklist@.contains(
                        v,
                    ) ==> visited@.contains(m),
            decreases nnodes + 1 - visited@.len(), worklist@.len(),
        {
            let ghost visited0 = visited@;
            let ghost worklist0 = worklist@;
            let x = match worklist.pop() {
                Some(x) => x,
                None => {
                    proof {
                        assert(false);
                    }
                    a
                },
            };
            proof {
                assert(x == worklist0.last());
                assert(worklist0.contains(x));
                assert(visited@.contains(x));
                assert(forall|i: int|
                    0 <= i < worklist@.len() ==> worklist@[i] == worklist0[i]);
                assert(!worklist@.contains(x)) by {
                    if worklist@.contains(x) {
                        let i = choose|i: int| 0 <= i < worklist@.len() && worklist@[i] == x;
                        assert(worklist0[i] == x);
                        assert(worklist0[worklist0.len() - 1] == x);
                    }
                }
            }
            let ups = self.upstream_nodes(x);
            let ulen = ups.len();
            let mut j: usize = 0;
            while j < ulen
                invariant
                    self.wf(),
                    nnodes == self.nodes@.len(),
                    ulen == ups@.len(),
                    0 <= j <= ulen,
                    forall|m: NodeId| ups@.contains(m) == self.dep_edge(x, m),
                    visited@.contains(x),
                    self.reaches(a, x),
                    visited@.no_duplicates(),
                    worklist@.no_duplicates(),
                    visited@.contains(a),
                    forall|i: int|
                        0 <= i < worklist@.len() ==> visited@.contains(#[trigger] worklist@[i]),
                    forall|i: int|
                        0 <= i < visited@.len() ==> self.reaches(a, #[trigger] visited@[i]),
                    forall|i: int|
                        0 <= i < visited@.len() ==> (#[trigger] visited@[i] == a || self.has_node(
                            visited@[i],
                        )),
                    visited@.len() <= nnodes + 1,
                    !worklist@.contains(x),
                    forall|u: int| 0 <= u < j ==> visited@.contains(#[trigger] ups@[u]),
                    forall|v: NodeId, m: NodeId|
                        visited@.contains(v) && #[trigger] self.dep_edge(v, m)
                            && !worklist@.contains(v) && v != x ==> visited@.contains(m),
                    visited0.len() <= visited@.len(),
                    visited@.len() > visited0.len() || worklist@.len() < worklist0.len(),
                decreases ulen - j,
            {
                let m = ups[j];
                proof {
                    assert(ups@.contains(m));
                    assert(self.dep_edge(x, m));
                    self.lemma_dep_edge_nodes(x, m);
                }
                let mut seen = false;
                let vlen = visited.len();
                let mut t: usize = 0;
                while t < vlen
                    invariant
                        vlen == visited@.len(),
                        0 <= t <= vlen,
                        seen == (exists|u: int| 0 <= u < t && visited@[u] == m),
                    decreases vlen - t,
                {
                    if visited[t] == m {
                        seen = true;
                        proof {
                            assert(0 <= t < t + 1 && visited@[t as int] == m);
                        }
                        t = vlen;
                    } else {
                        proof {
                            if exists|u: int| 0 <= u < t + 1 && visited@[u] == m {
                                let u = choose|u: int| 0 <= u < t + 1 && visited@[u] == m;
                                assert(0 <= u < t && visited@[u] == m);
                            }
                        }
                        t = t + 1;
                    }
                }
                proof {
                    assert(seen == visited@.contains(m));
                }
                if !seen {
                    let ghost pv = visited@;
                    let ghost pw = worklist@;
                    visited.push(m);
                    worklist.push(m);
                    proof {
                        assert(visited@ == pv.push(m));
                        assert(worklist@ == pw.push(m));
                        lemma_seq_push_contains(pv, m);
                        lemma_seq_push_contains(pw, m);
                        assert(visited@.no_duplicates()) by {
                            assert(forall|u: int| 0 <= u < pv.len() ==> visited@[u] == pv[u]);
                            assert(!pv.contains(m));
                        }
                        assert(worklist@.no_duplicates()) by {
                            assert(forall|u: int| 0 <= u < pw.len() ==> worklist@[u] == pw[u]);
                            assert(!pw.contains(m)) by {
                                if pw.contains(m) {
                                    assert(pv.contains(m));
                                }
                            }
                        }
                        self.lemma_reaches_step(x, m);
                        self.lemma_reaches_trans(a, x, m);
                        self.lemma_visited_bound(a, visited@);
                        assert(!worklist@.contains(x)) by {
                            if worklist@.contains(x) {
                                let i = choose|i: int|
                                    0 <= i < worklist@.len() && worklist@[i] == x;
                                if i < pw.len() {
                                    assert(pw[i] == x);
                                } else {
                                    assert(worklist@[i] == m);
                                    assert(pv.contains(x));
                                }
                            }
                        }
                    }
                }
                j += 1;
            }
            proof {
                // `x` is now fully processed: everything it depends on is
                // recorded, so the closure invariant extends to it.
                assert forall|v: NodeId, m: NodeId|
                    visited@.contains(v) && #[trigger] self.dep_edge(v, m) && !worklist@.contains(
                        v,
                    ) implies visited@.contains(m) by {
                    if v == x {
                        assert(ups@.contains(m));
                        let u = choose|u: int| 0 <= u < ups@.len() && ups@[u] == m;
                        assert(visited@.contains(ups@[u]));
                    }
                }
            }
        }
        proof {
            self.lemma_closed_covers(a, visited@);
        }
        visited
    }

    /// Whether `a` is `b` or transitively depends on it.
    pub fn depends_on(&self, a: NodeId, b: NodeId) -> (r: bool)
        requires
            self.wf(),
        ensures
            r == self.reaches(a, b),
    {
        let set = self.reachable_from(a);
        let n = set.len();
        let mut i: usize = 0;
        while i < n
            invariant
                self.wf(),
                n == set@.len(),
                0 <= i <= n,
                forall|j: int| 0 <= j < i ==> set@[j] != b,
                forall|j: int| 0 <= j < n ==> self.reaches(a, #[trigger] set@[j]),
            decreases n - i,
        {
            if set[i] == b {
                proof {
                    assert(self.reaches(a, set@[i as int]));
                }
                return true;
            }
            i += 1;
        }
        proof {
            assert(!set@.contains(b));
            assert(!self.reaches(a, b)) by {
                if self.reaches(a, b) {
                    assert(set@.contains(b));
                }
            }
        }
        false
    }
}

} // verus!
