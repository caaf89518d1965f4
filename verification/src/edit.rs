//! Graph edits beyond node creation: connecting pins under the structural
//! rules (matching types, output-to-input, single producer per input, no
//! cycles), and the removal operations that keep the graph consistent.

use vstd::prelude::*;

use crate::graph::{Graph, GraphError, Link, LinkId, NodeId, PinId, PinKind};

verus! {

/// Pushing preserves membership, for link sequences.
proof fn lemma_seq_push_link_contains(s: Seq<Link>, v: Link)
    ensures
        forall|x: Link| s.contains(x) ==> #[trigger] s.push(v).contains(x),
        s.push(v).contains(v),
{
    assert forall|x: Link| s.contains(x) implies #[trigger] s.push(v).contains(x) by {
        let i = choose|i: int| 0 <= i < s.len() && s[i] == x;
        assert(s.push(v)[i] == x);
    }
    assert(s.push(v)[s.len() as int] == v);
}

impl Graph {
    /// The well-formedness clauses that only mention nodes and pins carry
    /// over between graphs with equal node and pin stores.
    proof fn lemma_wf_nodes_pins_parts(g0: Graph, g1: Graph)
        requires
            g0.wf(),
            g1.nodes@ == g0.nodes@,
            g1.pins@ == g0.pins@,
        ensures
            g1.node_ids_unique(),
            g1.pin_ids_unique(),
            g1.node_pins_valid(),
            g1.pins_owned(),
            g1.params_wf(),
            forall|pid: PinId| g1.has_pin(pid) == g0.has_pin(pid),
            forall|pid: PinId| #[trigger] g0.has_pin(pid) ==> g1.spec_pin(pid) == g0.spec_pin(pid),
            forall|id: NodeId| g1.has_node(id) == g0.has_node(id),
            forall|id: NodeId|
                #[trigger] g0.has_node(id) ==> g1.spec_node(id) == g0.spec_node(id),
    {
        Self::lemma_pin_frame(g0, g1);
        Self::lemma_node_frame(g0, g1);
        assert(g1.node_pins_valid()) by {
            assert forall|i: int| 0 <= i < g1.nodes@.len() implies {
                let n = #[trigger] g1.nodes@[i];
                &&& (forall|k: int|
                    0 <= k < n.inputs@.len() ==> {
                        let pid = #[trigger] n.inputs@[k];
                        &&& g1.has_pin(pid)
                        &&& g1.spec_pin(pid).node == n.id
                        &&& g1.spec_pin(pid).kind == PinKind::Input
                    })
                &&& (forall|k: int|
                    0 <= k < n.outputs@.len() ==> {
                        let pid = #[trigger] n.outputs@[k];
                        &&& g1.has_pin(pid)
                        &&& g1.spec_pin(pid).node == n.id
                        &&& g1.spec_pin(pid).kind == PinKind::Output
                    })
                &&& (forall|k: int, l: int|
                    0 <= k < l < n.inputs@.len() ==> n.inputs@[k] != n.inputs@[l])
                &&& (forall|k: int, l: int|
                    0 <= k < l < n.outputs@.len() ==> n.outputs@[k] != n.outputs@[l])
            } by {
                assert(g1.nodes@[i] == g0.nodes@[i]);
                let n = g1.nodes@[i];
                assert forall|k: int| 0 <= k < n.inputs@.len() implies {
                    let pid = #[trigger] n.inputs@[k];
                    &&& g1.has_pin(pid)
                    &&& g1.spec_pin(pid).node == n.id
                    &&& g1.spec_pin(pid).kind == PinKind::Input
                } by {
                    assert(g0.has_pin(n.inputs@[k]));
                }
                assert forall|k: int| 0 <= k < n.outputs@.len() implies {
                    let pid = #[trigger] n.outputs@[k];
                    &&& g1.has_pin(pid)
                    &&& g1.spec_pin(pid).node == n.id
                    &&& g1.spec_pin(pid).kind == PinKind::Output
                } by {
                    assert(g0.has_pin(n.outputs@[k]));
                }
            }
        }
        assert(g1.pins_owned()) by {
            assert forall|i: int| 0 <= i < g1.pins@.len() implies {
                let p = #[trigger] g1.pins@[i];
                &&& g1.has_node(p.node)
                &&& if p.kind == PinKind::Input {
                    g1.spec_node(p.node).inputs@.contains(p.id)
                } else {
                    g1.spec_node(p.node).outputs@.contains(p.id)
                }
            } by {
                assert(g1.pins@[i] == g0.pins@[i]);
                let p = g1.pins@[i];
                assert(g0.has_node(p.node));
            }
        }
        assert(g1.params_wf()) by {
            assert forall|i: int| 0 <= i < g1.nodes@.len() implies (#[trigger] g1.nodes@[i]).params
                .wf() by {
                assert(g1.nodes@[i] == g0.nodes@[i]);
            }
        }
    }

    /// A graph whose pin store holds a subset of another's (with unique ids
    /// on both sides) resolves every pin it has identically.
    proof fn lemma_sub_pin_frame(g0: Graph, g1: Graph)
        requires
            g0.pin_ids_unique(),
            g1.pin_ids_unique(),
            forall|i: int| 0 <= i < g1.pins@.len() ==> g0.pins@.contains(#[trigger] g1.pins@[i]),
        ensures
            forall|pid: PinId|
                #[trigger] g1.has_pin(pid) ==> g0.has_pin(pid) && g1.spec_pin(pid) == g0.spec_pin(
                    pid,
                ),
    {
        assert forall|pid: PinId| #[trigger] g1.has_pin(pid) implies g0.has_pin(pid)
            && g1.spec_pin(pid) == g0.spec_pin(pid) by {
            let i = g1.pin_idx(pid);
            assert(g1.pins@[i].id == pid);
            assert(g0.pins@.contains(g1.pins@[i]));
            let j = choose|j: int| 0 <= j < g0.pins@.len() && g0.pins@[j] == g1.pins@[i];
            g0.lemma_pin_idx_unique(pid, j);
        }
    }

    /// Connects an output pin to an input pin. Checks, in order: both pins
    /// exist, `from` is an output and `to` an input, the types match, `to`
    /// is not already fed, and the new edge closes no cycle. On any failure
    /// the graph is unchanged.
    #[verifier::rlimit(80)]
    pub fn add_link(&mut self, from: PinId, to: PinId) -> (r: Result<LinkId, GraphError>)
        requires
            old(self).wf(),
            old(self).next_link_id < u64::MAX,
        ensures
            final(self).wf(),
            r is Err ==> *final(self) == *old(self),
            !old(self).has_pin(from) ==> r == Err::<LinkId, GraphError>(GraphError::UnknownPin(
                from,
            )),
            old(self).has_pin(from) && !old(self).has_pin(to) ==> r == Err::<LinkId, GraphError>(
                GraphError::UnknownPin(to),
            ),
            old(self).has_pin(from) && old(self).has_pin(to) && !(old(self).spec_pin(from).kind
                == PinKind::Output && old(self).spec_pin(to).kind == PinKind::Input) ==> r == Err::<
                LinkId,
                GraphError,
            >(GraphError::WrongPinKind),
            old(self).has_pin(from) && old(self).has_pin(to) && old(self).spec_pin(from).kind
                == PinKind::Output && old(self).spec_pin(to).kind == PinKind::Input && old(self).spec_pin(from).pin_type != old(self).spec_pin(to).pin_type ==> r == Err::<
                LinkId,
                GraphError,
            >(GraphError::TypeMismatch),
            old(self).has_pin(from) && old(self).has_pin(to) && old(self).spec_pin(from).kind
                == PinKind::Output && old(self).spec_pin(to).kind == PinKind::Input && old(self).spec_pin(from).pin_type == old(self).spec_pin(to).pin_type ==> {
                let connected = exists|i: int|
                    0 <= i < old(self).links@.len() && (#[trigger] old(self).links@[i]).to == to;
                let fnode = old(self).spec_pin(from).node;
                let tnode = old(self).spec_pin(to).node;
                &&& connected ==> r == Err::<LinkId, GraphError>(GraphError::InputAlreadyConnected(
                    to,
                ))
                &&& !connected && old(self).reaches(fnode, tnode) ==> r == Err::<
                    LinkId,
                    GraphError,
                >(GraphError::WouldCreateCycle)
                &&& !connected && !old(self).reaches(fnode, tnode) ==> r == Ok::<LinkId, GraphError>(
                    LinkId(old(self).next_link_id),
                )
            },
            r is Ok ==> {
                &&& final(self).links@ == old(self).links@.push(Link {
                    id: LinkId(old(self).next_link_id),
                    from,
                    to,
                })
                &&& final(self).nodes@ == old(self).nodes@
                &&& final(self).pins@ == old(self).pins@
                &&& final(self).next_node_id == old(self).next_node_id
                &&& final(self).next_pin_id == old(self).next_pin_id
                &&& final(self).next_link_id == old(self).next_link_id + 1
                &&& !old(self).reaches(old(self).spec_pin(from).node, old(self).spec_pin(to).node)
                &&& (forall|a: NodeId, b: NodeId|
                    final(self).dep_edge(a, b) == (old(self).dep_edge(a, b) || (a == old(self).spec_pin(to).node && b == old(self).spec_pin(from).node)))
            },
    {
        let (fkind, ftype, fnode) = match self.pin(from) {
            Some(p) => (p.kind, p.pin_type, p.node),
            None => {
                return Err(GraphError::UnknownPin(from));
            },
        };
        let (tkind, ttype, tnode) = match self.pin(to) {
            Some(p) => (p.kind, p.pin_type, p.node),
            None => {
                return Err(GraphError::UnknownPin(to));
            },
        };
        if !(fkind == PinKind::Output && tkind == PinKind::Input) {
            return Err(GraphError::WrongPinKind);
        }
        if ftype != ttype {
            return Err(GraphError::TypeMismatch);
        }
        match self.find_incoming_link(to) {
            Some(_) => {
                return Err(GraphError::InputAlreadyConnected(to));
            },
            None => {},
        }
        if self.depends_on(fnode, tnode) {
            return Err(GraphError::WouldCreateCycle);
        }
        let ghost g0 = *self;
        let lid = LinkId(self.next_link_id);
        self.next_link_id = self.next_link_id + 1;
        let new_link = Link { id: lid, from, to };
        self.links.push(new_link);
        proof {
            let g1 = *self;
            let llen = g0.links@.len() as int;
            Self::lemma_wf_nodes_pins_parts(g0, g1);
            assert(g1.link_ids_unique()) by {
                assert forall|i: int, j: int| 0 <= i < j < g1.links@.len() implies g1.links@[i].id
                    != g1.links@[j].id by {
                    if j < llen {
                    } else {
                        assert(g1.links@[i].id.0 < g0.next_link_id);
                        assert(g1.links@[j].id == lid);
                    }
                }
            }
            assert(g1.ids_bounded()) by {
                assert forall|i: int| 0 <= i < g1.links@.len() implies (#[trigger] g1.links@[i]).id.0
                    < g1.next_link_id by {
                    if i < llen {
                        assert(g1.links@[i] == g0.links@[i]);
                        assert(g0.links@[i].id.0 < g0.next_link_id);
                    }
                }
            }
            assert(g1.links_valid()) by {
                assert forall|i: int| 0 <= i < g1.links@.len() implies {
                    let l = #[trigger] g1.links@[i];
                    &&& g1.has_pin(l.from)
                    &&& g1.has_pin(l.to)
                    &&& g1.spec_pin(l.from).kind == PinKind::Output
                    &&& g1.spec_pin(l.to).kind == PinKind::Input
                    &&& g1.spec_pin(l.from).pin_type == g1.spec_pin(l.to).pin_type
                } by {
                    if i < llen {
                        assert(g1.links@[i] == g0.links@[i]);
                        let l = g1.links@[i];
                        assert(g0.has_pin(l.from));
                        assert(g0.has_pin(l.to));
                    } else {
                        assert(g1.links@[i] == new_link);
                        assert(g0.has_pin(from));
                        assert(g0.has_pin(to));
                    }
                }
            }
            assert(g1.inputs_single()) by {
                assert forall|i: int, j: int| 0 <= i < j < g1.links@.len() implies g1.links@[i].to
                    != g1.links@[j].to by {
                    if j < llen {
                    } else {
                        assert(g1.links@[j].to == to);
                        assert(g1.links@[i] == g0.links@[i]);
                    }
                }
            }
            assert(g1.wf());
            assert forall|a: NodeId, b: NodeId|
                g1.dep_edge(a, b) == (g0.dep_edge(a, b) || (a == g0.spec_pin(to).node && b
                    == g0.spec_pin(from).node)) by {
                if g0.dep_edge(a, b) {
                    let i = choose|i: int|
                        0 <= i < g0.links@.len() && {
                            let l = #[trigger] g0.links@[i];
                            &&& g0.has_pin(l.to)
                            &&& g0.has_pin(l.from)
                            &&& g0.spec_pin(l.to).node == a
                            &&& g0.spec_pin(l.from).node == b
                        };
                    assert(g1.links@[i] == g0.links@[i]);
                    assert(g1.has_pin(g1.links@[i].to));
                    assert(g1.spec_pin(g1.links@[i].to).node == a);
                    assert(g1.spec_pin(g1.links@[i].from).node == b);
                    assert(g1.dep_edge(a, b));
                }
                if a == g0.spec_pin(to).node && b == g0.spec_pin(from).node {
                    assert(g1.links@[llen] == new_link);
                    assert(g1.has_pin(new_link.to));
                    assert(g1.spec_pin(new_link.to).node == a);
                    assert(g1.spec_pin(new_link.from).node == b);
                    assert(g1.dep_edge(a, b));
                }
                if g1.dep_edge(a, b) {
                    let i = choose|i: int|
                        0 <= i < g1.links@.len() && {
                            let l = #[trigger] g1.links@[i];
                            &&& g1.has_pin(l.to)
                            &&& g1.has_pin(l.from)
                            &&& g1.spec_pin(l.to).node == a
                            &&& g1.spec_pin(l.from).node == b
                        };
                    if i < llen {
                        let l = g0.links@[i];
                        assert(g0.has_pin(l.to));
                        assert(g0.has_pin(l.from));
                        assert(g1.spec_pin(l.to) == g0.spec_pin(l.to));
                        assert(g1.spec_pin(l.from) == g0.spec_pin(l.from));
                        assert(g0.dep_edge(a, b));
                    } else {
                        assert(g1.links@[i] == new_link);
                        assert(a == g1.spec_pin(to).node && b == g1.spec_pin(from).node);
                        assert(g0.has_pin(to) && g0.has_pin(from));
                        assert(a == g0.spec_pin(to).node && b == g0.spec_pin(from).node);
                    }
                }
            }
        }
        Ok(lid)
    }

    /// Removes the link from `from` to `to`, if one exists. Returns whether
    /// anything was removed; a no-op otherwise.
    #[verifier::rlimit(80)]
    pub fn remove_link_between(&mut self, from: PinId, to: PinId) -> (r: bool)
        requires
            old(self).wf(),
        ensures
            final(self).wf(),
            final(self).nodes@ == old(self).nodes@,
            final(self).pins@ == old(self).pins@,
            final(self).next_node_id == old(self).next_node_id,
            final(self).next_pin_id == old(self).next_pin_id,
            final(self).next_link_id == old(self).next_link_id,
            r ==> exists|i: int|
                0 <= i < old(self).links@.len() && (#[trigger] old(self).links@[i]).from == from
                    && old(self).links@[i].to == to && final(self).links@ == old(self).links@.remove(i),
            !r ==> *final(self) == *old(self) && (forall|i: int|
                0 <= i < old(self).links@.len() ==> !((#[trigger] old(self).links@[i]).from == from
                    && old(self).links@[i].to == to)),
            forall|a: NodeId, b: NodeId|
                #[trigger] final(self).dep_edge(a, b) ==> old(self).dep_edge(a, b),
    {
        let ghost g0 = *self;
        let n = self.links.len();
        let mut i: usize = 0;
        while i < n
            invariant
                *self == g0,
                g0 == *old(self),
                g0.wf(),
                n == self.links@.len(),
                0 <= i <= n,
                forall|j: int|
                    0 <= j < i ==> !((#[trigger] self.links@[j]).from == from && self.links@[j].to
                        == to),
            decreases n - i,
        {
            if self.links[i].from == from && self.links[i].to == to {
                self.links.remove(i);
                proof {
                    let g1 = *self;
                    let idx = i as int;
                    assert(g1.links@ == g0.links@.remove(idx));
                    assert(forall|j: int|
                        0 <= j < idx ==> g1.links@[j] == g0.links@[j]);
                    assert(forall|j: int|
                        idx <= j < g1.links@.len() ==> g1.links@[j] == g0.links@[j + 1]);
                    Self::lemma_wf_nodes_pins_parts(g0, g1);
                    assert(g1.link_ids_unique()) by {
                        assert forall|x: int, y: int| 0 <= x < y < g1.links@.len() implies g1.links@[x].id
                            != g1.links@[y].id by {
                            let x0: int = if x < idx {
                                x
                            } else {
                                x + 1
                            };
                            let y0: int = if y < idx {
                                y
                            } else {
                                y + 1
                            };
                            assert(g1.links@[x] == g0.links@[x0]);
                            assert(g1.links@[y] == g0.links@[y0]);
                        }
                    }
                    assert(g1.inputs_single()) by {
                        assert forall|x: int, y: int| 0 <= x < y < g1.links@.len() implies g1.links@[x].to
                            != g1.links@[y].to by {
                            let x0: int = if x < idx {
                                x
                            } else {
                                x + 1
                            };
                            let y0: int = if y < idx {
                                y
                            } else {
                                y + 1
                            };
                            assert(g1.links@[x] == g0.links@[x0]);
                            assert(g1.links@[y] == g0.links@[y0]);
                        }
                    }
                    assert(g1.links_valid()) by {
                        assert forall|x: int| 0 <= x < g1.links@.len() implies {
                            let l = #[trigger] g1.links@[x];
                            &&& g1.has_pin(l.from)
                            &&& g1.has_pin(l.to)
                            &&& g1.spec_pin(l.from).kind == PinKind::Output
                            &&& g1.spec_pin(l.to).kind == PinKind::Input
                            &&& g1.spec_pin(l.from).pin_type == g1.spec_pin(l.to).pin_type
                        } by {
                            let x0: int = if x < idx {
                                x
                            } else {
                                x + 1
                            };
                            assert(g1.links@[x] == g0.links@[x0]);
                            let l = g1.links@[x];
                            assert(g0.has_pin(l.from));
                            assert(g0.has_pin(l.to));
                        }
                    }
                    assert(g1.ids_bounded()) by {
                        assert forall|x: int| 0 <= x < g1.links@.len() implies (
                        #[trigger] g1.links@[x]).id.0 < g1.next_link_id by {
                            let x0: int = if x < idx {
                                x
                            } else {
                                x + 1
                            };
                            assert(g1.links@[x] == g0.links@[x0]);
                            assert(g0.links@[x0].id.0 < g0.next_link_id);
                        }
                    }
                    assert(g1.wf());
                    assert forall|a: NodeId, b: NodeId| #[trigger] g1.dep_edge(a, b) implies g0
                        .dep_edge(a, b) by {
                        let x = choose|x: int|
                            0 <= x < g1.links@.len() && {
                                let l = #[trigger] g1.links@[x];
                                &&& g1.has_pin(l.to)
                                &&& g1.has_pin(l.from)
                                &&& g1.spec_pin(l.to).node == a
                                &&& g1.spec_pin(l.from).node == b
                            };
                        let x0: int = if x < idx {
                            x
                        } else {
                            x + 1
                        };
                        assert(g1.links@[x] == g0.links@[x0]);
                        let l = g0.links@[x0];
                        assert(g0.has_pin(l.to));
                        assert(g0.has_pin(l.from));
                        assert(g1.spec_pin(l.to) == g0.spec_pin(l.to));
                        assert(g1.spec_pin(l.from) == g0.spec_pin(l.from));
                    }
                }
                return true;
            }
            i += 1;
        }
        false
    }
    /// Removes every link that touches `pin`, at either end. Returns
    /// whether anything was removed.
    #[verifier::rlimit(80)]
    pub fn remove_links_for_pin(&mut self, pin: PinId) -> (r: bool)
        requires
            old(self).wf(),
        ensures
            final(self).wf(),
            final(self).nodes@ == old(self).nodes@,
            final(self).pins@ == old(self).pins@,
            final(self).next_node_id == old(self).next_node_id,
            final(self).next_pin_id == old(self).next_pin_id,
            final(self).next_link_id == old(self).next_link_id,
            forall|x: int|
                0 <= x < final(self).links@.len() ==> old(self).links@.contains(
                    #[trigger] final(self).links@[x],
                ) && final(self).links@[x].from != pin && final(self).links@[x].to != pin,
            forall|j: int|
                0 <= j < old(self).links@.len() && (#[trigger] old(self).links@[j]).from != pin
                    && old(self).links@[j].to != pin ==> final(self).links@.contains(
                    old(self).links@[j],
                ),
            r == (final(self).links@.len() != old(self).links@.len()),
            forall|a: NodeId, b: NodeId|
                #[trigger] final(self).dep_edge(a, b) ==> old(self).dep_edge(a, b),
    {
        let ghost g0 = *self;
        let mut kept: Vec<Link> = Vec::new();
        let n = self.links.len();
        let mut i: usize = 0;
        while i < n
            invariant
                *self == g0,
                g0 == *old(self),
                g0.wf(),
                n == g0.links@.len(),
                0 <= i <= n,
                forall|x: int|
                    0 <= x < kept@.len() ==> (#[trigger] kept@[x]).from != pin && kept@[x].to
                        != pin,
                forall|x: int|
                    0 <= x < kept@.len() ==> exists|j: int|
                        0 <= j < i && g0.links@[j] == #[trigger] kept@[x],
                forall|j: int|
                    0 <= j < i && (#[trigger] g0.links@[j]).from != pin && g0.links@[j].to != pin
                        ==> kept@.contains(g0.links@[j]),
                forall|x: int, y: int| 0 <= x < y < kept@.len() ==> kept@[x].id != kept@[y].id,
                kept@.len() <= i,
            decreases n - i,
        {
            let l = self.links[i];
            if l.from != pin && l.to != pin {
                let ghost prev = kept@;
                kept.push(l);
                proof {
                    lemma_seq_push_link_contains(prev, l);
                    assert(kept@[prev.len() as int] == g0.links@[i as int]);
                    assert forall|x: int, y: int| 0 <= x < y < kept@.len() implies kept@[x].id
                        != kept@[y].id by {
                        if y == prev.len() {
                            let j = choose|j: int|
                                0 <= j < i && g0.links@[j] == #[trigger] prev[x];
                            assert(kept@[x] == prev[x]);
                            assert(g0.links@[j].id != g0.links@[i as int].id);
                        } else {
                            assert(kept@[x] == prev[x] && kept@[y] == prev[y]);
                        }
                    }
                }
            }
            i += 1;
        }
        let removed = kept.len() != n;
        let ghost kept_view = kept@;
        self.links = kept;
        proof {
            let g1 = *self;
            assert(g1.links@ == kept_view);
            Self::lemma_wf_nodes_pins_parts(g0, g1);
            assert forall|x: int| 0 <= x < g1.links@.len() implies g0.links@.contains(
                #[trigger] g1.links@[x],
            ) by {
                let j = choose|j: int| 0 <= j < n && g0.links@[j] == kept_view[x];
                assert(g0.links@[j] == g1.links@[x]);
            }
            assert(g1.link_ids_unique());
            assert(g1.links_valid()) by {
                assert forall|x: int| 0 <= x < g1.links@.len() implies {
                    let l = #[trigger] g1.links@[x];
                    &&& g1.has_pin(l.from)
                    &&& g1.has_pin(l.to)
                    &&& g1.spec_pin(l.from).kind == PinKind::Output
                    &&& g1.spec_pin(l.to).kind == PinKind::Input
                    &&& g1.spec_pin(l.from).pin_type == g1.spec_pin(l.to).pin_type
                } by {
                    assert(g0.links@.contains(g1.links@[x]));
                    let j = choose|j: int| 0 <= j < g0.links@.len() && g0.links@[j] == g1.links@[x];
                    let l = g0.links@[j];
                    assert(g0.has_pin(l.from));
                    assert(g0.has_pin(l.to));
                }
            }
            assert(g1.inputs_single()) by {
                assert forall|x: int, y: int| 0 <= x < y < g1.links@.len() implies g1.links@[x].to
                    != g1.links@[y].to by {
                    let jx = choose|j: int| 0 <= j < n && g0.links@[j] == kept_view[x];
                    let jy = choose|j: int| 0 <= j < n && g0.links@[j] == kept_view[y];
                    if jx == jy {
                        assert(kept_view[x].id == kept_view[y].id);
                    } else if jx < jy {
                        assert(g0.links@[jx].to != g0.links@[jy].to);
                    } else {
                        assert(g0.links@[jy].to != g0.links@[jx].to);
                    }
                }
            }
            assert(g1.ids_bounded()) by {
                assert forall|x: int| 0 <= x < g1.links@.len() implies (#[trigger] g1.links@[x]).id.0
                    < g1.next_link_id by {
                    assert(g0.links@.contains(g1.links@[x]));
                    let j = choose|j: int| 0 <= j < g0.links@.len() && g0.links@[j] == g1.links@[x];
                    assert(g0.links@[j].id.0 < g0.next_link_id);
                }
            }
            assert(g1.wf());
            assert forall|a: NodeId, b: NodeId| #[trigger] g1.dep_edge(a, b) implies g0.dep_edge(
                a,
                b,
            ) by {
                let x = choose|x: int|
                    0 <= x < g1.links@.len() && {
                        let l = #[trigger] g1.links@[x];
                        &&& g1.has_pin(l.to)
                        &&& g1.has_pin(l.from)
                        &&& g1.spec_pin(l.to).node == a
                        &&& g1.spec_pin(l.from).node == b
                    };
                assert(g0.links@.contains(g1.links@[x]));
                let j = choose|j: int| 0 <= j < g0.links@.len() && g0.links@[j] == g1.links@[x];
                let l = g0.links@[j];
                assert(g0.has_pin(l.to));
                assert(g0.has_pin(l.from));
                assert(g1.spec_pin(l.to) == g0.spec_pin(l.to));
                assert(g1.spec_pin(l.from) == g0.spec_pin(l.from));
            }
            assert(kept_view.len() <= n);
        }
        removed
    }

    /// With unique ids on both sides, a node store holding a subset of
    /// another's values resolves every node it has identically.
    proof fn lemma_sub_node_frame(g0: Graph, g1: Graph)
        requires
            g0.node_ids_unique(),
            g1.node_ids_unique(),
            forall|i: int| 0 <= i < g1.nodes@.len() ==> g0.nodes@.contains(#[trigger] g1.nodes@[i]),
        ensures
            forall|nid: NodeId|
                #[trigger] g1.has_node(nid) ==> g0.has_node(nid) && g1.spec_node(nid)
                    == g0.spec_node(nid),
    {
        assert forall|nid: NodeId| #[trigger] g1.has_node(nid) implies g0.has_node(nid)
            && g1.spec_node(nid) == g0.spec_node(nid) by {
            let i = g1.node_idx(nid);
            assert(g1.nodes@[i].id == nid);
            assert(g0.nodes@.contains(g1.nodes@[i]));
            let j = choose|j: int| 0 <= j < g0.nodes@.len() && g0.nodes@[j] == g1.nodes@[i];
            g0.lemma_node_idx_unique(nid, j);
            g1.lemma_node_idx_unique(nid, i);
        }
    }

    /// Removes a node together with its pins and every link touching them.
    /// A no-op if the node does not exist.
    #[verifier::rlimit(100)]
    pub fn remove_node(&mut self, id: NodeId)
        requires
            old(self).wf(),
        ensures
            final(self).wf(),
            !final(self).has_node(id),
            !old(self).has_node(id) ==> *final(self) == *old(self),
            final(self).next_node_id == old(self).next_node_id,
            final(self).next_pin_id == old(self).next_pin_id,
            final(self).next_link_id == old(self).next_link_id,
            forall|nid: NodeId|
                #[trigger] final(self).has_node(nid) == (old(self).has_node(nid) && nid != id),
            forall|nid: NodeId|
                #[trigger] final(self).has_node(nid) ==> final(self).spec_node(nid) == old(self).spec_node(nid),
            forall|pid: PinId|
                #[trigger] final(self).has_pin(pid) == (old(self).has_pin(pid) && old(self).spec_pin(pid).node != id),
            forall|pid: PinId|
                #[trigger] final(self).has_pin(pid) ==> final(self).spec_pin(pid) == old(self).spec_pin(pid),
            forall|x: int|
                0 <= x < final(self).links@.len() ==> old(self).links@.contains(
                    #[trigger] final(self).links@[x],
                ) && old(self).spec_pin(final(self).links@[x].from).node != id && old(self).spec_pin(final(self).links@[x].to).node != id,
            forall|j: int|
                0 <= j < old(self).links@.len() && old(self).spec_pin(
                    (#[trigger] old(self).links@[j]).from,
                ).node != id && old(self).spec_pin(old(self).links@[j].to).node != id ==> final(self).links@.contains(old(self).links@[j]),
            forall|a: NodeId, b: NodeId|
                #[trigger] final(self).dep_edge(a, b) ==> old(self).dep_edge(a, b) && a != id && b
                    != id,
    {
        let ghost g0 = *self;
        let ni = match self.node_index(id) {
            None => {
                return ;
            },
            Some(ni) => ni,
        };
        proof {
            g0.lemma_node_idx_unique(id, ni as int);
        }
        // Drop every link whose either end is owned by the node.
        let mut kept: Vec<Link> = Vec::new();
        let n = self.links.len();
        let mut i: usize = 0;
        while i < n
            invariant
                *self == g0,
                g0 == *old(self),
                g0.wf(),
                n == g0.links@.len(),
                0 <= i <= n,
                forall|x: int|
                    0 <= x < kept@.len() ==> g0.spec_pin((#[trigger] kept@[x]).from).node != id
                        && g0.spec_pin(kept@[x].to).node != id,
                forall|x: int|
                    0 <= x < kept@.len() ==> exists|j: int|
                        0 <= j < i && g0.links@[j] == #[trigger] kept@[x],
                forall|j: int|
                    0 <= j < i && g0.spec_pin((#[trigger] g0.links@[j]).from).node != id
                        && g0.spec_pin(g0.links@[j].to).node != id ==> kept@.contains(
                        g0.links@[j],
                    ),
                forall|x: int, y: int| 0 <= x < y < kept@.len() ==> kept@[x].id != kept@[y].id,
                kept@.len() <= i,
            decreases n - i,
        {
            let l = self.links[i];
            proof {
                assert(g0.links@[i as int] == l);
                assert(g0.has_pin(l.from));
                assert(g0.has_pin(l.to));
            }
            let fo = match self.pin(l.from) {
                Some(p) => p.node,
                None => {
                    proof {
                        assert(false);
                    }
                    id
                },
            };
            let to_owner = match self.pin(l.to) {
                Some(p) => p.node,
                None => {
                    proof {
                        assert(false);
                    }
                    id
                },
            };
            if fo != id && to_owner != id {
                let ghost prev = kept@;
                kept.push(l);
                proof {
                    lemma_seq_push_link_contains(prev, l);
                    assert(kept@[prev.len() as int] == g0.links@[i as int]);
                    assert forall|x: int, y: int| 0 <= x < y < kept@.len() implies kept@[x].id
                        != kept@[y].id by {
                        if y == prev.len() {
                            let j = choose|j: int|
                                0 <= j < i && g0.links@[j] == #[trigger] prev[x];
                            assert(kept@[x] == prev[x]);
                            assert(g0.links@[j].id != g0.links@[i as int].id);
                        } else {
                            assert(kept@[x] == prev[x] && kept@[y] == prev[y]);
                        }
                    }
                }
            }
            i += 1;
        }
        let ghost kept_view = kept@;
        self.links = kept;
        // Drop the node's pins, preserving the order of the rest.
        let mut k: usize = 0;
        while k < self.pins.len()
            invariant
                g0.wf(),
                g0 == *old(self),
                self.nodes@ == g0.nodes@,
                self.links@ == kept_view,
                self.next_node_id == g0.next_node_id,
                self.next_pin_id == g0.next_pin_id,
                self.next_link_id == g0.next_link_id,
                0 <= k <= self.pins@.len(),
                forall|x: int| 0 <= x < k ==> (#[trigger] self.pins@[x]).node != id,
                forall|x: int|
                    0 <= x < self.pins@.len() ==> g0.pins@.contains(#[trigger] self.pins@[x]),
                forall|q: int|
                    0 <= q < g0.pins@.len() && (#[trigger] g0.pins@[q]).node != id
                        ==> self.pins@.contains(g0.pins@[q]),
                forall|x: int, y: int|
                    0 <= x < y < self.pins@.len() ==> self.pins@[x].id != self.pins@[y].id,
            decreases self.pins@.len() - k,
        {
            if self.pins[k].node == id {
                let ghost prev = self.pins@;
                self.pins.remove(k);
                proof {
                    assert(self.pins@ == prev.remove(k as int));
                    assert(forall|x: int| 0 <= x < k ==> self.pins@[x] == prev[x]);
                    assert(forall|x: int|
                        k <= x < self.pins@.len() ==> self.pins@[x] == prev[x + 1]);
                    assert forall|x: int|
                        0 <= x < self.pins@.len() implies g0.pins@.contains(
                        #[trigger] self.pins@[x],
                    ) by {
                        if x < k {
                            assert(prev[x] == self.pins@[x]);
                        } else {
                            assert(prev[x + 1] == self.pins@[x]);
                        }
                    }
                    assert forall|q: int|
                        0 <= q < g0.pins@.len() && (#[trigger] g0.pins@[q]).node != id
                            implies self.pins@.contains(g0.pins@[q]) by {
                        assert(prev.contains(g0.pins@[q]));
                        let t = choose|t: int| 0 <= t < prev.len() && prev[t] == g0.pins@[q];
                        assert(prev[k as int].node == id);
                        assert(t != k);
                        if t < k {
                            assert(self.pins@[t] == g0.pins@[q]);
                        } else {
                            assert(self.pins@[t - 1] == g0.pins@[q]);
                        }
                    }
                    assert forall|x: int, y: int|
                        0 <= x < y < self.pins@.len() implies self.pins@[x].id
                        != self.pins@[y].id by {
                        let x0: int = if x < k {
                            x
                        } else {
                            x + 1
                        };
                        let y0: int = if y < k {
                            y
                        } else {
                            y + 1
                        };
                        assert(self.pins@[x] == prev[x0]);
                        assert(self.pins@[y] == prev[y0]);
                    }
                }
            } else {
                k += 1;
            }
        }
        let ghost pins_view = self.pins@;
        self.nodes.remove(ni);
        proof {
            let g1 = *self;
            assert(g1.nodes@ == g0.nodes@.remove(ni as int));
            assert(forall|x: int| 0 <= x < ni ==> g1.nodes@[x] == g0.nodes@[x]);
            assert(forall|x: int|
                ni <= x < g1.nodes@.len() ==> g1.nodes@[x] == g0.nodes@[x + 1]);
            assert(g1.node_ids_unique()) by {
                assert forall|x: int, y: int| 0 <= x < y < g1.nodes@.len() implies g1.nodes@[x].id
                    != g1.nodes@[y].id by {
                    let x0: int = if x < ni {
                        x
                    } else {
                        x + 1
                    };
                    let y0: int = if y < ni {
                        y
                    } else {
                        y + 1
                    };
                    assert(g1.nodes@[x] == g0.nodes@[x0]);
                    assert(g1.nodes@[y] == g0.nodes@[y0]);
                }
            }
            assert forall|x: int| 0 <= x < g1.nodes@.len() implies g0.nodes@.contains(
                #[trigger] g1.nodes@[x],
            ) by {
                if x < ni {
                    assert(g1.nodes@[x] == g0.nodes@[x]);
                } else {
                    assert(g1.nodes@[x] == g0.nodes@[x + 1]);
                }
            }
            Self::lemma_sub_node_frame(g0, g1);
            Self::lemma_sub_pin_frame(g0, g1);
            // has_node characterization
            assert forall|nid: NodeId| #[trigger] g1.has_node(nid) == (g0.has_node(nid) && nid
                != id) by {
                if g1.has_node(nid) {
                    let x = g1.node_idx(nid);
                    let x0: int = if x < ni {
                        x
                    } else {
                        x + 1
                    };
                    assert(g1.nodes@[x] == g0.nodes@[x0]);
                    assert(x0 != ni);
                    assert(g0.nodes@[x0].id != g0.nodes@[ni as int].id);
                }
                if g0.has_node(nid) && nid != id {
                    let x0 = g0.node_idx(nid);
                    assert(g0.nodes@[x0].id == nid);
                    assert(x0 != ni);
                    if x0 < ni {
                        assert(g1.nodes@[x0] == g0.nodes@[x0]);
                    } else {
                        assert(g1.nodes@[x0 - 1] == g0.nodes@[x0]);
                    }
                }
            }
            // has_pin characterization
            assert forall|pid: PinId| #[trigger] g1.has_pin(pid) == (g0.has_pin(pid) && g0.spec_pin(
                pid,
            ).node != id) by {
                if g1.has_pin(pid) {
                    let x = g1.pin_idx(pid);
                    assert(g1.pins@[x].id == pid);
                    assert(g1.pins@[x].node != id);
                    assert(g1.spec_pin(pid) == g0.spec_pin(pid));
                }
                if g0.has_pin(pid) && g0.spec_pin(pid).node != id {
                    let q = g0.pin_idx(pid);
                    assert(g0.pins@[q] == g0.spec_pin(pid));
                    assert(pins_view.contains(g0.pins@[q]));
                    let t = choose|t: int| 0 <= t < pins_view.len() && pins_view[t] == g0.pins@[q];
                    assert(g1.pins@[t].id == pid);
                }
            }
            assert(g1.ids_bounded()) by {
                assert forall|x: int| 0 <= x < g1.nodes@.len() implies (#[trigger] g1.nodes@[x]).id.0
                    < g1.next_node_id by {
                    let j = choose|j: int| 0 <= j < g0.nodes@.len() && g0.nodes@[j] == g1.nodes@[x];
                    assert(g0.nodes@[j].id.0 < g0.next_node_id);
                }
                assert forall|x: int| 0 <= x < g1.pins@.len() implies (#[trigger] g1.pins@[x]).id.0
                    < g1.next_pin_id by {
                    let j = choose|j: int| 0 <= j < g0.pins@.len() && g0.pins@[j] == g1.pins@[x];
                    assert(g0.pins@[j].id.0 < g0.next_pin_id);
                }
                assert forall|x: int| 0 <= x < g1.links@.len() implies (#[trigger] g1.links@[x]).id.0
                    < g1.next_link_id by {
                    let j = choose|j: int| 0 <= j < g0.links@.len() && g0.links@[j] == g1.links@[x];
                    assert(g0.links@[j].id.0 < g0.next_link_id);
                }
            }
            assert(g1.node_pins_valid()) by {
                assert forall|x: int| 0 <= x < g1.nodes@.len() implies {
                    let nd = #[trigger] g1.nodes@[x];
                    &&& (forall|k2: int|
                        0 <= k2 < nd.inputs@.len() ==> {
                            let pid = #[trigger] nd.inputs@[k2];
                            &&& g1.has_pin(pid)
                            &&& g1.spec_pin(pid).node == nd.id
                            &&& g1.spec_pin(pid).kind == PinKind::Input
                        })
                    &&& (forall|k2: int|
                        0 <= k2 < nd.outputs@.len() ==> {
                            let pid = #[trigger] nd.outputs@[k2];
                            &&& g1.has_pin(pid)
                            &&& g1.spec_pin(pid).node == nd.id
                            &&& g1.spec_pin(pid).kind == PinKind::Output
                        })
                    &&& (forall|k2: int, l2: int|
                        0 <= k2 < l2 < nd.inputs@.len() ==> nd.inputs@[k2] != nd.inputs@[l2])
                    &&& (forall|k2: int, l2: int|
                        0 <= k2 < l2 < nd.outputs@.len() ==> nd.outputs@[k2] != nd.outputs@[l2])
                } by {
                    let j = choose|j: int| 0 <= j < g0.nodes@.len() && g0.nodes@[j] == g1.nodes@[x];
                    let nd = g1.nodes@[x];
                    assert(g0.nodes@[j] == nd);
                    assert(nd.id != id) by {
                        let x0: int = if x < ni {
                            x
                        } else {
                            x + 1
                        };
                        assert(g1.nodes@[x] == g0.nodes@[x0]);
                        assert(x0 != ni);
                        assert(g0.nodes@[x0].id != g0.nodes@[ni as int].id);
                    }
                    assert forall|k2: int| 0 <= k2 < nd.inputs@.len() implies {
                        let pid = #[trigger] nd.inputs@[k2];
                        &&& g1.has_pin(pid)
                        &&& g1.spec_pin(pid).node == nd.id
                        &&& g1.spec_pin(pid).kind == PinKind::Input
                    } by {
                        let pid = nd.inputs@[k2];
                        assert(g0.has_pin(pid));
                        assert(g0.spec_pin(pid).node == nd.id);
                        assert(g1.has_pin(pid));
                        assert(g1.spec_pin(pid) == g0.spec_pin(pid));
                    }
                    assert forall|k2: int| 0 <= k2 < nd.outputs@.len() implies {
                        let pid = #[trigger] nd.outputs@[k2];
                        &&& g1.has_pin(pid)
                        &&& g1.spec_pin(pid).node == nd.id
                        &&& g1.spec_pin(pid).kind == PinKind::Output
                    } by {
                        let pid = nd.outputs@[k2];
                        assert(g0.has_pin(pid));
                        assert(g0.spec_pin(pid).node == nd.id);
                        assert(g1.has_pin(pid));
                        assert(g1.spec_pin(pid) == g0.spec_pin(pid));
                    }
                }
            }
            assert(g1.pins_owned()) by {
                assert forall|x: int| 0 <= x < g1.pins@.len() implies {
                    let p = #[trigger] g1.pins@[x];
                    &&& g1.has_node(p.node)
                    &&& if p.kind == PinKind::Input {
                        g1.spec_node(p.node).inputs@.contains(p.id)
                    } else {
                        g1.spec_node(p.node).outputs@.contains(p.id)
                    }
                } by {
                    let p = g1.pins@[x];
                    assert(p.node != id);
                    let j = choose|j: int| 0 <= j < g0.pins@.len() && g0.pins@[j] == p;
                    assert(g0.has_node(p.node));
                    assert(g1.has_node(p.node));
                    assert(g1.spec_node(p.node) == g0.spec_node(p.node));
                }
            }
            assert(g1.link_ids_unique());
            assert(g1.links_valid()) by {
                assert forall|x: int| 0 <= x < g1.links@.len() implies {
                    let l = #[trigger] g1.links@[x];
                    &&& g1.has_pin(l.from)
                    &&& g1.has_pin(l.to)
                    &&& g1.spec_pin(l.from).kind == PinKind::Output
                    &&& g1.spec_pin(l.to).kind == PinKind::Input
                    &&& g1.spec_pin(l.from).pin_type == g1.spec_pin(l.to).pin_type
                } by {
                    let j = choose|j: int|
                        0 <= j < kept_view.len() && kept_view[j] == g1.links@[x];
                    let l = g1.links@[x];
                    assert(g0.spec_pin(l.from).node != id);
                    assert(g0.spec_pin(l.to).node != id);
                    assert(g0.links@.contains(l));
                    let j0 = choose|j0: int| 0 <= j0 < g0.links@.len() && g0.links@[j0] == l;
                    assert(g0.has_pin(l.from));
                    assert(g0.has_pin(l.to));
                    assert(g1.has_pin(l.from));
                    assert(g1.has_pin(l.to));
                    assert(g1.spec_pin(l.from) == g0.spec_pin(l.from));
                    assert(g1.spec_pin(l.to) == g0.spec_pin(l.to));
                }
            }
            assert(g1.inputs_single()) by {
                assert forall|x: int, y: int| 0 <= x < y < g1.links@.len() implies g1.links@[x].to
                    != g1.links@[y].to by {
                    let jx = choose|j: int|
                        0 <= j < g0.links@.len() && g0.links@[j] == kept_view[x];
                    let jy = choose|j: int|
                        0 <= j < g0.links@.len() && g0.links@[j] == kept_view[y];
                    if jx == jy {
                        assert(kept_view[x].id == kept_view[y].id);
                    } else if jx < jy {
                        assert(g0.links@[jx].to != g0.links@[jy].to);
                    } else {
                        assert(g0.links@[jy].to != g0.links@[jx].to);
                    }
                }
            }
            assert(g1.params_wf()) by {
                assert forall|x: int| 0 <= x < g1.nodes@.len() implies (#[trigger] g1.nodes@[x])
                    .params.wf() by {
                    let j = choose|j: int| 0 <= j < g0.nodes@.len() && g0.nodes@[j] == g1.nodes@[x];
                    assert(g0.nodes@[j].params.wf());
                }
            }
            assert(g1.wf());
            assert forall|x: int| 0 <= x < g1.links@.len() implies g0.links@.contains(
                #[trigger] g1.links@[x],
            ) && g0.spec_pin(g1.links@[x].from).node != id && g0.spec_pin(
                g1.links@[x].to,
            ).node != id by {
                let j = choose|j: int| 0 <= j < kept_view.len() && kept_view[j] == g1.links@[x];
            }
            assert forall|a: NodeId, b: NodeId| #[trigger] g1.dep_edge(a, b) implies g0.dep_edge(
                a,
                b,
            ) && a != id && b != id by {
                let x = choose|x: int|
                    0 <= x < g1.links@.len() && {
                        let l = #[trigger] g1.links@[x];
                        &&& g1.has_pin(l.to)
                        &&& g1.has_pin(l.from)
                        &&& g1.spec_pin(l.to).node == a
                        &&& g1.spec_pin(l.from).node == b
                    };
                let l = g1.links@[x];
                assert(g0.links@.contains(l));
                let j0 = choose|j0: int| 0 <= j0 < g0.links@.len() && g0.links@[j0] == l;
                assert(g0.has_pin(l.to));
                assert(g0.has_pin(l.from));
                assert(g1.spec_pin(l.to) == g0.spec_pin(l.to));
                assert(g1.spec_pin(l.from) == g0.spec_pin(l.from));
                assert(g0.spec_pin(l.to).node != id);
                assert(g0.spec_pin(l.from).node != id);
            }
        }
    }
}

} // verus!
