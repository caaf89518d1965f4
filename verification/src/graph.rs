//! The graph data model: typed nodes, their pins, and the links that wire
//! output pins to input pins.
//!
//! Structural invariants enforced here: ids are unique and never reused,
//! every pin belongs to exactly one live node, links join an output pin to an
//! input pin of the same type, and an input pin carries at most one incoming
//! link. Acyclicity is enforced at the edit boundary by `add_link`, and
//! re-checked defensively by the topological sort.

use vstd::prelude::*;

use crate::params::{
    param_seq_get, param_seq_has_key, NodeParams, ParamSeq, ParamValue, ParamValueView,
};

verus! {

/// Identity of a node; monotonically allocated, never reused.
#[derive(Debug, Clone, Copy, PartialEq, Eq, Hash, PartialOrd, Ord, Structural)]
pub struct NodeId(pub u64);

/// Identity of a pin; monotonically allocated, never reused.
#[derive(Debug, Clone, Copy, PartialEq, Eq, Hash, PartialOrd, Ord, Structural)]
pub struct PinId(pub u64);

/// Identity of a link; monotonically allocated, never reused.
#[derive(Debug, Clone, Copy, PartialEq, Eq, Hash, PartialOrd, Ord, Structural)]
pub struct LinkId(pub u64);

/// Whether a pin receives or produces data.
#[derive(Debug, Clone, Copy, PartialEq, Eq, Structural)]
pub enum PinKind {
    Input,
    Output,
}

/// The data type a pin carries; links require equal types at both ends.
#[derive(Debug, Clone, Copy, PartialEq, Eq, Structural)]
pub enum PinType {
    Mesh,
    Float,
    Int,
    Bool,
    Vec2,
    Vec3,
}

/// Blueprint for one pin of a node definition.
#[derive(Debug, Clone)]
pub struct PinDefinition {
    pub name: String,
    pub pin_type: PinType,
}

/// Blueprint for a node: display name, category, and pin layout.
#[derive(Debug, Clone)]
pub struct NodeDefinition {
    pub name: String,
    pub category: String,
    pub inputs: Vec<PinDefinition>,
    pub outputs: Vec<PinDefinition>,
}

/// A pin instance owned by a node.
#[derive(Debug, Clone)]
pub struct Pin {
    pub id: PinId,
    pub node: NodeId,
    pub kind: PinKind,
    pub pin_type: PinType,
    pub name: String,
}

/// A node instance: identity, display data, pin lists and parameters.
#[derive(Debug, Clone)]
pub struct Node {
    pub id: NodeId,
    pub name: String,
    pub category: String,
    pub inputs: Vec<PinId>,
    pub outputs: Vec<PinId>,
    pub params: NodeParams,
}

/// A directed connection from an output pin to an input pin.
#[derive(Debug, Clone, Copy, PartialEq, Eq, Structural)]
pub struct Link {
    pub id: LinkId,
    pub from: PinId,
    pub to: PinId,
}

/// Structural errors returned synchronously from graph edits and traversals.
/// A failed edit leaves the graph unchanged.
#[derive(Debug, Clone, Copy, PartialEq, Eq, Structural)]
pub enum GraphError {
    /// The named node does not exist.
    UnknownNode(NodeId),
    /// The named pin does not exist.
    UnknownPin(PinId),
    /// `add_link` was given a `from` pin that is not an output, or a `to`
    /// pin that is not an input.
    WrongPinKind,
    /// The two pins of an attempted link carry different types.
    TypeMismatch,
    /// The input pin already has an incoming link.
    InputAlreadyConnected(PinId),
    /// The attempted link would close a dependency cycle.
    WouldCreateCycle,
    /// The sort found a cycle among the nodes reachable from its target.
    CycleDetected,
}

/// Graph of nodes, pins and links in insertion-ordered stores keyed by id.
#[derive(Debug, Clone)]
pub struct Graph {
    pub nodes: Vec<Node>,
    pub pins: Vec<Pin>,
    pub links: Vec<Link>,
    pub next_node_id: u64,
    pub next_pin_id: u64,
    pub next_link_id: u64,
}

impl Graph {
    // ----- spec-level lookups -----

    pub open spec fn has_node(self, id: NodeId) -> bool {
        exists|i: int| 0 <= i < self.nodes@.len() && self.nodes@[i].id == id
    }

    pub open spec fn node_idx(self, id: NodeId) -> int {
        choose|i: int| 0 <= i < self.nodes@.len() && self.nodes@[i].id == id
    }

    pub open spec fn spec_node(self, id: NodeId) -> Node {
        self.nodes@[self.node_idx(id)]
    }

    pub open spec fn has_pin(self, id: PinId) -> bool {
        exists|i: int| 0 <= i < self.pins@.len() && self.pins@[i].id == id
    }

    pub open spec fn pin_idx(self, id: PinId) -> int {
        choose|i: int| 0 <= i < self.pins@.len() && self.pins@[i].id == id
    }

    pub open spec fn spec_pin(self, id: PinId) -> Pin {
        self.pins@[self.pin_idx(id)]
    }

    // ----- well-formedness -----

    pub open spec fn node_ids_unique(self) -> bool {
        forall|i: int, j: int|
            0 <= i < j < self.nodes@.len() ==> self.nodes@[i].id != self.nodes@[j].id
    }

    pub open spec fn pin_ids_unique(self) -> bool {
        forall|i: int, j: int|
            0 <= i < j < self.pins@.len() ==> self.pins@[i].id != self.pins@[j].id
    }

    pub open spec fn link_ids_unique(self) -> bool {
        forall|i: int, j: int|
            0 <= i < j < self.links@.len() ==> self.links@[i].id != self.links@[j].id
    }

    pub open spec fn ids_bounded(self) -> bool {
        &&& forall|i: int|
            0 <= i < self.nodes@.len() ==> (#[trigger] self.nodes@[i]).id.0 < self.next_node_id
        &&& forall|i: int|
            0 <= i < self.pins@.len() ==> (#[trigger] self.pins@[i]).id.0 < self.next_pin_id
        &&& forall|i: int|
            0 <= i < self.links@.len() ==> (#[trigger] self.links@[i]).id.0 < self.next_link_id
    }

    /// Every pin id listed by a node names a live pin that points back at the
    /// node with the matching kind, and a node's pin lists hold no duplicates.
    pub open spec fn node_pins_valid(self) -> bool {
        forall|i: int|
            0 <= i < self.nodes@.len() ==> {
                let n = #[trigger] self.nodes@[i];
                &&& (forall|k: int|
                    0 <= k < n.inputs@.len() ==> {
                        let pid = #[trigger] n.inputs@[k];
                        &&& self.has_pin(pid)
                        &&& self.spec_pin(pid).node == n.id
                        &&& self.spec_pin(pid).kind == PinKind::Input
                    })
                &&& (forall|k: int|
                    0 <= k < n.outputs@.len() ==> {
                        let pid = #[trigger] n.outputs@[k];
                        &&& self.has_pin(pid)
                        &&& self.spec_pin(pid).node == n.id
                        &&& self.spec_pin(pid).kind == PinKind::Output
                    })
                &&& (forall|k: int, l: int|
                    0 <= k < l < n.inputs@.len() ==> n.inputs@[k] != n.inputs@[l])
                &&& (forall|k: int, l: int|
                    0 <= k < l < n.outputs@.len() ==> n.outputs@[k] != n.outputs@[l])
            }
    }

    /// Every pin is owned by a live node and appears in the owner's list of
    /// the matching kind.
    pub open spec fn pins_owned(self) -> bool {
        forall|i: int|
            0 <= i < self.pins@.len() ==> {
                let p = #[trigger] self.pins@[i];
                &&& self.has_node(p.node)
                &&& if p.kind == PinKind::Input {
                    self.spec_node(p.node).inputs@.contains(p.id)
                } else {
                    self.spec_node(p.node).outputs@.contains(p.id)
                }
            }
    }

    /// Every link joins a live output pin to a live input pin of equal type.
    pub open spec fn links_valid(self) -> bool {
        forall|i: int|
            0 <= i < self.links@.len() ==> {
                let l = #[trigger] self.links@[i];
                &&& self.has_pin(l.from)
                &&& self.has_pin(l.to)
                &&& self.spec_pin(l.from).kind == PinKind::Output
                &&& self.spec_pin(l.to).kind == PinKind::Input
                &&& self.spec_pin(l.from).pin_type == self.spec_pin(l.to).pin_type
            }
    }

    /// An input pin has at most one incoming link.
    pub open spec fn inputs_single(self) -> bool {
        forall|i: int, j: int|
            0 <= i < j < self.links@.len() ==> self.links@[i].to != self.links@[j].to
    }

    pub open spec fn params_wf(self) -> bool {
        forall|i: int| 0 <= i < self.nodes@.len() ==> (#[trigger] self.nodes@[i]).params.wf()
    }

    /// The structural invariant of the graph. Established by `new` and
    /// preserved by every mutation.
    pub open spec fn wf(self) -> bool {
        &&& self.node_ids_unique()
        &&& self.pin_ids_unique()
        &&& self.link_ids_unique()
        &&& self.ids_bounded()
        &&& self.node_pins_valid()
        &&& self.pins_owned()
        &&& self.links_valid()
        &&& self.inputs_single()
        &&& self.params_wf()
    }

    // ----- dependency relation -----

    /// `a` directly depends on `b`: some link feeds one of `a`'s input pins
    /// from one of `b`'s output pins.
    pub open spec fn dep_edge(self, a: NodeId, b: NodeId) -> bool {
        exists|i: int|
            0 <= i < self.links@.len() && {
                let l = #[trigger] self.links@[i];
                &&& self.has_pin(l.to)
                &&& self.has_pin(l.from)
                &&& self.spec_pin(l.to).node == a
                &&& self.spec_pin(l.from).node == b
            }
    }

    /// Consecutive elements of `p` are dependency edges.
    pub open spec fn is_dep_path(self, p: Seq<NodeId>) -> bool {
        forall|i: int| 0 <= i < p.len() - 1 ==> self.dep_edge(p[i], #[trigger] p[i + 1])
    }

    /// `a` equals `b` or transitively depends on it.
    pub open spec fn reaches(self, a: NodeId, b: NodeId) -> bool {
        exists|p: Seq<NodeId>|
            p.len() >= 1 && p[0] == a && p.last() == b && #[trigger] self.is_dep_path(p)
    }

    /// A dependency cycle runs through `n`.
    pub open spec fn in_cycle(self, n: NodeId) -> bool {
        exists|p: Seq<NodeId>|
            p.len() >= 2 && p[0] == n && p.last() == n && #[trigger] self.is_dep_path(p)
    }

    /// Some node reachable from `t` lies on a dependency cycle.
    pub open spec fn cycle_reachable_from(self, t: NodeId) -> bool {
        exists|n: NodeId| #[trigger] self.reaches(t, n) && self.in_cycle(n)
    }

    // ----- construction and simple accessors -----

    /// An empty graph.
    pub fn new() -> (r: Self)
        ensures
            r.wf(),
            r.nodes@.len() == 0,
            r.pins@.len() == 0,
            r.links@.len() == 0,
            r.next_node_id == 0,
            r.next_pin_id == 0,
            r.next_link_id == 0,
    {
        Graph {
            nodes: Vec::new(),
            pins: Vec::new(),
            links: Vec::new(),
            next_node_id: 0,
            next_pin_id: 0,
            next_link_id: 0,
        }
    }

    /// The node store, in insertion order.
    pub fn nodes(&self) -> (r: &Vec<Node>)
        ensures
            r == &self.nodes,
    {
        &self.nodes
    }

    /// The link store, in insertion order.
    pub fn links(&self) -> (r: &Vec<Link>)
        ensures
            r == &self.links,
    {
        &self.links
    }

    /// The pin store, in insertion order.
    pub fn pins(&self) -> (r: &Vec<Pin>)
        ensures
            r == &self.pins,
    {
        &self.pins
    }

    /// Position of the node with the given id in the node store.
    pub(crate) fn node_index(&self, id: NodeId) -> (r: Option<usize>)
        ensures
            match r {
                Some(i) => i < self.nodes@.len() && self.nodes@[i as int].id == id,
                None => !self.has_node(id),
            },
    {
        let n = self.nodes.len();
        let mut i: usize = 0;
        while i < n
            invariant
                n == self.nodes@.len(),
                0 <= i <= n,
                forall|j: int| 0 <= j < i ==> self.nodes@[j].id != id,
            decreases n - i,
        {
            if self.nodes[i].id == id {
                return Some(i);
            }
            i += 1;
        }
        None
    }

    /// Position of the pin with the given id in the pin store.
    fn pin_index(&self, id: PinId) -> (r: Option<usize>)
        ensures
            match r {
                Some(i) => i < self.pins@.len() && self.pins@[i as int].id == id,
                None => !self.has_pin(id),
            },
    {
        let n = self.pins.len();
        let mut i: usize = 0;
        while i < n
            invariant
                n == self.pins@.len(),
                0 <= i <= n,
                forall|j: int| 0 <= j < i ==> self.pins@[j].id != id,
            decreases n - i,
        {
            if self.pins[i].id == id {
                return Some(i);
            }
            i += 1;
        }
        None
    }

    /// Looks a node up by id.
    pub fn node(&self, id: NodeId) -> (r: Option<&Node>)
        requires
            self.wf(),
        ensures
            match r {
                Some(n) => self.has_node(id) && *n == self.spec_node(id),
                None => !self.has_node(id),
            },
    {
        match self.node_index(id) {
            Some(i) => {
                proof {
                    self.lemma_node_idx_unique(id, i as int);
                }
                Some(&self.nodes[i])
            },
            None => None,
        }
    }

    /// Looks a pin up by id.
    pub fn pin(&self, id: PinId) -> (r: Option<&Pin>)
        requires
            self.wf(),
        ensures
            match r {
                Some(p) => self.has_pin(id) && *p == self.spec_pin(id),
                None => !self.has_pin(id),
            },
    {
        match self.pin_index(id) {
            Some(i) => {
                proof {
                    self.lemma_pin_idx_unique(id, i as int);
                }
                Some(&self.pins[i])
            },
            None => None,
        }
    }

    /// With unique ids, any position holding `id` is the canonical one.
    pub proof fn lemma_node_idx_unique(self, id: NodeId, i: int)
        requires
            self.node_ids_unique(),
            0 <= i < self.nodes@.len(),
            self.nodes@[i].id == id,
        ensures
            self.has_node(id),
            self.node_idx(id) == i,
            self.spec_node(id) == self.nodes@[i],
    {
        assert(self.has_node(id));
        let j = self.node_idx(id);
        if i != j {
            assert(self.nodes@[i].id != self.nodes@[j].id);
        }
    }

    /// With unique ids, any position holding `id` is the canonical one.
    pub proof fn lemma_pin_idx_unique(self, id: PinId, i: int)
        requires
            self.pin_ids_unique(),
            0 <= i < self.pins@.len(),
            self.pins@[i].id == id,
        ensures
            self.has_pin(id),
            self.pin_idx(id) == i,
            self.spec_pin(id) == self.pins@[i],
    {
        assert(self.has_pin(id));
        let j = self.pin_idx(id);
        if i != j {
            assert(self.pins@[i].id != self.pins@[j].id);
        }
    }
}

impl Graph {
    // ----- frame lemmas -----

    /// Equal pin stores give equal pin lookups.
    pub proof fn lemma_pin_frame(g0: Graph, g1: Graph)
        requires
            g0.pins@ == g1.pins@,
            g0.pin_ids_unique(),
        ensures
            forall|id: PinId| g0.has_pin(id) == g1.has_pin(id),
            forall|id: PinId|
                #[trigger] g0.has_pin(id) ==> g0.spec_pin(id) == g1.spec_pin(id),
    {
        assert forall|id: PinId| g0.has_pin(id) == g1.has_pin(id) by {
            if g0.has_pin(id) {
                let i = choose|i: int| 0 <= i < g0.pins@.len() && g0.pins@[i].id == id;
                assert(g1.pins@[i].id == id);
            }
            if g1.has_pin(id) {
                let i = choose|i: int| 0 <= i < g1.pins@.len() && g1.pins@[i].id == id;
                assert(g0.pins@[i].id == id);
            }
        }
        assert forall|id: PinId| #[trigger] g0.has_pin(id) implies g0.spec_pin(id) == g1.spec_pin(
            id,
        ) by {
            let i = g1.pin_idx(id);
            assert(g1.has_pin(id));
            assert(0 <= i < g1.pins@.len() && g1.pins@[i].id == id);
            g0.lemma_pin_idx_unique(id, i);
        }
    }

    /// Equal node stores give equal node lookups.
    pub proof fn lemma_node_frame(g0: Graph, g1: Graph)
        requires
            g0.nodes@ == g1.nodes@,
            g0.node_ids_unique(),
        ensures
            forall|id: NodeId| g0.has_node(id) == g1.has_node(id),
            forall|id: NodeId|
                #[trigger] g0.has_node(id) ==> g0.spec_node(id) == g1.spec_node(id),
    {
        assert forall|id: NodeId| g0.has_node(id) == g1.has_node(id) by {
            if g0.has_node(id) {
                let i = choose|i: int| 0 <= i < g0.nodes@.len() && g0.nodes@[i].id == id;
                assert(g1.nodes@[i].id == id);
            }
            if g1.has_node(id) {
                let i = choose|i: int| 0 <= i < g1.nodes@.len() && g1.nodes@[i].id == id;
                assert(g0.nodes@[i].id == id);
            }
        }
        assert forall|id: NodeId| #[trigger] g0.has_node(id) implies g0.spec_node(id)
            == g1.spec_node(id) by {
            let i = g1.node_idx(id);
            assert(g1.has_node(id));
            assert(0 <= i < g1.nodes@.len() && g1.nodes@[i].id == id);
            g0.lemma_node_idx_unique(id, i);
        }
    }

    // ----- mutations -----

    /// All obligations of `add_node`: a graph extended by one node and its
    /// freshly numbered pins stays well-formed and disturbs nothing that
    /// already existed.
    #[verifier::rlimit(100)]
    proof fn lemma_add_node(g0: Graph, g1: Graph, node_id: NodeId, n_in: int, n_out: int)
        requires
            g0.wf(),
            n_in >= 0,
            n_out >= 0,
            node_id.0 == g0.next_node_id,
            g1.next_node_id == g0.next_node_id + 1,
            g1.next_pin_id == g0.next_pin_id + n_in + n_out,
            g1.next_link_id == g0.next_link_id,
            g1.links@ == g0.links@,
            g1.nodes@.len() == g0.nodes@.len() + 1,
            forall|j: int| 0 <= j < g0.nodes@.len() ==> g1.nodes@[j] == g0.nodes@[j],
            g1.pins@.len() == g0.pins@.len() + n_in + n_out,
            forall|j: int| 0 <= j < g0.pins@.len() ==> g1.pins@[j] == g0.pins@[j],
            ({
                let nn = g1.nodes@[g0.nodes@.len() as int];
                &&& nn.id == node_id
                &&& nn.inputs@.len() == n_in
                &&& nn.outputs@.len() == n_out
                &&& nn.params.wf()
            }),
            forall|j: int|
                0 <= j < n_in ==> {
                    let p = #[trigger] g1.pins@[g0.pins@.len() + j];
                    &&& p.id == g1.nodes@[g0.nodes@.len() as int].inputs@[j]
                    &&& p.id.0 == g0.next_pin_id + j
                    &&& p.node == node_id
                    &&& p.kind == PinKind::Input
                },
            forall|j: int|
                0 <= j < n_out ==> {
                    let p = #[trigger] g1.pins@[g0.pins@.len() + n_in + j];
                    &&& p.id == g1.nodes@[g0.nodes@.len() as int].outputs@[j]
                    &&& p.id.0 == g0.next_pin_id + n_in + j
                    &&& p.node == node_id
                    &&& p.kind == PinKind::Output
                },
        ensures
            g1.wf(),
            !g0.has_node(node_id),
            g1.has_node(node_id),
            g1.spec_node(node_id) == g1.nodes@[g0.nodes@.len() as int],
            forall|id: NodeId|
                #[trigger] g0.has_node(id) ==> g1.has_node(id)
                    && g1.spec_node(id) == g0.spec_node(id),
            forall|id: NodeId| #[trigger] g1.has_node(id) ==> g0.has_node(id) || id == node_id,
            forall|pid: PinId|
                #[trigger] g0.has_pin(pid) ==> g1.has_pin(pid)
                    && g1.spec_pin(pid) == g0.spec_pin(pid),
            forall|j: int|
                0 <= j < n_in + n_out ==> {
                    let p = #[trigger] g1.pins@[g0.pins@.len() + j];
                    &&& g1.has_pin(p.id)
                    &&& g1.spec_pin(p.id) == p
                    &&& !g0.has_pin(p.id)
                },
            forall|a: NodeId, b: NodeId| g1.dep_edge(a, b) == g0.dep_edge(a, b),
    {
        let nlen = g0.nodes@.len() as int;
        let plen = g0.pins@.len() as int;
        let nn = g1.nodes@[nlen];
        // Fresh pin ids: every new pin carries an id at or past the old counter.
        assert forall|j: int| 0 <= j < n_in + n_out implies {
            let p = #[trigger] g1.pins@[plen + j];
            &&& p.id.0 == g0.next_pin_id + j
            &&& p.node == node_id
        } by {
            if j < n_in {
                assert(g1.pins@[plen + j] == g1.pins@[g0.pins@.len() + j]);
            } else {
                let jo = j - n_in;
                assert(g1.pins@[g0.pins@.len() + n_in + jo].id.0 == g0.next_pin_id + n_in + jo);
            }
        }
        assert(!g0.has_node(node_id)) by {
            if g0.has_node(node_id) {
                let i = g0.node_idx(node_id);
                assert(g0.nodes@[i].id.0 < g0.next_node_id);
            }
        }
        assert(g1.node_ids_unique()) by {
            assert forall|i: int, j: int| 0 <= i < j < g1.nodes@.len() implies g1.nodes@[i].id
                != g1.nodes@[j].id by {
                if j < nlen {
                } else {
                    assert(g1.nodes@[i].id.0 < g0.next_node_id);
                    assert(g1.nodes@[j].id == node_id);
                }
            }
        }
        assert(g1.pin_ids_unique()) by {
            assert forall|i: int, j: int| 0 <= i < j < g1.pins@.len() implies g1.pins@[i].id
                != g1.pins@[j].id by {
                if j < plen {
                } else if i < plen {
                    assert(g1.pins@[i] == g0.pins@[i]);
                    assert(g1.pins@[i].id.0 < g0.next_pin_id);
                    assert(g1.pins@[plen + (j - plen)].id.0 == g0.next_pin_id + (j - plen));
                } else {
                    assert(g1.pins@[plen + (i - plen)].id.0 == g0.next_pin_id + (i - plen));
                    assert(g1.pins@[plen + (j - plen)].id.0 == g0.next_pin_id + (j - plen));
                }
            }
        }
        assert(g1.ids_bounded()) by {
            assert forall|i: int| 0 <= i < g1.nodes@.len() implies (#[trigger] g1.nodes@[i]).id.0
                < g1.next_node_id by {
                if i < nlen {
                    assert(g1.nodes@[i].id.0 < g0.next_node_id);
                }
            }
            assert forall|i: int| 0 <= i < g1.pins@.len() implies (#[trigger] g1.pins@[i]).id.0
                < g1.next_pin_id by {
                if i < plen {
                    assert(g1.pins@[i] == g0.pins@[i]);
                    assert(g1.pins@[i].id.0 < g0.next_pin_id);
                } else {
                    assert(g1.pins@[plen + (i - plen)].id.0 == g0.next_pin_id + (i - plen));
                }
            }
            assert forall|i: int| 0 <= i < g1.links@.len() implies (#[trigger] g1.links@[i]).id.0
                < g1.next_link_id by {
                assert(g0.links@[i].id.0 < g0.next_link_id);
            }
        }
        g1.lemma_node_idx_unique(node_id, nlen);
        assert forall|id: NodeId| #[trigger] g0.has_node(id) implies g1.has_node(id)
            && g1.spec_node(id) == g0.spec_node(id) by {
            let i = g0.node_idx(id);
            assert(g1.nodes@[i].id == id);
            g1.lemma_node_idx_unique(id, i);
            g0.lemma_node_idx_unique(id, i);
        }
        assert forall|id: NodeId| #[trigger] g1.has_node(id) implies g0.has_node(id) || id
            == node_id by {
            let i = g1.node_idx(id);
            if i < nlen {
                assert(g0.nodes@[i].id == id);
            }
        }
        assert forall|pid: PinId| #[trigger] g0.has_pin(pid) implies g1.has_pin(pid)
            && g1.spec_pin(pid) == g0.spec_pin(pid) by {
            let i = g0.pin_idx(pid);
            assert(g1.pins@[i] == g0.pins@[i]);
            assert(g1.pins@[i].id == pid);
            g1.lemma_pin_idx_unique(pid, i);
            g0.lemma_pin_idx_unique(pid, i);
        }
        assert forall|j: int| 0 <= j < n_in + n_out implies {
            let p = #[trigger] g1.pins@[g0.pins@.len() + j];
            &&& g1.has_pin(p.id)
            &&& g1.spec_pin(p.id) == p
            &&& !g0.has_pin(p.id)
        } by {
            let p = g1.pins@[plen + j];
            g1.lemma_pin_idx_unique(p.id, plen + j);
            if g0.has_pin(p.id) {
                let i = g0.pin_idx(p.id);
                assert(g0.pins@[i].id.0 < g0.next_pin_id);
            }
        }
        assert(g1.node_pins_valid()) by {
            assert forall|i: int| 0 <= i < g1.nodes@.len() implies {
                let n = #[trigger] g1.nodes@[i];
                &&& (forall|k: int|
                    0 <= k < n.inputs@.len() ==> {
                        let pid = #[trigger] n.inputs@[k];
                        &&& g1.has_pin(pid)
                        &&& g1.spec_pin(pid).node == n.id
                        &&& g1.spec_pin(pid).kind == PinKind::Input
                    })
                &&& (forall|k: int|
                    0 <= k < n.outputs@.len() ==> {
                        let pid = #[trigger] n.outputs@[k];
                        &&& g1.has_pin(pid)
                        &&& g1.spec_pin(pid).node == n.id
                        &&& g1.spec_pin(pid).kind == PinKind::Output
                    })
                &&& (forall|k: int, l: int|
                    0 <= k < l < n.inputs@.len() ==> n.inputs@[k] != n.inputs@[l])
                &&& (forall|k: int, l: int|
                    0 <= k < l < n.outputs@.len() ==> n.outputs@[k] != n.outputs@[l])
            } by {
                if i < nlen {
                    assert(g1.nodes@[i] == g0.nodes@[i]);
                    let n = g1.nodes@[i];
                    assert forall|k: int| 0 <= k < n.inputs@.len() implies {
                        let pid = #[trigger] n.inputs@[k];
                        &&& g1.has_pin(pid)
                        &&& g1.spec_pin(pid).node == n.id
                        &&& g1.spec_pin(pid).kind == PinKind::Input
                    } by {
                        assert(g0.has_pin(n.inputs@[k]));
                    }
                    assert forall|k: int| 0 <= k < n.outputs@.len() implies {
                        let pid = #[trigger] n.outputs@[k];
                        &&& g1.has_pin(pid)
                        &&& g1.spec_pin(pid).node == n.id
                        &&& g1.spec_pin(pid).kind == PinKind::Output
                    } by {
                        assert(g0.has_pin(n.outputs@[k]));
                    }
                } else {
                    let n = g1.nodes@[i];
                    assert(n == nn);
                    assert forall|k: int| 0 <= k < n.inputs@.len() implies {
                        let pid = #[trigger] n.inputs@[k];
                        &&& g1.has_pin(pid)
                        &&& g1.spec_pin(pid).node == n.id
                        &&& g1.spec_pin(pid).kind == PinKind::Input
                    } by {
                        let p = g1.pins@[g0.pins@.len() + k];
                        assert(p.id == n.inputs@[k]);
                        assert(g1.pins@[g0.pins@.len() + k] == p);
                        assert(g1.spec_pin(p.id) == p);
                    }
                    assert forall|k: int| 0 <= k < n.outputs@.len() implies {
                        let pid = #[trigger] n.outputs@[k];
                        &&& g1.has_pin(pid)
                        &&& g1.spec_pin(pid).node == n.id
                        &&& g1.spec_pin(pid).kind == PinKind::Output
                    } by {
                        let p = g1.pins@[g0.pins@.len() + n_in + k];
                        assert(p.id == n.outputs@[k]);
                        assert(g1.pins@[g0.pins@.len() + (n_in + k)] == p);
                        assert(g1.spec_pin(p.id) == p);
                    }
                    assert forall|k: int, l: int| 0 <= k < l < n.inputs@.len() implies n.inputs@[k]
                        != n.inputs@[l] by {
                        assert(g1.pins@[g0.pins@.len() + k].id == n.inputs@[k]);
                        assert(g1.pins@[g0.pins@.len() + l].id == n.inputs@[l]);
                    }
                    assert forall|k: int, l: int| 0 <= k < l < n.outputs@.len() implies n
                        .outputs@[k] != n.outputs@[l] by {
                        assert(g1.pins@[g0.pins@.len() + n_in + k].id == n.outputs@[k]);
                        assert(g1.pins@[g0.pins@.len() + n_in + l].id == n.outputs@[l]);
                    }
                }
            }
        }
        assert(g1.pins_owned()) by {
            assert forall|i: int| 0 <= i < g1.pins@.len() implies {
                let p = #[trigger] g1.pins@[i];
                &&& g1.has_node(p.node)
                &&& if p.kind == PinKind::Input {
                    g1.spec_node(p.node).inputs@.contains(p.id)
                } else {
                    g1.spec_node(p.node).outputs@.contains(p.id)
                }
            } by {
                if i < plen {
                    assert(g1.pins@[i] == g0.pins@[i]);
                    let p = g1.pins@[i];
                    assert(g0.has_node(p.node));
                    assert(g1.spec_node(p.node) == g0.spec_node(p.node));
                } else {
                    let j = i - plen;
                    let p = g1.pins@[plen + j];
                    assert(p.node == node_id);
                    assert(g1.spec_node(node_id) == nn);
                    if j < n_in {
                        assert(g1.pins@[g0.pins@.len() + j].id == nn.inputs@[j]);
                        assert(g1.pins@[g0.pins@.len() + j].kind == PinKind::Input);
                        assert(nn.inputs@[j] == p.id);
                        assert(nn.inputs@.contains(p.id));
                    } else {
                        let jo = j - n_in;
                        assert(g1.pins@[g0.pins@.len() + n_in + jo].id == nn.outputs@[jo]);
                        assert(g1.pins@[g0.pins@.len() + n_in + jo].kind == PinKind::Output);
                        assert(nn.outputs@[jo] == p.id);
                        assert(nn.outputs@.contains(p.id));
                    }
                }
            }
        }
        assert(g1.links_valid()) by {
            assert forall|i: int| 0 <= i < g1.links@.len() implies {
                let l = #[trigger] g1.links@[i];
                &&& g1.has_pin(l.from)
                &&& g1.has_pin(l.to)
                &&& g1.spec_pin(l.from).kind == PinKind::Output
                &&& g1.spec_pin(l.to).kind == PinKind::Input
                &&& g1.spec_pin(l.from).pin_type == g1.spec_pin(l.to).pin_type
            } by {
                assert(g0.links@[i] == g1.links@[i]);
                let l = g1.links@[i];
                assert(g0.has_pin(l.from));
                assert(g0.has_pin(l.to));
            }
        }
        assert(g1.params_wf()) by {
            assert forall|i: int| 0 <= i < g1.nodes@.len() implies (#[trigger] g1.nodes@[i]).params
                .wf() by {
                if i < nlen {
                    assert(g1.nodes@[i] == g0.nodes@[i]);
                }
            }
        }
        assert(g1.wf());
        assert forall|a: NodeId, b: NodeId| g1.dep_edge(a, b) == g0.dep_edge(a, b) by {
            if g0.dep_edge(a, b) {
                let i = choose|i: int|
                    0 <= i < g0.links@.len() && {
                        let l = #[trigger] g0.links@[i];
                        &&& g0.has_pin(l.to)
                        &&& g0.has_pin(l.from)
                        &&& g0.spec_pin(l.to).node == a
                        &&& g0.spec_pin(l.from).node == b
                    };
                assert(g1.links@[i] == g0.links@[i]);
                assert(g1.has_pin(g1.links@[i].to));
                assert(g1.spec_pin(g1.links@[i].to).node == a);
                assert(g1.spec_pin(g1.links@[i].from).node == b);
            }
            if g1.dep_edge(a, b) {
                let i = choose|i: int|
                    0 <= i < g1.links@.len() && {
                        let l = #[trigger] g1.links@[i];
                        &&& g1.has_pin(l.to)
                        &&& g1.has_pin(l.from)
                        &&& g1.spec_pin(l.to).node == a
                        &&& g1.spec_pin(l.from).node == b
                    };
                let l = g0.links@[i];
                assert(g0.has_pin(l.to));
                assert(g0.has_pin(l.from));
                assert(g1.spec_pin(l.to) == g0.spec_pin(l.to));
                assert(g1.spec_pin(l.from) == g0.spec_pin(l.from));
            }
        }
    }

    /// Creates a node and its pins from a definition and returns the fresh
    /// node id. Never fails; the id bounds in `requires` only keep the
    /// monotone id counters from wrapping.
    pub fn add_node(&mut self, def: NodeDefinition) -> (r: NodeId)
        requires
            old(self).wf(),
            old(self).next_node_id < u64::MAX,
            old(self).next_pin_id + def.inputs@.len() + def.outputs@.len() <= u64::MAX,
        ensures
            final(self).wf(),
            r == NodeId(old(self).next_node_id),
            !old(self).has_node(r),
            final(self).has_node(r),
            final(self).next_node_id == old(self).next_node_id + 1,
            final(self).next_pin_id == old(self).next_pin_id + def.inputs@.len()
                + def.outputs@.len(),
            final(self).next_link_id == old(self).next_link_id,
            final(self).links@ == old(self).links@,
            final(self).nodes@ == old(self).nodes@.push(final(self).spec_node(r)),
            // Content of the new node.
            ({
                let n = final(self).spec_node(r);
                &&& n.id == r
                &&& n.name == def.name
                &&& n.category == def.category
                &&& n.params@ == Seq::<(Seq<char>, ParamValueView)>::empty()
                &&& n.params.wf()
                &&& n.inputs@.len() == def.inputs@.len()
                &&& n.outputs@.len() == def.outputs@.len()
            }),
            // Content of the new pins.
            forall|k: int|
                0 <= k < def.inputs@.len() ==> {
                    let pid = #[trigger] final(self).spec_node(r).inputs@[k];
                    &&& final(self).has_pin(pid)
                    &&& final(self).spec_pin(pid) == (Pin {
                        id: pid,
                        node: r,
                        kind: PinKind::Input,
                        pin_type: def.inputs@[k].pin_type,
                        name: def.inputs@[k].name,
                    })
                    &&& !old(self).has_pin(pid)
                },
            forall|k: int|
                0 <= k < def.outputs@.len() ==> {
                    let pid = #[trigger] final(self).spec_node(r).outputs@[k];
                    &&& final(self).has_pin(pid)
                    &&& final(self).spec_pin(pid) == (Pin {
                        id: pid,
                        node: r,
                        kind: PinKind::Output,
                        pin_type: def.outputs@[k].pin_type,
                        name: def.outputs@[k].name,
                    })
                    &&& !old(self).has_pin(pid)
                },
            // Frame: everything that existed is untouched.
            forall|id: NodeId|
                #[trigger] old(self).has_node(id) ==> final(self).has_node(id)
                    && final(self).spec_node(id) == old(self).spec_node(id),
            forall|id: NodeId|
                #[trigger] final(self).has_node(id) ==> old(self).has_node(id) || id == r,
            forall|pid: PinId|
                #[trigger] old(self).has_pin(pid) ==> final(self).has_pin(pid)
                    && final(self).spec_pin(pid) == old(self).spec_pin(pid),
            forall|a: NodeId, b: NodeId| final(self).dep_edge(a, b) == old(self).dep_edge(a, b),
    {
        let ghost g0 = *self;
        let node_id = NodeId(self.next_node_id);
        self.next_node_id = self.next_node_id + 1;

        let n_in = def.inputs.len();
        let mut input_ids: Vec<PinId> = Vec::new();
        let mut k: usize = 0;
        while k < n_in
            invariant
                g0.wf(),
                n_in == def.inputs@.len(),
                g0.next_pin_id + def.inputs@.len() + def.outputs@.len() <= u64::MAX,
                node_id.0 == g0.next_node_id,
                g0.next_node_id < u64::MAX,
                self.nodes@ == g0.nodes@,
                self.links@ == g0.links@,
                self.next_node_id == g0.next_node_id + 1,
                self.next_link_id == g0.next_link_id,
                0 <= k <= n_in,
                input_ids@.len() == k,
                self.next_pin_id == g0.next_pin_id + k,
                self.pins@.len() == g0.pins@.len() + k,
                forall|j: int| 0 <= j < g0.pins@.len() ==> self.pins@[j] == g0.pins@[j],
                forall|j: int|
                    0 <= j < k ==> #[trigger] input_ids@[j] == PinId((g0.next_pin_id + j) as u64),
                forall|j: int|
                    0 <= j < k ==> #[trigger] self.pins@[g0.pins@.len() + j] == (Pin {
                        id: input_ids@[j],
                        node: node_id,
                        kind: PinKind::Input,
                        pin_type: def.inputs@[j].pin_type,
                        name: def.inputs@[j].name,
                    }),
            decreases n_in - k,
        {
            let pid = PinId(self.next_pin_id);
            self.next_pin_id = self.next_pin_id + 1;
            self.pins.push(
                Pin {
                    id: pid,
                    node: node_id,
                    kind: PinKind::Input,
                    pin_type: def.inputs[k].pin_type,
                    name: def.inputs[k].name.clone(),
                },
            );
            input_ids.push(pid);
            k += 1;
        }

        let n_out = def.outputs.len();
        let mut output_ids: Vec<PinId> = Vec::new();
        let mut m: usize = 0;
        while m < n_out
            invariant
                g0.wf(),
                n_in == def.inputs@.len(),
                n_out == def.outputs@.len(),
                g0.next_pin_id + def.inputs@.len() + def.outputs@.len() <= u64::MAX,
                node_id.0 == g0.next_node_id,
                g0.next_node_id < u64::MAX,
                self.nodes@ == g0.nodes@,
                self.links@ == g0.links@,
                self.next_node_id == g0.next_node_id + 1,
                self.next_link_id == g0.next_link_id,
                0 <= m <= n_out,
                input_ids@.len() == n_in,
                output_ids@.len() == m,
                self.next_pin_id == g0.next_pin_id + n_in + m,
                self.pins@.len() == g0.pins@.len() + n_in + m,
                forall|j: int| 0 <= j < g0.pins@.len() ==> self.pins@[j] == g0.pins@[j],
                forall|j: int|
                    0 <= j < n_in ==> #[trigger] input_ids@[j] == PinId(
                        (g0.next_pin_id + j) as u64,
                    ),
                forall|j: int|
                    0 <= j < n_in ==> #[trigger] self.pins@[g0.pins@.len() + j] == (Pin {
                        id: input_ids@[j],
                        node: node_id,
                        kind: PinKind::Input,
                        pin_type: def.inputs@[j].pin_type,
                        name: def.inputs@[j].name,
                    }),
                forall|j: int|
                    0 <= j < m ==> #[trigger] output_ids@[j] == PinId(
                        (g0.next_pin_id + n_in + j) as u64,
                    ),
                forall|j: int|
                    0 <= j < m ==> #[trigger] self.pins@[g0.pins@.len() + n_in + j] == (Pin {
                        id: output_ids@[j],
                        node: node_id,
                        kind: PinKind::Output,
                        pin_type: def.outputs@[j].pin_type,
                        name: def.outputs@[j].name,
                    }),
            decreases n_out - m,
        {
            let pid = PinId(self.next_pin_id);
            self.next_pin_id = self.next_pin_id + 1;
            self.pins.push(
                Pin {
                    id: pid,
                    node: node_id,
                    kind: PinKind::Output,
                    pin_type: def.outputs[m].pin_type,
                    name: def.outputs[m].name.clone(),
                },
            );
            output_ids.push(pid);
            m += 1;
        }

        let ghost input_ids_view = input_ids@;
        let ghost output_ids_view = output_ids@;
        let new_node = Node {
            id: node_id,
            name: def.name,
            category: def.category,
            inputs: input_ids,
            outputs: output_ids,
            params: NodeParams::new(),
        };
        self.nodes.push(new_node);

        proof {
            let g1 = *self;
            let nlen = g0.nodes@.len() as int;
            let plen = g0.pins@.len() as int;
            let nn = g1.nodes@[nlen];
            assert(nn.inputs@ == input_ids_view);
            assert(nn.outputs@ == output_ids_view);
            assert forall|j: int| 0 <= j < n_in implies {
                let p = #[trigger] g1.pins@[g0.pins@.len() + j];
                &&& p.id == nn.inputs@[j]
                &&& p.id.0 == g0.next_pin_id + j
                &&& p.node == node_id
                &&& p.kind == PinKind::Input
            } by {
                assert(g1.pins@[g0.pins@.len() + j] == (Pin {
                    id: input_ids_view[j],
                    node: node_id,
                    kind: PinKind::Input,
                    pin_type: def.inputs@[j].pin_type,
                    name: def.inputs@[j].name,
                }));
                assert(input_ids_view[j] == PinId((g0.next_pin_id + j) as u64));
            }
            assert forall|j: int| 0 <= j < n_out implies {
                let p = #[trigger] g1.pins@[g0.pins@.len() + n_in + j];
                &&& p.id == nn.outputs@[j]
                &&& p.id.0 == g0.next_pin_id + n_in + j
                &&& p.node == node_id
                &&& p.kind == PinKind::Output
            } by {
                assert(g1.pins@[g0.pins@.len() + n_in + j] == (Pin {
                    id: output_ids_view[j],
                    node: node_id,
                    kind: PinKind::Output,
                    pin_type: def.outputs@[j].pin_type,
                    name: def.outputs@[j].name,
                }));
                assert(output_ids_view[j] == PinId((g0.next_pin_id + n_in + j) as u64));
            }
            Self::lemma_add_node(g0, g1, node_id, n_in as int, n_out as int);
            assert(g1.nodes@ =~= g0.nodes@.push(g1.spec_node(node_id)));
            assert forall|k2: int| 0 <= k2 < def.inputs@.len() implies {
                let pid = #[trigger] g1.spec_node(node_id).inputs@[k2];
                &&& g1.has_pin(pid)
                &&& g1.spec_pin(pid) == (Pin {
                    id: pid,
                    node: node_id,
                    kind: PinKind::Input,
                    pin_type: def.inputs@[k2].pin_type,
                    name: def.inputs@[k2].name,
                })
                &&& !g0.has_pin(pid)
            } by {
                let p = g1.pins@[g0.pins@.len() + k2];
                assert(g1.has_pin(p.id) && g1.spec_pin(p.id) == p && !g0.has_pin(p.id));
                assert(p.id == nn.inputs@[k2]);
                assert(p == (Pin {
                    id: input_ids_view[k2],
                    node: node_id,
                    kind: PinKind::Input,
                    pin_type: def.inputs@[k2].pin_type,
                    name: def.inputs@[k2].name,
                }));
            }
            assert forall|k2: int| 0 <= k2 < def.outputs@.len() implies {
                let pid = #[trigger] g1.spec_node(node_id).outputs@[k2];
                &&& g1.has_pin(pid)
                &&& g1.spec_pin(pid) == (Pin {
                    id: pid,
                    node: node_id,
                    kind: PinKind::Output,
                    pin_type: def.outputs@[k2].pin_type,
                    name: def.outputs@[k2].name,
                })
                &&& !g0.has_pin(pid)
            } by {
                let p = g1.pins@[g0.pins@.len() + (n_in + k2)];
                assert(g1.has_pin(p.id) && g1.spec_pin(p.id) == p && !g0.has_pin(p.id));
                assert(g1.pins@[g0.pins@.len() + n_in + k2].id == nn.outputs@[k2]);
                assert(p == (Pin {
                    id: output_ids_view[k2],
                    node: node_id,
                    kind: PinKind::Output,
                    pin_type: def.outputs@[k2].pin_type,
                    name: def.outputs@[k2].name,
                }));
            }
        }
        node_id
    }

    /// Sets (inserting or overwriting) one parameter on a node. Fails only
    /// when the node does not exist; the value itself is never validated
    /// here — compute functions are responsible for interpreting it.
    pub fn set_param(&mut self, node: NodeId, key: String, value: ParamValue) -> (r: Result<
        (),
        GraphError,
    >)
        requires
            old(self).wf(),
        ensures
            final(self).wf(),
            !old(self).has_node(node) ==> r == Err::<(), GraphError>(GraphError::UnknownNode(node))
                && *final(self) == *old(self),
            old(self).has_node(node) ==> r == Ok::<(), GraphError>(()),
            final(self).pins@ == old(self).pins@,
            final(self).links@ == old(self).links@,
            final(self).next_node_id == old(self).next_node_id,
            final(self).next_pin_id == old(self).next_pin_id,
            final(self).next_link_id == old(self).next_link_id,
            final(self).nodes@.len() == old(self).nodes@.len(),
            forall|id: NodeId| final(self).has_node(id) == old(self).has_node(id),
            forall|id: NodeId|
                #[trigger] old(self).has_node(id) && id != node ==> final(self).spec_node(id)
                    == old(self).spec_node(id),
            old(self).has_node(node) ==> {
                let n0 = old(self).spec_node(node);
                let n1 = final(self).spec_node(node);
                &&& n1.id == n0.id
                &&& n1.name == n0.name
                &&& n1.category == n0.category
                &&& n1.inputs == n0.inputs
                &&& n1.outputs == n0.outputs
                &&& n1.params.wf()
                &&& param_seq_get(n1.params@, key@) == Some(value@)
                &&& (forall|k: Seq<char>|
                    k != key@ ==> param_seq_get(n1.params@, k) == param_seq_get(n0.params@, k))
                &&& ((exists|i: int|
                    0 <= i < n0.params@.len() && n0.params@[i].0 == key@ && n1.params@
                        == n0.params@.update(i, (key@, value@))) || (!param_seq_has_key(
                    n0.params@,
                    key@,
                ) && n1.params@ == n0.params@.push((key@, value@))))
            },
    {
        let idx_opt = self.node_index(node);
        match idx_opt {
            None => Err(GraphError::UnknownNode(node)),
            Some(i) => {
                let ghost g0 = *self;
                proof {
                    g0.lemma_node_idx_unique(node, i as int);
                }
                let mut tmp = Node {
                    id: NodeId(0),
                    name: String::new(),
                    category: String::new(),
                    inputs: Vec::new(),
                    outputs: Vec::new(),
                    params: NodeParams::new(),
                };
                self.nodes.set_and_swap(i, &mut tmp);
                tmp.params.insert(key, value);
                self.nodes.set_and_swap(i, &mut tmp);
                proof {
                    let g1 = *self;
                    let idx = i as int;
                    let n0 = g0.nodes@[idx];
                    let n1 = g1.nodes@[idx];
                    assert(g1.nodes@ =~= g0.nodes@.update(idx, n1));
                    assert(n1.id == n0.id);
                    assert(n1.name == n0.name);
                    assert(n1.inputs == n0.inputs);
                    assert(n1.outputs == n0.outputs);
                    assert(g1.node_ids_unique()) by {
                        assert(forall|m: int|
                            0 <= m < g0.nodes@.len() ==> g1.nodes@[m].id == g0.nodes@[m].id);
                    }
                    g1.lemma_node_idx_unique(node, idx);
                    assert forall|id: NodeId| g1.has_node(id) == g0.has_node(id) by {
                        if g0.has_node(id) {
                            let j = g0.node_idx(id);
                            assert(g1.nodes@[j].id == id);
                        }
                        if g1.has_node(id) {
                            let j = g1.node_idx(id);
                            assert(g0.nodes@[j].id == id);
                        }
                    }
                    assert forall|id: NodeId|
                        #[trigger] g0.has_node(id) && id != node implies g1.spec_node(id)
                        == g0.spec_node(id) by {
                        let j = g0.node_idx(id);
                        assert(g0.nodes@[j].id == id);
                        assert(j != idx);
                        assert(g1.nodes@[j] == g0.nodes@[j]);
                        g1.lemma_node_idx_unique(id, j);
                    }
                    Self::lemma_pin_frame(g0, g1);
                    assert(g1.node_pins_valid()) by {
                        assert forall|m: int| 0 <= m < g1.nodes@.len() implies {
                            let n = #[trigger] g1.nodes@[m];
                            &&& (forall|k2: int|
                                0 <= k2 < n.inputs@.len() ==> {
                                    let pid = #[trigger] n.inputs@[k2];
                                    &&& g1.has_pin(pid)
                                    &&& g1.spec_pin(pid).node == n.id
                                    &&& g1.spec_pin(pid).kind == PinKind::Input
                                })
                            &&& (forall|k2: int|
                                0 <= k2 < n.outputs@.len() ==> {
                                    let pid = #[trigger] n.outputs@[k2];
                                    &&& g1.has_pin(pid)
                                    &&& g1.spec_pin(pid).node == n.id
                                    &&& g1.spec_pin(pid).kind == PinKind::Output
                                })
                            &&& (forall|k2: int, l: int|
                                0 <= k2 < l < n.inputs@.len() ==> n.inputs@[k2] != n.inputs@[l])
                            &&& (forall|k2: int, l: int|
                                0 <= k2 < l < n.outputs@.len() ==> n.outputs@[k2] != n.outputs@[l])
                        } by {
                            let nref = if m == idx {
                                n0
                            } else {
                                g0.nodes@[m]
                            };
                            assert(g0.nodes@[m] == nref);
                            let n = g1.nodes@[m];
                            assert(n.inputs == nref.inputs);
                            assert(n.outputs == nref.outputs);
                            assert(n.id == nref.id);
                            assert forall|k2: int| 0 <= k2 < n.inputs@.len() implies {
                                let pid = #[trigger] n.inputs@[k2];
                                &&& g1.has_pin(pid)
                                &&& g1.spec_pin(pid).node == n.id
                                &&& g1.spec_pin(pid).kind == PinKind::Input
                            } by {
                                assert(g0.has_pin(n.inputs@[k2]));
                            }
                            assert forall|k2: int| 0 <= k2 < n.outputs@.len() implies {
                                let pid = #[trigger] n.outputs@[k2];
                                &&& g1.has_pin(pid)
                                &&& g1.spec_pin(pid).node == n.id
                                &&& g1.spec_pin(pid).kind == PinKind::Output
                            } by {
                                assert(g0.has_pin(n.outputs@[k2]));
                            }
                        }
                    }
                    assert(g1.pins_owned()) by {
                        assert forall|m: int| 0 <= m < g1.pins@.len() implies {
                            let p = #[trigger] g1.pins@[m];
                            &&& g1.has_node(p.node)
                            &&& if p.kind == PinKind::Input {
                                g1.spec_node(p.node).inputs@.contains(p.id)
                            } else {
                                g1.spec_node(p.node).outputs@.contains(p.id)
                            }
                        } by {
                            let p = g1.pins@[m];
                            assert(g0.pins@[m] == p);
                            assert(g0.has_node(p.node));
                            if p.node == node {
                                assert(g1.spec_node(node).inputs == g0.spec_node(node).inputs);
                                assert(g1.spec_node(node).outputs == g0.spec_node(node).outputs);
                            } else {
                                assert(g1.spec_node(p.node) == g0.spec_node(p.node));
                            }
                        }
                    }
                    assert(g1.links_valid()) by {
                        assert forall|m: int| 0 <= m < g1.links@.len() implies {
                            let l = #[trigger] g1.links@[m];
                            &&& g1.has_pin(l.from)
                            &&& g1.has_pin(l.to)
                            &&& g1.spec_pin(l.from).kind == PinKind::Output
                            &&& g1.spec_pin(l.to).kind == PinKind::Input
                            &&& g1.spec_pin(l.from).pin_type == g1.spec_pin(l.to).pin_type
                        } by {
                            assert(g0.links@[m] == g1.links@[m]);
                            let l = g1.links@[m];
                            assert(g0.has_pin(l.from));
                            assert(g0.has_pin(l.to));
                        }
                    }
                    assert(g1.params_wf()) by {
                        assert forall|m: int| 0 <= m < g1.nodes@.len() implies (#[trigger] g1.nodes@[m])
                            .params.wf() by {
                            if m != idx {
                                assert(g1.nodes@[m] == g0.nodes@[m]);
                            }
                        }
                    }
                    assert(g1.wf());
                }
                Ok(())
            },
        }
    }
}

impl Graph {
    // ----- upstream traversal -----

    /// The node, if any, that feeds the input pin `pin` through its unique
    /// incoming link.
    pub open spec fn incoming_src(self, pin: PinId) -> Option<NodeId> {
        if exists|i: int| 0 <= i < self.links@.len() && (#[trigger] self.links@[i]).to == pin {
            let i = choose|i: int|
                0 <= i < self.links@.len() && (#[trigger] self.links@[i]).to == pin;
            Some(self.spec_pin(self.links@[i].from).node)
        } else {
            None
        }
    }

    /// Sources feeding the given input pins, in pin order, first occurrence
    /// kept.
    pub open spec fn upstream_of_pins(self, pins: Seq<PinId>) -> Seq<NodeId>
        decreases pins.len(),
    {
        if pins.len() == 0 {
            Seq::empty()
        } else {
            let prefix = self.upstream_of_pins(pins.drop_last());
            match self.incoming_src(pins.last()) {
                Some(src) => if prefix.contains(src) {
                    prefix
                } else {
                    prefix.push(src)
                },
                None => prefix,
            }
        }
    }

    /// The distinct nodes feeding directly into `n`, in input-pin order.
    pub open spec fn upstream_seq(self, n: NodeId) -> Seq<NodeId> {
        self.upstream_of_pins(self.spec_node(n).inputs@)
    }

    /// The upstream list is duplicate-free and holds exactly the sources of
    /// the given pins.
    pub proof fn lemma_upstream_of_pins_props(self, pins: Seq<PinId>)
        ensures
            self.upstream_of_pins(pins).no_duplicates(),
            forall|m: NodeId|
                self.upstream_of_pins(pins).contains(m) <==> exists|k: int|
                    0 <= k < pins.len() && self.incoming_src(#[trigger] pins[k]) == Some(m),
        decreases pins.len(),
    {
        if pins.len() > 0 {
            self.lemma_upstream_of_pins_props(pins.drop_last());
            let prefix = self.upstream_of_pins(pins.drop_last());
            let full = self.upstream_of_pins(pins);
            assert forall|m: NodeId| full.contains(m) implies exists|k: int|
                0 <= k < pins.len() && self.incoming_src(#[trigger] pins[k]) == Some(m) by {
                if prefix.contains(m) {
                    let k = choose|k: int|
                        0 <= k < pins.drop_last().len() && self.incoming_src(
                            #[trigger] pins.drop_last()[k],
                        ) == Some(m);
                    assert(pins[k] == pins.drop_last()[k]);
                    assert(self.incoming_src(pins[k]) == Some(m));
                } else {
                    assert(self.incoming_src(pins[pins.len() - 1]) == Some(m));
                }
            }
            assert forall|m: NodeId|
                (exists|k: int|
                    0 <= k < pins.len() && self.incoming_src(#[trigger] pins[k]) == Some(
                        m,
                    )) implies full.contains(m) by {
                let k = choose|k: int|
                    0 <= k < pins.len() && self.incoming_src(#[trigger] pins[k]) == Some(m);
                if k < pins.len() - 1 {
                    assert(pins.drop_last()[k] == pins[k]);
                    assert(prefix.contains(m));
                    if self.incoming_src(pins.last()) is Some {
                        let src = self.incoming_src(pins.last())->0;
                        if !prefix.contains(src) {
                            assert(full == prefix.push(src));
                            assert(full[prefix.index_of(m)] == m);
                        }
                    }
                } else {
                    match self.incoming_src(pins.last()) {
                        Some(src) => {
                            assert(src == m);
                            if prefix.contains(m) {
                            } else {
                                assert(full == prefix.push(m));
                                assert(full.last() == m);
                            }
                        },
                        None => {
                            assert(false);
                        },
                    }
                }
            }
            match self.incoming_src(pins.last()) {
                Some(src) => {
                    if !prefix.contains(src) {
                        assert(full == prefix.push(src));
                        assert forall|i: int, j: int| 0 <= i < j < full.len() implies full[i]
                            != full[j] by {
                            if j < full.len() - 1 {
                                assert(full[i] == prefix[i] && full[j] == prefix[j]);
                            } else {
                                assert(full[j] == src);
                                assert(full[i] == prefix[i]);
                                assert(prefix.contains(prefix[i]));
                            }
                        }
                    }
                },
                None => {},
            }
        }
    }

    /// Under the graph invariant, the upstream list of a live node holds
    /// exactly its direct dependencies.
    pub proof fn lemma_upstream_seq_iff_dep(self, n: NodeId)
        requires
            self.wf(),
            self.has_node(n),
        ensures
            self.upstream_seq(n).no_duplicates(),
            forall|m: NodeId| self.upstream_seq(n).contains(m) <==> self.dep_edge(n, m),
    {
        let pins = self.spec_node(n).inputs@;
        self.lemma_upstream_of_pins_props(pins);
        let ni = self.node_idx(n);
        assert(self.nodes@[ni] == self.spec_node(n));
        assert(self.spec_node(n).id == n);
        assert forall|m: NodeId| self.upstream_seq(n).contains(m) implies self.dep_edge(n, m) by {
            let k = choose|k: int|
                0 <= k < pins.len() && self.incoming_src(#[trigger] pins[k]) == Some(m);
            let i = choose|i: int|
                0 <= i < self.links@.len() && (#[trigger] self.links@[i]).to == pins[k];
            assert(self.links@[i].to == pins[k]);
            assert(self.has_pin(self.links@[i].to));
            assert(self.spec_pin(pins[k]).node == n);
            assert(self.spec_pin(self.links@[i].from).node == m);
        }
        assert forall|m: NodeId| self.dep_edge(n, m) implies self.upstream_seq(n).contains(m) by {
            let i = choose|i: int|
                0 <= i < self.links@.len() && {
                    let l = #[trigger] self.links@[i];
                    &&& self.has_pin(l.to)
                    &&& self.has_pin(l.from)
                    &&& self.spec_pin(l.to).node == n
                    &&& self.spec_pin(l.from).node == m
                };
            let l = self.links@[i];
            let p = self.spec_pin(l.to);
            assert(p.id == l.to);
            assert(p.kind == PinKind::Input);
            assert(self.spec_node(n).inputs@.contains(p.id));
            let k = choose|k: int| 0 <= k < pins.len() && pins[k] == l.to;
            assert(self.incoming_src(pins[k]) == Some(m)) by {
                assert(0 <= i < self.links@.len() && self.links@[i].to == pins[k]);
                let j = choose|j: int|
                    0 <= j < self.links@.len() && (#[trigger] self.links@[j]).to == pins[k];
                if i != j {
                    assert(self.links@[i].to != self.links@[j].to);
                }
            }
        }
    }

    /// Whether some link ends at the given input pin; returns its position.
    pub(crate) fn find_incoming_link(&self, pin: PinId) -> (r: Option<usize>)
        ensures
            match r {
                Some(i) => i < self.links@.len() && self.links@[i as int].to == pin,
                None => forall|j: int| 0 <= j < self.links@.len() ==> self.links@[j].to != pin,
            },
    {
        let n = self.links.len();
        let mut i: usize = 0;
        while i < n
            invariant
                n == self.links@.len(),
                0 <= i <= n,
                forall|j: int| 0 <= j < i ==> self.links@[j].to != pin,
            decreases n - i,
        {
            if self.links[i].to == pin {
                return Some(i);
            }
            i += 1;
        }
        None
    }

    /// Returns the distinct set of nodes that feed directly into `node`'s
    /// inputs, in input-pin order, deduplicated.
    pub fn upstream_nodes(&self, node: NodeId) -> (r: Vec<NodeId>)
        requires
            self.wf(),
        ensures
            self.has_node(node) ==> r@ == self.upstream_seq(node),
            !self.has_node(node) ==> r@ == Seq::<NodeId>::empty(),
            r@.no_duplicates(),
            forall|m: NodeId| r@.contains(m) == self.dep_edge(node, m),
    {
        let mut result: Vec<NodeId> = Vec::new();
        let ni = match self.node_index(node) {
            Some(ni) => ni,
            None => {
                proof {
                    assert forall|m: NodeId| !self.dep_edge(node, m) by {
                        if self.dep_edge(node, m) {
                            let i = choose|i: int|
                                0 <= i < self.links@.len() && {
                                    let l = #[trigger] self.links@[i];
                                    &&& self.has_pin(l.to)
                                    &&& self.has_pin(l.from)
                                    &&& self.spec_pin(l.to).node == node
                                    &&& self.spec_pin(l.from).node == m
                                };
                            let p = self.spec_pin(self.links@[i].to);
                            let pi = self.pin_idx(self.links@[i].to);
                            assert(self.pins@[pi] == p);
                            assert(self.has_node(p.node));
                        }
                    }
                }
                return result;
            },
        };
        proof {
            self.lemma_node_idx_unique(node, ni as int);
            self.lemma_upstream_seq_iff_dep(node);
        }
        let ghost pins = self.spec_node(node).inputs@;
        let n_in = self.nodes[ni].inputs.len();
        let mut k: usize = 0;
        while k < n_in
            invariant
                self.wf(),
                self.has_node(node),
                ni < self.nodes@.len(),
                self.nodes@[ni as int] == self.spec_node(node),
                pins == self.spec_node(node).inputs@,
                n_in == pins.len(),
                0 <= k <= n_in,
                result@ == self.upstream_of_pins(pins.take(k as int)),
            decreases n_in - k,
        {
            let pid = self.nodes[ni].inputs[k];
            let ghost pins_k1 = pins.take(k as int + 1);
            proof {
                assert(pins_k1.drop_last() =~= pins.take(k as int));
                assert(pins_k1.last() == pins[k as int]);
                assert(pins[k as int] == pid);
            }
            match self.find_incoming_link(pid) {
                Some(li) => {
                    let link_from = self.links[li].from;
                    proof {
                        assert(self.incoming_src(pid) == Some(
                            self.spec_pin(self.links@[li as int].from).node,
                        )) by {
                            let j = choose|j: int|
                                0 <= j < self.links@.len() && (#[trigger] self.links@[j]).to
                                    == pid;
                            if j != li as int {
                                assert(self.links@[j].to != self.links@[li as int].to);
                            }
                        }
                        assert(self.has_pin(link_from));
                    }
                    let src = match self.pin(link_from) {
                        Some(p) => p.node,
                        None => {
                            proof {
                                assert(false);
                            }
                            node
                        },
                    };
                    let mut seen = false;
                    let rlen = result.len();
                    let mut t: usize = 0;
                    while t < rlen
                        invariant
                            rlen == result@.len(),
                            0 <= t <= rlen,
                            seen == (exists|u: int| 0 <= u < t && result@[u] == src),
                        decreases rlen - t,
                    {
                        if result[t] == src {
                            seen = true;
                            proof {
                                assert(0 <= t < t + 1 && result@[t as int] == src);
                            }
                            t = rlen;
                        } else {
                            proof {
                                if exists|u: int| 0 <= u < t + 1 && result@[u] == src {
                                    let u = choose|u: int| 0 <= u < t + 1 && result@[u] == src;
                                    assert(0 <= u < t && result@[u] == src);
                                }
                            }
                            t = t + 1;
                        }
                    }
                    proof {
                        assert(seen == result@.contains(src));
                    }
                    if !seen {
                        result.push(src);
                    }
                    proof {
                        assert(result@ == self.upstream_of_pins(pins_k1));
                    }
                },
                None => {
                    proof {
                        assert(self.incoming_src(pid) is None) by {
                            if exists|i: int|
                                0 <= i < self.links@.len() && (#[trigger] self.links@[i]).to
                                    == pid {
                                let i = choose|i: int|
                                    0 <= i < self.links@.len() && (#[trigger] self.links@[i]).to
                                        == pid;
                                assert(self.links@[i].to != pid);
                            }
                        }
                        assert(result@ == self.upstream_of_pins(pins_k1));
                    }
                },
            }
            k += 1;
        }
        proof {
            assert(pins.take(n_in as int) =~= pins);
            assert(result@ == self.upstream_seq(node));
        }
        result
    }
}

impl Default for Graph {
    /// Same as [`Graph::new`]: an empty graph.
    fn default() -> (r: Self)
        ensures
            r.wf(),
            r.nodes@.len() == 0,
            r.pins@.len() == 0,
            r.links@.len() == 0,
    {
        Graph::new()
    }
}

} // verus!
