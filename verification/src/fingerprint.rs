//! Fingerprints: the staleness summary of a node. A fingerprint captures the
//! node's kind (its name), its full parameter snapshot, and the fingerprints
//! of its direct upstream nodes in input order — so it is transitively
//! sensitive to any change upstream without re-reading unchanged ancestors.

use vstd::prelude::*;

use crate::graph::{Graph, NodeId, PinId};
use crate::params::{param_value_eq, NodeParams, ParamSeq, ParamValue};

verus! {

broadcast use vstd::seq::axiom_seq_index_decreases, vstd::std_specs::vec::axiom_vec_decreases_to_view;

/// The exact structural fingerprint of one node: kind, parameter snapshot,
/// upstream fingerprints. Compared by value; equal fingerprints mean equal
/// compute inputs.
#[derive(Debug)]
pub struct Fingerprint {
    pub kind: String,
    pub params: NodeParams,
    pub upstream: Vec<Fingerprint>,
}

/// Mathematical value of a [`Fingerprint`].
pub struct FingerprintView {
    pub kind: Seq<char>,
    pub params: ParamSeq,
    pub upstream: Seq<FingerprintView>,
}

/// Views of a sequence of fingerprints, element by element.
pub open spec fn fps_view(v: Seq<Fingerprint>) -> Seq<FingerprintView>
    decreases v,
{
    if v.len() == 0 {
        Seq::empty()
    } else {
        fps_view(v.drop_last()).push(fp_view(v.last()))
    }
}

/// Mathematical value of a fingerprint.
pub open spec fn fp_view(fp: Fingerprint) -> FingerprintView
    decreases fp,
{
    FingerprintView { kind: fp.kind@, params: fp.params@, upstream: fps_view(fp.upstream@) }
}

impl View for Fingerprint {
    type V = FingerprintView;

    open spec fn view(&self) -> FingerprintView {
        fp_view(*self)
    }
}

/// `fps_view` maps the sequence pointwise.
pub proof fn lemma_fps_view_index(v: Seq<Fingerprint>)
    ensures
        fps_view(v).len() == v.len(),
        forall|i: int| 0 <= i < v.len() ==> fps_view(v)[i] == fp_view(#[trigger] v[i]),
    decreases v.len(),
{
    if v.len() > 0 {
        lemma_fps_view_index(v.drop_last());
        assert forall|i: int| 0 <= i < v.len() implies fps_view(v)[i] == fp_view(
            #[trigger] v[i],
        ) by {
            if i < v.len() - 1 {
                assert(v.drop_last()[i] == v[i]);
                assert(fps_view(v)[i] == fps_view(v.drop_last())[i]);
            } else {
                assert(fps_view(v)[i] == fp_view(v.last()));
            }
        }
    }
}

/// A copy of a parameter value with a known relation to the original.
pub fn param_value_clone(v: &ParamValue) -> (r: ParamValue)
    ensures
        r@ == v@,
{
    match v {
        ParamValue::Float(b) => ParamValue::Float(*b),
        ParamValue::Int(i) => ParamValue::Int(*i),
        ParamValue::Bool(b) => ParamValue::Bool(*b),
        ParamValue::Vec2(a) => {
            let c = [a[0], a[1]];
            proof {
                assert(c@ =~= a@);
            }
            ParamValue::Vec2(c)
        },
        ParamValue::Vec3(a) => {
            let c = [a[0], a[1], a[2]];
            proof {
                assert(c@ =~= a@);
            }
            ParamValue::Vec3(c)
        },
        ParamValue::Text(s) => ParamValue::Text(s.clone()),
    }
}

/// A copy of a parameter store with the same mathematical value.
pub fn params_duplicate(p: &NodeParams) -> (r: NodeParams)
    ensures
        r@ == p@,
{
    let n = p.len();
    let mut values: Vec<(String, ParamValue)> = Vec::new();
    let mut i: usize = 0;
    while i < n
        invariant
            n == p@.len(),
            0 <= i <= n,
            values@.len() == i,
            forall|j: int| 0 <= j < i ==> ((#[trigger] values@[j]).0@, values@[j].1@) == p@[j],
        decreases n - i,
    {
        let entry = p.entry_at(i);
        values.push((entry.0.clone(), param_value_clone(&entry.1)));
        i += 1;
    }
    let r = NodeParams { values };
    proof {
        assert(r@ =~= p@);
    }
    r
}

/// Value-level equality of parameter snapshots.
pub fn params_eq(a: &NodeParams, b: &NodeParams) -> (r: bool)
    ensures
        r == (a@ == b@),
{
    let na = a.len();
    let nb = b.len();
    if na != nb {
        proof {
            assert(a@.len() != b@.len());
        }
        return false;
    }
    let mut i: usize = 0;
    while i < na
        invariant
            na == a@.len(),
            na == b@.len(),
            0 <= i <= na,
            forall|j: int| 0 <= j < i ==> a@[j] == b@[j],
        decreases na - i,
    {
        let ea = a.entry_at(i);
        let eb = b.entry_at(i);
        if !(ea.0 == eb.0) {
            proof {
                assert(a@[i as int].0 != b@[i as int].0);
            }
            return false;
        }
        if !param_value_eq(&ea.1, &eb.1) {
            proof {
                assert(a@[i as int].1 != b@[i as int].1);
            }
            return false;
        }
        proof {
            assert(a@[i as int] == b@[i as int]);
        }
        i += 1;
    }
    proof {
        assert(a@ =~= b@);
    }
    true
}

/// A deep copy of a fingerprint with the same mathematical value.
pub fn fp_duplicate(a: &Fingerprint) -> (r: Fingerprint)
    ensures
        r@ == a@,
    decreases *a,
{
    let n = a.upstream.len();
    let mut upstream: Vec<Fingerprint> = Vec::new();
    let mut i: usize = 0;
    while i < n
        invariant
            n == a.upstream@.len(),
            0 <= i <= n,
            upstream@.len() == i,
            forall|j: int| 0 <= j < i ==> fp_view(#[trigger] upstream@[j]) == fp_view(
                a.upstream@[j],
            ),
        decreases n - i,
    {
        upstream.push(fp_duplicate(&a.upstream[i]));
        i += 1;
    }
    let r = Fingerprint { kind: a.kind.clone(), params: params_duplicate(&a.params), upstream };
    proof {
        lemma_fps_view_index(r.upstream@);
        lemma_fps_view_index(a.upstream@);
        assert(r.upstream@.len() == a.upstream@.len());
        assert forall|j: int| 0 <= j < r.upstream@.len() implies fps_view(r.upstream@)[j]
            == fps_view(a.upstream@)[j] by {
            assert(fp_view(r.upstream@[j]) == fp_view(a.upstream@[j]));
        }
        assert(fps_view(r.upstream@) =~= fps_view(a.upstream@));
        assert(r@ == a@);
    }
    r
}

/// Structural equality of fingerprints.
pub fn fp_eq(a: &Fingerprint, b: &Fingerprint) -> (r: bool)
    ensures
        r == (a@ == b@),
    decreases *a,
{
    proof {
        lemma_fps_view_index(a.upstream@);
        lemma_fps_view_index(b.upstream@);
    }
    if !(a.kind == b.kind) {
        proof {
            assert(a@.kind != b@.kind);
        }
        return false;
    }
    if !params_eq(&a.params, &b.params) {
        proof {
            assert(a@.params != b@.params);
        }
        return false;
    }
    let na = a.upstream.len();
    let nb = b.upstream.len();
    if na != nb {
        proof {
            assert(a@.upstream.len() != b@.upstream.len());
        }
        return false;
    }
    let mut i: usize = 0;
    while i < na
        invariant
            na == a.upstream@.len(),
            na == b.upstream@.len(),
            a@.kind == b@.kind,
            a@.params == b@.params,
            a@.upstream.len() == na,
            b@.upstream.len() == na,
            forall|j: int|
                0 <= j < na ==> a@.upstream[j] == fp_view(#[trigger] a.upstream@[j])
                    && b@.upstream[j] == fp_view(#[trigger] b.upstream@[j]),
            0 <= i <= na,
            forall|j: int| 0 <= j < i ==> a@.upstream[j] == b@.upstream[j],
        decreases na - i,
    {
        proof {
            lemma_fps_view_index(a.upstream@);
            lemma_fps_view_index(b.upstream@);
        }
        if !fp_eq(&a.upstream[i], &b.upstream[i]) {
            proof {
                assert(a@.upstream[i as int] != b@.upstream[i as int]);
            }
            return false;
        }
        proof {
            assert(a@.upstream[i as int] == b@.upstream[i as int]);
        }
        i += 1;
    }
    proof {
        assert(a@.upstream =~= b@.upstream);
        assert(a@ == b@);
    }
    true
}

/// The fingerprint a node ought to have, with bounded unfolding depth. On
/// an acyclic graph any depth at least the longest dependency chain gives
/// the same value; `spec_fp` fixes the depth at the node count.
pub open spec fn fp_rec(g: Graph, n: NodeId, fuel: nat) -> FingerprintView
    decreases fuel,
{
    FingerprintView {
        kind: g.spec_node(n).name@,
        params: g.spec_node(n).params@,
        upstream: if fuel == 0 {
            Seq::empty()
        } else {
            Seq::new(
                g.upstream_seq(n).len(),
                |i: int| fp_rec(g, g.upstream_seq(n)[i], (fuel - 1) as nat),
            )
        },
    }
}

/// The canonical fingerprint of a node in a graph.
pub open spec fn spec_fp(g: Graph, n: NodeId) -> FingerprintView {
    fp_rec(g, n, g.nodes@.len() as nat)
}

/// Fuel does not matter once it exceeds a node's position in a dependency
/// order.
pub proof fn lemma_fp_fuel(g: Graph, order: Seq<NodeId>, i: int, f1: nat, f2: nat)
    requires
        g.wf(),
        order.no_duplicates(),
        forall|x: int| 0 <= x < order.len() ==> g.has_node(#[trigger] order[x]),
        forall|x: int, m: NodeId|
            0 <= x < order.len() && #[trigger] g.dep_edge(order[x], m) ==> exists|j: int|
                0 <= j < x && order[j] == m,
        0 <= i < order.len(),
        f1 > i,
        f2 > i,
    ensures
        fp_rec(g, order[i], f1) == fp_rec(g, order[i], f2),
    decreases i,
{
    let n = order[i];
    g.lemma_upstream_seq_iff_dep(n);
    let ups = g.upstream_seq(n);
    assert forall|k: int| 0 <= k < ups.len() implies fp_rec(g, ups[k], (f1 - 1) as nat) == fp_rec(
        g,
        ups[k],
        (f2 - 1) as nat,
    ) by {
        assert(ups.contains(ups[k]));
        assert(g.dep_edge(n, ups[k]));
        let j = choose|j: int| 0 <= j < i && order[j] == ups[k];
        lemma_fp_fuel(g, order, j, (f1 - 1) as nat, (f2 - 1) as nat);
    }
    assert(fp_rec(g, n, f1).upstream =~= fp_rec(g, n, f2).upstream);
    assert(fp_rec(g, n, f1) == fp_rec(g, n, f2));
}

/// Unfolds the canonical fingerprint of a node placed in a dependency
/// order: it is built from its kind, parameters and the canonical
/// fingerprints of its direct upstream nodes.
pub proof fn lemma_spec_fp_unfold(g: Graph, order: Seq<NodeId>, i: int)
    requires
        g.wf(),
        order.no_duplicates(),
        forall|x: int| 0 <= x < order.len() ==> g.has_node(#[trigger] order[x]),
        forall|x: int, m: NodeId|
            0 <= x < order.len() && #[trigger] g.dep_edge(order[x], m) ==> exists|j: int|
                0 <= j < x && order[j] == m,
        0 <= i < order.len(),
    ensures
        ({
            let n = order[i];
            let ups = g.upstream_seq(n);
            spec_fp(g, n) == (FingerprintView {
                kind: g.spec_node(n).name@,
                params: g.spec_node(n).params@,
                upstream: Seq::new(ups.len(), |k: int| spec_fp(g, ups[k])),
            })
        }),
{
    let n = order[i];
    g.lemma_distinct_nodes_bound(order);
    let nn = g.nodes@.len() as nat;
    assert(nn > i);
    g.lemma_upstream_seq_iff_dep(n);
    let ups = g.upstream_seq(n);
    assert forall|k: int| 0 <= k < ups.len() implies fp_rec(g, ups[k], (nn - 1) as nat) == spec_fp(
        g,
        ups[k],
    ) by {
        assert(ups.contains(ups[k]));
        assert(g.dep_edge(n, ups[k]));
        let j = choose|j: int| 0 <= j < i && order[j] == ups[k];
        lemma_fp_fuel(g, order, j, (nn - 1) as nat, nn);
    }
    assert(fp_rec(g, n, nn).upstream =~= Seq::new(ups.len(), |k: int| spec_fp(g, ups[k])));
}

/// Relation between a graph and its state after one `set_param` edit on
/// node `nid`: identical except possibly for that node's parameter store.
pub open spec fn param_edit(g0: Graph, g1: Graph, nid: NodeId) -> bool {
    &&& g0.wf()
    &&& g1.wf()
    &&& g1.pins@ == g0.pins@
    &&& g1.links@ == g0.links@
    &&& g1.nodes@.len() == g0.nodes@.len()
    &&& g0.has_node(nid)
    &&& (forall|id: NodeId| g1.has_node(id) == g0.has_node(id))
    &&& (forall|id: NodeId|
        #[trigger] g0.has_node(id) && id != nid ==> g1.spec_node(id) == g0.spec_node(id))
    &&& ({
        let n0 = g0.spec_node(nid);
        let n1 = g1.spec_node(nid);
        &&& n1.id == n0.id
        &&& n1.name == n0.name
        &&& n1.inputs == n0.inputs
        &&& n1.outputs == n0.outputs
    })
}

/// Graphs with identical pins and links resolve incoming sources and
/// upstream lists identically.
proof fn lemma_upstream_of_pins_frame(g0: Graph, g1: Graph, pins: Seq<PinId>)
    requires
        g0.pins@ == g1.pins@,
        g0.links@ == g1.links@,
        g0.pin_ids_unique(),
        g0.inputs_single(),
        g0.links_valid(),
    ensures
        g0.upstream_of_pins(pins) == g1.upstream_of_pins(pins),
    decreases pins.len(),
{
    Graph::lemma_pin_frame(g0, g1);
    if pins.len() > 0 {
        lemma_upstream_of_pins_frame(g0, g1, pins.drop_last());
        let pin = pins.last();
        assert(g0.incoming_src(pin) == g1.incoming_src(pin)) by {
            if exists|i: int| 0 <= i < g0.links@.len() && (#[trigger] g0.links@[i]).to == pin {
                let i = choose|i: int|
                    0 <= i < g0.links@.len() && (#[trigger] g0.links@[i]).to == pin;
                assert(g1.links@[i].to == pin);
                let j0 = choose|j: int|
                    0 <= j < g0.links@.len() && (#[trigger] g0.links@[j]).to == pin;
                let j1 = choose|j: int|
                    0 <= j < g1.links@.len() && (#[trigger] g1.links@[j]).to == pin;
                if j0 != j1 {
                    assert(g0.links@[j0].to != g0.links@[j1].to);
                }
                assert(g0.has_pin(g0.links@[j0].from));
                assert(g0.spec_pin(g0.links@[j0].from) == g1.spec_pin(g0.links@[j0].from));
            } else {
                assert(!(exists|i: int|
                    0 <= i < g1.links@.len() && (#[trigger] g1.links@[i]).to == pin)) by {
                    if exists|i: int|
                        0 <= i < g1.links@.len() && (#[trigger] g1.links@[i]).to == pin {
                        let i = choose|i: int|
                            0 <= i < g1.links@.len() && (#[trigger] g1.links@[i]).to == pin;
                        assert(g0.links@[i].to == pin);
                    }
                }
            }
        }
    }
}

/// After a parameter edit on `nid`, nodes that do not depend on `nid` keep
/// their fingerprints, at every unfolding depth.
proof fn lemma_fp_frame(g0: Graph, g1: Graph, nid: NodeId, n: NodeId, fuel: nat)
    requires
        param_edit(g0, g1, nid),
        g0.has_node(n),
        !g0.reaches(n, nid),
    ensures
        fp_rec(g1, n, fuel) == fp_rec(g0, n, fuel),
    decreases fuel,
{
    g0.lemma_reaches_refl(n);
    assert(n != nid);
    assert(g1.spec_node(n) == g0.spec_node(n));
    g0.lemma_upstream_seq_iff_dep(n);
    lemma_upstream_of_pins_frame(g0, g1, g0.spec_node(n).inputs@);
    assert(g1.upstream_seq(n) == g0.upstream_seq(n));
    if fuel > 0 {
        let ups = g0.upstream_seq(n);
        assert forall|k: int| 0 <= k < ups.len() implies fp_rec(g1, ups[k], (fuel - 1) as nat)
            == fp_rec(g0, ups[k], (fuel - 1) as nat) by {
            assert(ups.contains(ups[k]));
            assert(g0.dep_edge(n, ups[k]));
            g0.lemma_dep_edge_nodes(n, ups[k]);
            assert(!g0.reaches(ups[k], nid)) by {
                if g0.reaches(ups[k], nid) {
                    g0.lemma_reaches_step(n, ups[k]);
                    g0.lemma_reaches_trans(n, ups[k], nid);
                }
            }
            lemma_fp_frame(g0, g1, nid, ups[k], (fuel - 1) as nat);
        }
        assert(fp_rec(g1, n, fuel).upstream =~= fp_rec(g0, n, fuel).upstream);
    } else {
        assert(fp_rec(g1, n, fuel).upstream =~= fp_rec(g0, n, fuel).upstream);
    }
    assert(fp_rec(g1, n, fuel) == fp_rec(g0, n, fuel));
}

/// After a parameter edit on `nid` that really changed the stored values,
/// every node on a dependency path into `nid` changes its fingerprint,
/// given enough unfolding depth to see the end of the path.
proof fn lemma_fp_change(g0: Graph, g1: Graph, nid: NodeId, p: Seq<NodeId>, j: int, fuel: nat)
    requires
        param_edit(g0, g1, nid),
        g1.spec_node(nid).params@ != g0.spec_node(nid).params@,
        g0.is_dep_path(p),
        p.len() >= 1,
        p.last() == nid,
        forall|i: int| 0 <= i < p.len() ==> g0.has_node(#[trigger] p[i]),
        0 <= j < p.len(),
        fuel >= p.len() - 1 - j,
    ensures
        fp_rec(g1, p[j], fuel) != fp_rec(g0, p[j], fuel),
    decreases p.len() - j,
{
    if p[j] == nid {
        assert(fp_rec(g1, p[j], fuel).params == g1.spec_node(nid).params@);
        assert(fp_rec(g0, p[j], fuel).params == g0.spec_node(nid).params@);
    } else {
        let n = p[j];
        assert(j < p.len() - 1);
        assert(fuel >= 1);
        let u = p[j + 1];
        assert(g0.dep_edge(p[j], p[j + 1]));
        g0.lemma_upstream_seq_iff_dep(n);
        lemma_upstream_of_pins_frame(g0, g1, g0.spec_node(n).inputs@);
        assert(g1.spec_node(n) == g0.spec_node(n));
        assert(g1.upstream_seq(n) == g0.upstream_seq(n));
        let ups = g0.upstream_seq(n);
        assert(ups.contains(u));
        let k = choose|k: int| 0 <= k < ups.len() && ups[k] == u;
        lemma_fp_change(g0, g1, nid, p, j + 1, (fuel - 1) as nat);
        assert(fp_rec(g1, n, fuel).upstream[k] == fp_rec(g1, u, (fuel - 1) as nat));
        assert(fp_rec(g0, n, fuel).upstream[k] == fp_rec(g0, u, (fuel - 1) as nat));
        assert(fp_rec(g1, n, fuel).upstream != fp_rec(g0, n, fuel).upstream);
    }
}

/// Invalidation: one parameter edit on node `nid` changes the canonical
/// fingerprint of exactly `nid` and the nodes that transitively depend on
/// it; every other node keeps its fingerprint, so a fingerprint cache keeps
/// serving it.
pub proof fn lemma_invalidation(g0: Graph, g1: Graph, nid: NodeId)
    requires
        param_edit(g0, g1, nid),
        g1.spec_node(nid).params@ != g0.spec_node(nid).params@,
    ensures
        forall|n: NodeId|
            #[trigger] g0.has_node(n) ==> (spec_fp(g1, n) == spec_fp(g0, n) <==> !g0.reaches(
                n,
                nid,
            )),
{
    assert forall|n: NodeId| #[trigger] g0.has_node(n) implies (spec_fp(g1, n) == spec_fp(g0, n)
        <==> !g0.reaches(n, nid)) by {
        if g0.reaches(n, nid) {
            let p = g0.lemma_simple_path(n, nid);
            assert forall|i: int| 0 <= i < p.len() implies g0.has_node(#[trigger] p[i]) by {
                if i == p.len() - 1 {
                } else {
                    assert(g0.dep_edge(p[i], p[i + 1]));
                    g0.lemma_dep_edge_nodes(p[i], p[i + 1]);
                }
            }
            g0.lemma_distinct_nodes_bound(p);
            assert(g1.nodes@.len() == g0.nodes@.len());
            lemma_fp_change(g0, g1, nid, p, 0, g0.nodes@.len() as nat);
            assert(spec_fp(g1, n) != spec_fp(g0, n));
        } else {
            lemma_fp_frame(g0, g1, nid, n, g0.nodes@.len() as nat);
            assert(spec_fp(g1, n) == spec_fp(g0, n));
        }
    }
}

} // verus!
