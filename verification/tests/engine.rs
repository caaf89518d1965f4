//! End-to-end behavior of the graph model and the incremental evaluation
//! engine, driven through the public API with a small mesh-like payload.

use std::cell::RefCell;
use std::collections::BTreeMap;

use grapho_core::{
    builtin_kind_from_name, default_params, node_definition, BuiltinNodeKind, EvalError,
    EvalState, Graph, GraphError, NodeId, NodeParams, ParamValue, PinKind,
    evaluate_from, evaluate_from_with,
};

/// A minimal mesh stand-in: positions only.
#[derive(Clone, Debug, PartialEq)]
struct Mesh {
    positions: Vec<[f32; 3]>,
}

fn box_mesh(size: [f32; 3]) -> Mesh {
    let hx = size[0] * 0.5;
    let hy = size[1] * 0.5;
    let hz = size[2] * 0.5;
    Mesh {
        positions: vec![
            [-hx, -hy, -hz],
            [hx, -hy, -hz],
            [hx, hy, -hz],
            [-hx, hy, -hz],
            [-hx, -hy, hz],
            [hx, -hy, hz],
            [hx, hy, hz],
            [-hx, hy, hz],
        ],
    }
}

fn bounds(m: &Mesh) -> ([f32; 3], [f32; 3]) {
    let mut min = m.positions[0];
    let mut max = m.positions[0];
    for p in &m.positions {
        for a in 0..3 {
            min[a] = min[a].min(p[a]);
            max[a] = max[a].max(p[a]);
        }
    }
    (min, max)
}

fn vec3_param(params: &NodeParams, key: &str, default: [f32; 3]) -> [f32; 3] {
    match params.get(key) {
        Some(ParamValue::Vec3(bits)) => [
            f32::from_bits(bits[0]),
            f32::from_bits(bits[1]),
            f32::from_bits(bits[2]),
        ],
        _ => default,
    }
}

fn bits3(v: [f32; 3]) -> ParamValue {
    ParamValue::Vec3([v[0].to_bits(), v[1].to_bits(), v[2].to_bits()])
}

/// Builds Box -> Transform -> Output and returns (graph, ids).
fn demo_graph() -> (Graph, NodeId, NodeId, NodeId) {
    let mut g = Graph::new();
    let b = g.add_node(node_definition(BuiltinNodeKind::Box));
    let t = g.add_node(node_definition(BuiltinNodeKind::Transform));
    let o = g.add_node(node_definition(BuiltinNodeKind::Output));
    for (k, v) in default_params(BuiltinNodeKind::Box).values {
        g.set_param(b, k, v).unwrap();
    }
    for (k, v) in default_params(BuiltinNodeKind::Transform).values {
        g.set_param(t, k, v).unwrap();
    }
    let b_out = g.node(b).unwrap().outputs[0];
    let t_in = g.node(t).unwrap().inputs[0];
    let t_out = g.node(t).unwrap().outputs[0];
    let o_in = g.node(o).unwrap().inputs[0];
    g.add_link(b_out, t_in).unwrap();
    g.add_link(t_out, o_in).unwrap();
    (g, b, t, o)
}

/// Runs one mesh evaluation pass; results live in `outputs` across passes.
fn eval_mesh(
    g: &Graph,
    target: NodeId,
    state: &mut EvalState,
    outputs: &RefCell<BTreeMap<NodeId, Mesh>>,
) -> grapho_core::EvalReport {
    let compute = |node: NodeId, params: &NodeParams| -> Result<(), String> {
        let name = {
            let mut found = String::new();
            for n in g.nodes() {
                if n.id == node {
                    found = n.name.clone();
                }
            }
            found
        };
        let kind = builtin_kind_from_name(&name).ok_or_else(|| format!("unknown node type {}", name))?;
        let ups = g.upstream_nodes(node);
        let mut inputs: Vec<Mesh> = Vec::new();
        for u in &ups {
            inputs.push(
                outputs
                    .borrow()
                    .get(u)
                    .cloned()
                    .ok_or_else(|| "missing upstream output".to_string())?,
            );
        }
        let mesh = match kind {
            BuiltinNodeKind::Box => box_mesh(vec3_param(params, "size", [1.0, 1.0, 1.0])),
            BuiltinNodeKind::Transform => {
                let scale = vec3_param(params, "scale", [1.0, 1.0, 1.0]);
                let mut m = inputs
                    .get(0)
                    .cloned()
                    .ok_or_else(|| "Transform requires a mesh input".to_string())?;
                for p in &mut m.positions {
                    for a in 0..3 {
                        p[a] *= scale[a];
                    }
                }
                m
            }
            BuiltinNodeKind::Merge => {
                if inputs.is_empty() {
                    return Err("Merge requires at least one mesh input".to_string());
                }
                let mut m = Mesh { positions: Vec::new() };
                for i in &inputs {
                    m.positions.extend_from_slice(&i.positions);
                }
                m
            }
            BuiltinNodeKind::Output => inputs
                .get(0)
                .cloned()
                .ok_or_else(|| "Output requires a mesh input".to_string())?,
            _ => return Err(format!("no compute for {}", name)),
        };
        outputs.borrow_mut().insert(node, mesh);
        Ok(())
    };
    evaluate_from_with(g, target, state, compute).expect("structural evaluation error")
}

#[test]
fn scenario_box_transform_output() {
    let (mut g, b, t, o) = demo_graph();
    let mut state = EvalState::new();
    let outputs = RefCell::new(BTreeMap::new());

    // First evaluation: everything computes.
    let rep = eval_mesh(&g, o, &mut state, &outputs);
    assert!(rep.output_valid);
    assert_eq!(rep.computed.len(), 3);
    assert_eq!(rep.cache_hits, 0);
    assert_eq!(rep.cache_misses, 3);
    let (min, max) = bounds(outputs.borrow().get(&o).unwrap());
    assert_eq!(min, [-0.5, -0.5, -0.5]);
    assert_eq!(max, [0.5, 0.5, 0.5]);

    // Unchanged: everything is served from cache.
    let rep2 = eval_mesh(&g, o, &mut state, &outputs);
    assert!(rep2.output_valid);
    assert_eq!(rep2.computed.len(), 0);
    assert_eq!(rep2.cache_misses, 0);
    assert_eq!(rep2.cache_hits, 3);
    let (min2, max2) = bounds(outputs.borrow().get(&o).unwrap());
    assert_eq!((min2, max2), (min, max));

    // Changing the transform scale recomputes it and the output, not the box.
    g.set_param(t, "scale".to_string(), bits3([3.0, 3.0, 3.0])).unwrap();
    let rep3 = eval_mesh(&g, o, &mut state, &outputs);
    assert!(rep3.output_valid);
    assert_eq!(rep3.cache_hits, 1);
    assert_eq!(rep3.cache_misses, 2);
    assert!(rep3.computed.contains(&t) && rep3.computed.contains(&o));
    assert!(!rep3.computed.contains(&b));
    let (min3, max3) = bounds(outputs.borrow().get(&o).unwrap());
    assert_eq!(min3, [-1.5, -1.5, -1.5]);
    assert_eq!(max3, [1.5, 1.5, 1.5]);
}

#[test]
fn cycle_rejected_and_links_unchanged() {
    let (mut g, b, t, _o) = demo_graph();
    let before = g.links().clone();
    let t_out = g.node(t).unwrap().outputs[0];
    // No input pin on Box, so try closing a cycle through Transform itself.
    let t_in = g.node(t).unwrap().inputs[0];
    g.remove_links_for_pin(t_in);
    // b -> t removed; now t -> ... -> t would be a self cycle via its own pins
    let r = g.add_link(t_out, t_in);
    assert_eq!(r, Err(GraphError::WouldCreateCycle));
    // Rebuild the original link and check a two-node cycle.
    let b_out = g.node(b).unwrap().outputs[0];
    g.add_link(b_out, t_in).unwrap();
    let links_now = g.links().clone();
    assert_eq!(links_now.len(), before.len());
}

#[test]
fn input_connected_only_once() {
    let (mut g, _b, t, _o) = demo_graph();
    let t_in = g.node(t).unwrap().inputs[0];
    // A second producer for the already-fed input must be refused.
    let extra = g.add_node(node_definition(BuiltinNodeKind::Box));
    let extra_out = g.node(extra).unwrap().outputs[0];
    let r = g.add_link(extra_out, t_in);
    assert_eq!(r, Err(GraphError::InputAlreadyConnected(t_in)));
    // Disconnect first, then reconnect: exactly one incoming link remains.
    g.remove_links_for_pin(t_in);
    g.add_link(extra_out, t_in).unwrap();
    let incoming: Vec<_> = g.links().iter().filter(|l| l.to == t_in).collect();
    assert_eq!(incoming.len(), 1);
}

#[test]
fn error_isolation_and_propagation() {
    // A -> B -> C where A's compute fails.
    let mut g = Graph::new();
    let a = g.add_node(node_definition(BuiltinNodeKind::Box));
    let b = g.add_node(node_definition(BuiltinNodeKind::Transform));
    let c = g.add_node(node_definition(BuiltinNodeKind::Output));
    let a_out = g.node(a).unwrap().outputs[0];
    let b_in = g.node(b).unwrap().inputs[0];
    let b_out = g.node(b).unwrap().outputs[0];
    let c_in = g.node(c).unwrap().inputs[0];
    g.add_link(a_out, b_in).unwrap();
    g.add_link(b_out, c_in).unwrap();

    let mut state = EvalState::new();
    let called = RefCell::new(Vec::new());
    let compute = |node: NodeId, _params: &NodeParams| -> Result<(), String> {
        called.borrow_mut().push(node);
        if node == a {
            Err("boom".to_string())
        } else {
            Ok(())
        }
    };
    let rep = evaluate_from_with(&g, c, &mut state, compute).unwrap();
    assert!(!rep.output_valid);
    assert_eq!(rep.errors.len(), 3);
    assert_eq!(
        rep.errors[0],
        EvalError::Node { node: a, message: "boom".to_string() }
    );
    assert_eq!(rep.errors[1], EvalError::Upstream { node: b, upstream: vec![a] });
    assert_eq!(rep.errors[2], EvalError::Upstream { node: c, upstream: vec![a] });
    // B and C were never passed to the compute function.
    assert_eq!(called.borrow().clone(), vec![a]);
    // A failure is not cached: the next pass retries.
    let rep2 = evaluate_from_with(&g, c, &mut state, |n: NodeId, _p: &NodeParams| {
        if n == a { Err("boom".to_string()) } else { Ok(()) }
    })
    .unwrap();
    assert_eq!(rep2.cache_misses, 1);
}

#[test]
fn transitive_roots_reach_every_descendant() {
    // Two failing sources behind a Merge: the Merge and everything after it
    // must list both root causes, not just direct dependencies.
    let mut g = Graph::new();
    let a1 = g.add_node(node_definition(BuiltinNodeKind::Box));
    let a2 = g.add_node(node_definition(BuiltinNodeKind::Box));
    let m = g.add_node(node_definition(BuiltinNodeKind::Merge));
    let c = g.add_node(node_definition(BuiltinNodeKind::Output));
    let a1_out = g.node(a1).unwrap().outputs[0];
    let a2_out = g.node(a2).unwrap().outputs[0];
    let m_a = g.node(m).unwrap().inputs[0];
    let m_b = g.node(m).unwrap().inputs[1];
    let m_out = g.node(m).unwrap().outputs[0];
    let c_in = g.node(c).unwrap().inputs[0];
    g.add_link(a1_out, m_a).unwrap();
    g.add_link(a2_out, m_b).unwrap();
    g.add_link(m_out, c_in).unwrap();

    let mut state = EvalState::new();
    let rep = evaluate_from_with(&g, c, &mut state, |n: NodeId, _p: &NodeParams| {
        if n == a1 || n == a2 { Err("boom".to_string()) } else { Ok(()) }
    })
    .unwrap();
    assert!(!rep.output_valid);
    assert_eq!(rep.errors.len(), 4);
    for err in &rep.errors {
        if let EvalError::Upstream { node, upstream } = err {
            let mut roots = upstream.clone();
            roots.sort();
            let mut expected = vec![a1, a2];
            expected.sort();
            assert_eq!(roots, expected, "node {node:?} must list both root causes");
        }
    }
}

#[test]
fn merge_with_no_inputs_reports_node_error() {
    let mut g = Graph::new();
    let m = g.add_node(node_definition(BuiltinNodeKind::Merge));
    let mut state = EvalState::new();
    let outputs = RefCell::new(BTreeMap::new());
    let rep = eval_mesh(&g, m, &mut state, &outputs);
    assert!(!rep.output_valid);
    assert_eq!(rep.errors.len(), 1);
    match &rep.errors[0] {
        EvalError::Node { node, message } => {
            assert_eq!(*node, m);
            assert!(message.contains("Merge requires"));
        }
        other => panic!("unexpected error {:?}", other),
    }
}

#[test]
fn structural_edits_and_errors() {
    let mut g = Graph::new();
    let b = g.add_node(node_definition(BuiltinNodeKind::Box));
    let o = g.add_node(node_definition(BuiltinNodeKind::Output));
    let missing = NodeId(999);
    assert_eq!(
        g.set_param(missing, "x".to_string(), ParamValue::Int(1)),
        Err(GraphError::UnknownNode(missing))
    );
    // Wrong pin kinds are rejected.
    let b_out = g.node(b).unwrap().outputs[0];
    let o_in = g.node(o).unwrap().inputs[0];
    assert_eq!(g.add_link(o_in, b_out), Err(GraphError::WrongPinKind));
    g.add_link(b_out, o_in).unwrap();
    // Removing a node severs its pins and links.
    g.remove_node(b);
    assert!(g.node(b).is_none());
    assert_eq!(g.links().len(), 0);
    assert!(g.pin(b_out).is_none());
    // Idempotent removal.
    g.remove_node(b);
    // Pin kinds as stored.
    assert_eq!(g.node(o).unwrap().inputs.len(), 1);
    assert_eq!(g.pin(o_in).unwrap().kind, PinKind::Input);
}

#[test]
fn structural_pass_and_builtins() {
    let (g, _b, _t, o) = demo_graph();
    let mut state = EvalState::new();
    let rep = evaluate_from(&g, o, &mut state).unwrap();
    assert!(rep.output_valid);
    assert_eq!(rep.errors.len(), 0);
    assert_eq!(rep.computed.len(), 3);
    // Names round-trip through the registry.
    for kind in [
        BuiltinNodeKind::Box,
        BuiltinNodeKind::Grid,
        BuiltinNodeKind::Sphere,
        BuiltinNodeKind::Transform,
        BuiltinNodeKind::Merge,
        BuiltinNodeKind::CopyToPoints,
        BuiltinNodeKind::Output,
    ] {
        assert_eq!(builtin_kind_from_name(kind.name()), Some(kind));
    }
    assert_eq!(builtin_kind_from_name("Banana"), None);
    // Unknown target and defaults.
    assert_eq!(
        evaluate_from(&g, NodeId(424242), &mut state),
        Err(GraphError::UnknownNode(NodeId(424242)))
    );
    assert_eq!(default_params(BuiltinNodeKind::Merge).values.len(), 0);
    assert_eq!(
        grapho_core::param_int(&default_params(BuiltinNodeKind::Grid), "rows", 1),
        10
    );
}
