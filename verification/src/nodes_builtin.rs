//! The closed set of built-in node kinds: their names, pin layouts and
//! default parameters. The geometry math itself is the host's concern; the
//! engine only needs the kinds' structure.

use vstd::prelude::*;
use vstd::string::StringSliceAdditionalSpecFns;

use crate::graph::{NodeDefinition, PinDefinition, PinType};
use crate::params::{param_seq_get, NodeParams, ParamValue, ParamValueView};

verus! {

/// All node kinds the stock registry knows.
#[derive(Debug, Clone, Copy, PartialEq, Eq, Structural)]
pub enum BuiltinNodeKind {
    Box,
    Grid,
    Sphere,
    Transform,
    Merge,
    CopyToPoints,
    Output,
}

/// The registry name of a kind, as a character sequence.
pub open spec fn kind_name_view(kind: BuiltinNodeKind) -> Seq<char> {
    match kind {
        BuiltinNodeKind::Box => "Box"@,
        BuiltinNodeKind::Grid => "Grid"@,
        BuiltinNodeKind::Sphere => "Sphere"@,
        BuiltinNodeKind::Transform => "Transform"@,
        BuiltinNodeKind::Merge => "Merge"@,
        BuiltinNodeKind::CopyToPoints => "Copy to Points"@,
        BuiltinNodeKind::Output => "Output"@,
    }
}

/// The registry name of a kind, as its UTF-8 bytes.
pub open spec fn kind_name_bytes(kind: BuiltinNodeKind) -> Seq<u8> {
    match kind {
        BuiltinNodeKind::Box => "Box".spec_bytes(),
        BuiltinNodeKind::Grid => "Grid".spec_bytes(),
        BuiltinNodeKind::Sphere => "Sphere".spec_bytes(),
        BuiltinNodeKind::Transform => "Transform".spec_bytes(),
        BuiltinNodeKind::Merge => "Merge".spec_bytes(),
        BuiltinNodeKind::CopyToPoints => "Copy to Points".spec_bytes(),
        BuiltinNodeKind::Output => "Output".spec_bytes(),
    }
}

/// The seven registry names encode to pairwise distinct byte strings: six
/// of the seven lengths differ, and the two six-byte names differ in their
/// first byte.
proof fn lemma_kind_names_distinct()
    ensures
        forall|k1: BuiltinNodeKind, k2: BuiltinNodeKind|
            k1 != k2 ==> #[trigger] kind_name_bytes(k1) != #[trigger] kind_name_bytes(k2),
{
    broadcast use vstd::string::is_ascii_spec_bytes;

    reveal_strlit("Box");
    reveal_strlit("Grid");
    reveal_strlit("Sphere");
    reveal_strlit("Transform");
    reveal_strlit("Merge");
    reveal_strlit("Copy to Points");
    reveal_strlit("Output");
    assert(vstd::string::is_ascii("Box"));
    assert(vstd::string::is_ascii("Grid"));
    assert(vstd::string::is_ascii("Sphere"));
    assert(vstd::string::is_ascii("Transform"));
    assert(vstd::string::is_ascii("Merge"));
    assert(vstd::string::is_ascii("Copy to Points"));
    assert(vstd::string::is_ascii("Output"));
    assert("Box".spec_bytes().len() == 3);
    assert("Grid".spec_bytes().len() == 4);
    assert("Merge".spec_bytes().len() == 5);
    assert("Sphere".spec_bytes().len() == 6);
    assert("Output".spec_bytes().len() == 6);
    assert("Transform".spec_bytes().len() == 9);
    assert("Copy to Points".spec_bytes().len() == 14);
    assert("Sphere".spec_bytes()[0] == 'S' as u8);
    assert("Output".spec_bytes()[0] == 'O' as u8);
    assert("Sphere".spec_bytes() != "Output".spec_bytes());
}

impl BuiltinNodeKind {
    /// The display (and registry) name of the kind.
    pub fn name(self) -> (r: &'static str)
        ensures
            r@ == kind_name_view(self),
            r.spec_bytes() == kind_name_bytes(self),
    {
        match self {
            BuiltinNodeKind::Box => "Box",
            BuiltinNodeKind::Grid => "Grid",
            BuiltinNodeKind::Sphere => "Sphere",
            BuiltinNodeKind::Transform => "Transform",
            BuiltinNodeKind::Merge => "Merge",
            BuiltinNodeKind::CopyToPoints => "Copy to Points",
            BuiltinNodeKind::Output => "Output",
        }
    }
}

/// Byte-wise equality of two slices.
fn bytes_eq(a: &[u8], b: &[u8]) -> (r: bool)
    ensures
        r == (a@ == b@),
{
    let na = a.len();
    let nb = b.len();
    if na != nb {
        proof {
            assert(a@.len() != b@.len());
        }
        return false;
    }
    let mut i: usize = 0;
    while i < na
        invariant
            na == a@.len(),
            na == b@.len(),
            0 <= i <= na,
            forall|j: int| 0 <= j < i ==> a@[j] == b@[j],
        decreases na - i,
    {
        if a[i] != b[i] {
            return false;
        }
        i += 1;
    }
    proof {
        assert(a@ =~= b@);
    }
    true
}

/// Resolves a node's display name back to its kind, byte for byte: the
/// result is `Some(k)` exactly when the name carries `k`'s registry bytes.
/// This makes it the left inverse of [`BuiltinNodeKind::name`].
pub fn builtin_kind_from_name(name: &str) -> (r: Option<BuiltinNodeKind>)
    ensures
        forall|k: BuiltinNodeKind|
            (r == Some(k)) == (name.spec_bytes() == #[trigger] kind_name_bytes(k)),
        r is None ==> forall|k: BuiltinNodeKind|
            name.spec_bytes() != #[trigger] kind_name_bytes(k),
{
    proof {
        lemma_kind_names_distinct();
        assert(kind_name_bytes(BuiltinNodeKind::Box) == "Box".spec_bytes());
        assert(kind_name_bytes(BuiltinNodeKind::Grid) == "Grid".spec_bytes());
        assert(kind_name_bytes(BuiltinNodeKind::Sphere) == "Sphere".spec_bytes());
        assert(kind_name_bytes(BuiltinNodeKind::Transform) == "Transform".spec_bytes());
        assert(kind_name_bytes(BuiltinNodeKind::Merge) == "Merge".spec_bytes());
        assert(kind_name_bytes(BuiltinNodeKind::CopyToPoints) == "Copy to Points".spec_bytes());
        assert(kind_name_bytes(BuiltinNodeKind::Output) == "Output".spec_bytes());
    }
    let nb = name.as_bytes();
    if bytes_eq(nb, "Box".as_bytes()) {
        Some(BuiltinNodeKind::Box)
    } else if bytes_eq(nb, "Grid".as_bytes()) {
        Some(BuiltinNodeKind::Grid)
    } else if bytes_eq(nb, "Sphere".as_bytes()) {
        Some(BuiltinNodeKind::Sphere)
    } else if bytes_eq(nb, "Transform".as_bytes()) {
        Some(BuiltinNodeKind::Transform)
    } else if bytes_eq(nb, "Merge".as_bytes()) {
        Some(BuiltinNodeKind::Merge)
    } else if bytes_eq(nb, "Copy to Points".as_bytes()) {
        Some(BuiltinNodeKind::CopyToPoints)
    } else if bytes_eq(nb, "Output".as_bytes()) {
        Some(BuiltinNodeKind::Output)
    } else {
        None
    }
}

/// Whether `d` is the stock definition of `kind`: its registry name, its
/// category, and its pin layout — names, order and the all-mesh types.
pub open spec fn is_kind_definition(d: NodeDefinition, kind: BuiltinNodeKind) -> bool {
    &&& d.name@ == kind_name_view(kind)
    &&& (forall|k: int|
        0 <= k < d.inputs@.len() ==> (#[trigger] d.inputs@[k]).pin_type == PinType::Mesh)
    &&& (forall|k: int|
        0 <= k < d.outputs@.len() ==> (#[trigger] d.outputs@[k]).pin_type == PinType::Mesh)
    &&& match kind {
        BuiltinNodeKind::Box | BuiltinNodeKind::Grid | BuiltinNodeKind::Sphere => {
            &&& d.category@ == "Sources"@
            &&& d.inputs@.len() == 0
            &&& d.outputs@.len() == 1
            &&& d.outputs@[0].name@ == "out"@
        },
        BuiltinNodeKind::Transform => {
            &&& d.category@ == "Operators"@
            &&& d.inputs@.len() == 1
            &&& d.outputs@.len() == 1
            &&& d.inputs@[0].name@ == "in"@
            &&& d.outputs@[0].name@ == "out"@
        },
        BuiltinNodeKind::Merge => {
            &&& d.category@ == "Operators"@
            &&& d.inputs@.len() == 2
            &&& d.outputs@.len() == 1
            &&& d.inputs@[0].name@ == "a"@
            &&& d.inputs@[1].name@ == "b"@
            &&& d.outputs@[0].name@ == "out"@
        },
        BuiltinNodeKind::CopyToPoints => {
            &&& d.category@ == "Operators"@
            &&& d.inputs@.len() == 2
            &&& d.outputs@.len() == 1
            &&& d.inputs@[0].name@ == "source"@
            &&& d.inputs@[1].name@ == "template"@
            &&& d.outputs@[0].name@ == "out"@
        },
        BuiltinNodeKind::Output => {
            &&& d.category@ == "Outputs"@
            &&& d.inputs@.len() == 1
            &&& d.outputs@.len() == 0
            &&& d.inputs@[0].name@ == "in"@
        },
    }
}

/// A mesh-typed pin blueprint with the given name.
fn mesh_pin(name: &str) -> (r: PinDefinition)
    ensures
        r.name@ == name@,
        r.pin_type == PinType::Mesh,
{
    PinDefinition { name: name.to_owned(), pin_type: PinType::Mesh }
}

/// The definition (name, category, pins) of a built-in kind. Sources have
/// no inputs, operators take one or two meshes, and the output sink takes
/// exactly one.
pub fn node_definition(kind: BuiltinNodeKind) -> (r: NodeDefinition)
    ensures
        is_kind_definition(r, kind),
{
    let name = kind.name().to_owned();
    match kind {
        BuiltinNodeKind::Box | BuiltinNodeKind::Grid | BuiltinNodeKind::Sphere => NodeDefinition {
            name,
            category: "Sources".to_owned(),
            inputs: Vec::new(),
            outputs: vec![mesh_pin("out")],
        },
        BuiltinNodeKind::Transform => NodeDefinition {
            name,
            category: "Operators".to_owned(),
            inputs: vec![mesh_pin("in")],
            outputs: vec![mesh_pin("out")],
        },
        BuiltinNodeKind::Merge => NodeDefinition {
            name,
            category: "Operators".to_owned(),
            inputs: vec![mesh_pin("a"), mesh_pin("b")],
            outputs: vec![mesh_pin("out")],
        },
        BuiltinNodeKind::CopyToPoints => NodeDefinition {
            name,
            category: "Operators".to_owned(),
            inputs: vec![mesh_pin("source"), mesh_pin("template")],
            outputs: vec![mesh_pin("out")],
        },
        BuiltinNodeKind::Output => NodeDefinition {
            name,
            category: "Outputs".to_owned(),
            inputs: vec![mesh_pin("in")],
            outputs: Vec::new(),
        },
    }
}

/// One definition per built-in kind, in registry order.
pub fn builtin_definitions() -> (r: Vec<NodeDefinition>)
    ensures
        r@.len() == 7,
        is_kind_definition(r@[0], BuiltinNodeKind::Box),
        is_kind_definition(r@[1], BuiltinNodeKind::Grid),
        is_kind_definition(r@[2], BuiltinNodeKind::Sphere),
        is_kind_definition(r@[3], BuiltinNodeKind::Transform),
        is_kind_definition(r@[4], BuiltinNodeKind::Merge),
        is_kind_definition(r@[5], BuiltinNodeKind::CopyToPoints),
        is_kind_definition(r@[6], BuiltinNodeKind::Output),
    {
    let mut defs: Vec<NodeDefinition> = Vec::new();
    defs.push(node_definition(BuiltinNodeKind::Box));
    defs.push(node_definition(BuiltinNodeKind::Grid));
    defs.push(node_definition(BuiltinNodeKind::Sphere));
    defs.push(node_definition(BuiltinNodeKind::Transform));
    defs.push(node_definition(BuiltinNodeKind::Merge));
    defs.push(node_definition(BuiltinNodeKind::CopyToPoints));
    defs.push(node_definition(BuiltinNodeKind::Output));
    defs
}

/// The default value views: a uniform three-component vector of one bit
/// pattern, used by several kinds.
pub open spec fn uniform3(bits: u32) -> ParamValueView {
    ParamValueView::Vec3(seq![bits, bits, bits])
}

/// Default parameter stores per kind. Real-valued defaults are IEEE-754 bit
/// patterns: 0x3F80_0000 is 1.0 and 0x4000_0000 is 2.0. Absent keys stay
/// absent on purpose: compute functions fall back at evaluation time.
pub fn default_params(kind: BuiltinNodeKind) -> (r: NodeParams)
    ensures
        r.wf(),
        kind == BuiltinNodeKind::Box ==> r@.len() == 2 && param_seq_get(r@, "size"@) == Some(
            uniform3(0x3F80_0000u32),
        ) && param_seq_get(r@, "center"@) == Some(uniform3(0u32)),
        kind == BuiltinNodeKind::Grid ==> r@.len() == 4 && param_seq_get(r@, "size"@) == Some(
            ParamValueView::Vec2(seq![0x4000_0000u32, 0x4000_0000u32]),
        ) && param_seq_get(r@, "rows"@) == Some(ParamValueView::Int(10)) && param_seq_get(
            r@,
            "cols"@,
        ) == Some(ParamValueView::Int(10)) && param_seq_get(r@, "center"@) == Some(uniform3(0u32)),
        kind == BuiltinNodeKind::Sphere ==> r@.len() == 4 && param_seq_get(r@, "radius"@) == Some(
            ParamValueView::Float(0x3F80_0000u32),
        ) && param_seq_get(r@, "rows"@) == Some(ParamValueView::Int(16)) && param_seq_get(
            r@,
            "cols"@,
        ) == Some(ParamValueView::Int(32)) && param_seq_get(r@, "center"@) == Some(uniform3(0u32)),
        kind == BuiltinNodeKind::Transform ==> r@.len() == 4 && param_seq_get(r@, "translate"@)
            == Some(uniform3(0u32)) && param_seq_get(r@, "rotate_deg"@) == Some(uniform3(0u32))
            && param_seq_get(r@, "scale"@) == Some(uniform3(0x3F80_0000u32)) && param_seq_get(
            r@,
            "pivot"@,
        ) == Some(uniform3(0u32)),
        kind == BuiltinNodeKind::Merge ==> r@.len() == 0,
        kind == BuiltinNodeKind::CopyToPoints ==> r@.len() == 4 && param_seq_get(
            r@,
            "align_to_normals"@,
        ) == Some(ParamValueView::Bool(true)) && param_seq_get(r@, "translate"@) == Some(
            uniform3(0u32),
        ) && param_seq_get(r@, "rotate_deg"@) == Some(uniform3(0u32)) && param_seq_get(
            r@,
            "scale"@,
        ) == Some(uniform3(0x3F80_0000u32)),
        kind == BuiltinNodeKind::Output ==> r@.len() == 0,
    {
    let one: u32 = 0x3F80_0000;
    let two: u32 = 0x4000_0000;
    let zero: u32 = 0;
    proof {
        assert(([one, one, one]@) =~= seq![one, one, one]);
        assert(([zero, zero, zero]@) =~= seq![zero, zero, zero]);
        assert(([two, two]@) =~= seq![two, two]);
    }
    let mut p = NodeParams::new();
    match kind {
        BuiltinNodeKind::Box => {
            p.insert("size".to_owned(), ParamValue::Vec3([one, one, one]));
            p.insert("center".to_owned(), ParamValue::Vec3([zero, zero, zero]));
            proof {
                reveal_strlit("size");
                reveal_strlit("center");
                assert(("size"@).len() != ("center"@).len());
            }
        },
        BuiltinNodeKind::Grid => {
            p.insert("size".to_owned(), ParamValue::Vec2([two, two]));
            p.insert("rows".to_owned(), ParamValue::Int(10));
            p.insert("cols".to_owned(), ParamValue::Int(10));
            p.insert("center".to_owned(), ParamValue::Vec3([zero, zero, zero]));
            proof {
                reveal_strlit("size");
                reveal_strlit("rows");
                reveal_strlit("cols");
                reveal_strlit("center");
                assert(("size"@)[0] != ("rows"@)[0]);
                assert(("size"@)[0] != ("cols"@)[0]);
                assert(("rows"@)[0] != ("cols"@)[0]);
                assert(("size"@).len() != ("center"@).len());
                assert(("rows"@).len() != ("center"@).len());
                assert(("cols"@).len() != ("center"@).len());
            }
        },
        BuiltinNodeKind::Sphere => {
            p.insert("radius".to_owned(), ParamValue::Float(one));
            p.insert("rows".to_owned(), ParamValue::Int(16));
            p.insert("cols".to_owned(), ParamValue::Int(32));
            p.insert("center".to_owned(), ParamValue::Vec3([zero, zero, zero]));
            proof {
                reveal_strlit("radius");
                reveal_strlit("rows");
                reveal_strlit("cols");
                reveal_strlit("center");
                assert(("radius"@).len() != ("rows"@).len());
                assert(("radius"@).len() != ("cols"@).len());
                assert(("radius"@)[0] != ("center"@)[0]);
                assert(("rows"@)[0] != ("cols"@)[0]);
                assert(("rows"@).len() != ("center"@).len());
                assert(("cols"@).len() != ("center"@).len());
            }
        },
        BuiltinNodeKind::Transform => {
            p.insert("translate".to_owned(), ParamValue::Vec3([zero, zero, zero]));
            p.insert("rotate_deg".to_owned(), ParamValue::Vec3([zero, zero, zero]));
            p.insert("scale".to_owned(), ParamValue::Vec3([one, one, one]));
            p.insert("pivot".to_owned(), ParamValue::Vec3([zero, zero, zero]));
            proof {
                reveal_strlit("translate");
                reveal_strlit("rotate_deg");
                reveal_strlit("scale");
                reveal_strlit("pivot");
                assert(("translate"@).len() != ("rotate_deg"@).len());
                assert(("translate"@).len() != ("scale"@).len());
                assert(("translate"@).len() != ("pivot"@).len());
                assert(("rotate_deg"@).len() != ("scale"@).len());
                assert(("rotate_deg"@).len() != ("pivot"@).len());
                assert(("scale"@)[0] != ("pivot"@)[0]);
            }
        },
        BuiltinNodeKind::Merge => {},
        BuiltinNodeKind::CopyToPoints => {
            p.insert("align_to_normals".to_owned(), ParamValue::Bool(true));
            p.insert("translate".to_owned(), ParamValue::Vec3([zero, zero, zero]));
            p.insert("rotate_deg".to_owned(), ParamValue::Vec3([zero, zero, zero]));
            p.insert("scale".to_owned(), ParamValue::Vec3([one, one, one]));
            proof {
                reveal_strlit("align_to_normals");
                reveal_strlit("translate");
                reveal_strlit("rotate_deg");
                reveal_strlit("scale");
                assert(("align_to_normals"@).len() != ("translate"@).len());
                assert(("align_to_normals"@).len() != ("rotate_deg"@).len());
                assert(("align_to_normals"@).len() != ("scale"@).len());
                assert(("translate"@).len() != ("rotate_deg"@).len());
                assert(("translate"@).len() != ("scale"@).len());
                assert(("rotate_deg"@).len() != ("scale"@).len());
            }
        },
        BuiltinNodeKind::Output => {},
    }
    p
}

/// Reads an integer parameter, falling back to a default.
pub fn param_int(params: &NodeParams, key: &str, default: i32) -> (r: i32)
    requires
        params.wf(),
    ensures
        param_seq_get(params@, key@) matches Some(v) && v is Int ==> Some(ParamValueView::Int(r))
            == param_seq_get(params@, key@),
        !(param_seq_get(params@, key@) matches Some(v) && v is Int) ==> r == default,
{
    match params.get(key) {
        Some(v) => match v {
            ParamValue::Int(x) => *x,
            _ => default,
        },
        None => default,
    }
}

/// Reads a boolean parameter, falling back to a default.
pub fn param_bool(params: &NodeParams, key: &str, default: bool) -> (r: bool)
    requires
        params.wf(),
    ensures
        param_seq_get(params@, key@) matches Some(v) && v is Bool ==> Some(ParamValueView::Bool(r))
            == param_seq_get(params@, key@),
        !(param_seq_get(params@, key@) matches Some(v) && v is Bool) ==> r == default,
{
    match params.get(key) {
        Some(v) => match v {
            ParamValue::Bool(x) => *x,
            _ => default,
        },
        None => default,
    }
}

} // verus!
