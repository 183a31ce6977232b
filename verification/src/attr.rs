//! Plain-value model of operator definitions: name, kind, input references,
//! device string, and a keyed list of typed attribute payloads.
use vstd::prelude::*;
use crate::names::{clone_strings, str_eq};

verus! {

/// Data-type code for 32-bit integers.
pub const DT_INT32: i64 = 3;

/// Data-type code for booleans.
pub const DT_BOOL: i64 = 10;

/// A constant tensor payload: data type, shape dimensions, integer values.
#[derive(Debug)]
pub struct TensorValue {
    pub dtype: i64,
    pub shape: Vec<i64>,
    pub int_val: Vec<i64>,
}

pub ghost struct TensorValueV {
    pub dtype: i64,
    pub shape: Seq<i64>,
    pub int_val: Seq<i64>,
}

impl View for TensorValue {
    type V = TensorValueV;

    open spec fn view(&self) -> TensorValueV {
        TensorValueV { dtype: self.dtype, shape: self.shape@, int_val: self.int_val@ }
    }
}

/// One attribute payload.
#[derive(Debug)]
pub enum AttrValue {
    /// An integer (`i` in the wire format).
    Int(i64),
    /// A byte string, held here as text (`s`).
    Bytes(String),
    /// A data-type code (`type`).
    DType(i64),
    /// A constant tensor (`tensor`).
    TensorVal(TensorValue),
    /// A list of integers (`list.i`).
    IntList(Vec<i64>),
    /// A list of shapes (`list.shape`), each a list of dimension sizes.
    ShapeList(Vec<Vec<i64>>),
}

pub ghost enum AttrV {
    Int(i64),
    Bytes(Seq<char>),
    DType(i64),
    TensorVal(TensorValueV),
    IntList(Seq<i64>),
    ShapeList(Seq<Seq<i64>>),
}

impl View for AttrValue {
    type V = AttrV;

    open spec fn view(&self) -> AttrV {
        match self {
            AttrValue::Int(i) => AttrV::Int(*i),
            AttrValue::Bytes(s) => AttrV::Bytes(s@),
            AttrValue::DType(t) => AttrV::DType(*t),
            AttrValue::TensorVal(t) => AttrV::TensorVal(t@),
            AttrValue::IntList(l) => AttrV::IntList(l@),
            AttrValue::ShapeList(l) => AttrV::ShapeList(l.deep_view()),
        }
    }
}

/// Copies a vector of integers.
pub fn clone_i64s(v: &Vec<i64>) -> (r: Vec<i64>)
    ensures
        r@ == v@,
{
    let mut r: Vec<i64> = Vec::new();
    let mut i: usize = 0;
    while i < v.len()
        invariant
            i <= v.len(),
            r@ == v@.take(i as int),
        decreases v.len() - i,
    {
        r.push(v[i]);
        proof {
            assert(r@ =~= v@.take(i + 1));
        }
        i = i + 1;
    }
    proof {
        assert(v@.take(v@.len() as int) =~= v@);
    }
    r
}

/// Copies a vector of shapes.
pub fn clone_shapes(v: &Vec<Vec<i64>>) -> (r: Vec<Vec<i64>>)
    ensures
        r.deep_view() == v.deep_view(),
        r@.len() == v@.len(),
{
    let mut r: Vec<Vec<i64>> = Vec::new();
    let mut i: usize = 0;
    while i < v.len()
        invariant
            i <= v.len(),
            r@.len() == i,
            forall|j: int| 0 <= j < i ==> (#[trigger] r@[j])@ == v@[j]@,
        decreases v.len() - i,
    {
        r.push(clone_i64s(&v[i]));
        i = i + 1;
    }
    proof {
        assert forall|j: int| 0 <= j < v@.len() implies #[trigger] r.deep_view()[j]
            == v.deep_view()[j] by {
            assert(r@[j]@ == v@[j]@);
        }
        assert(r.deep_view() =~= v.deep_view());
    }
    r
}

impl Clone for AttrValue {
    fn clone(&self) -> (r: AttrValue)
        ensures
            r@ == self@,
    {
        match self {
            AttrValue::Int(i) => AttrValue::Int(*i),
            AttrValue::Bytes(s) => AttrValue::Bytes(s.clone()),
            AttrValue::DType(t) => AttrValue::DType(*t),
            AttrValue::TensorVal(t) => AttrValue::TensorVal(
                TensorValue {
                    dtype: t.dtype,
                    shape: clone_i64s(&t.shape),
                    int_val: clone_i64s(&t.int_val),
                },
            ),
            AttrValue::IntList(l) => AttrValue::IntList(clone_i64s(l)),
            AttrValue::ShapeList(l) => AttrValue::ShapeList(clone_shapes(l)),
        }
    }
}

// ---------------------------------------------------------------------------
// Operator definitions
// ---------------------------------------------------------------------------

/// An operator definition: the unit of the input and of the emitted graph.
#[derive(Debug)]
pub struct OpDef {
    /// Operator name, unique within a graph.
    pub name: String,
    /// Operator kind, such as `"MatMul"` or `"Const"`.
    pub op: String,
    /// Input references: `"name"`, `"name:k"`, or `"^name"` for a control.
    pub input: Vec<String>,
    /// Device string.
    pub device: String,
    /// Attributes, keyed by name; later stores replace earlier entries.
    pub attr: Vec<(String, AttrValue)>,
}

pub ghost struct OpDefV {
    pub name: Seq<char>,
    pub op: Seq<char>,
    pub input: Seq<Seq<char>>,
    pub device: Seq<char>,
    pub attr: Seq<(Seq<char>, AttrV)>,
}

/// The view of an attribute list.
pub open spec fn attrs_view(attrs: Seq<(String, AttrValue)>) -> Seq<(Seq<char>, AttrV)> {
    Seq::new(attrs.len(), |i: int| (attrs[i].0@, attrs[i].1@))
}

impl View for OpDef {
    type V = OpDefV;

    open spec fn view(&self) -> OpDefV {
        OpDefV {
            name: self.name@,
            op: self.op@,
            input: self.input.deep_view(),
            device: self.device@,
            attr: attrs_view(self.attr@),
        }
    }
}

impl Clone for OpDef {
    fn clone(&self) -> (r: OpDef)
        ensures
            r@ == self@,
    {
        let mut attr: Vec<(String, AttrValue)> = Vec::new();
        let mut i: usize = 0;
        while i < self.attr.len()
            invariant
                i <= self.attr.len(),
                attr@.len() == i,
                forall|j: int| 0 <= j < i ==> (#[trigger] attr@[j]).0@ == self.attr@[j].0@
                    && attr@[j].1@ == self.attr@[j].1@,
            decreases self.attr.len() - i,
        {
            let (k, v) = &self.attr[i];
            attr.push((k.clone(), v.clone()));
            i = i + 1;
        }
        proof {
            assert(attrs_view(attr@) =~= attrs_view(self.attr@));
        }
        let r = OpDef {
            name: self.name.clone(),
            op: self.op.clone(),
            input: clone_strings(&self.input),
            device: self.device.clone(),
            attr,
        };
        proof {
            assert(r@ == self@);
        }
        r
    }
}

// ---------------------------------------------------------------------------
// Attribute lookup and store
// ---------------------------------------------------------------------------

/// First-match lookup in an attribute list.
pub open spec fn attr_lookup(attrs: Seq<(Seq<char>, AttrV)>, key: Seq<char>) -> Option<AttrV>
    decreases attrs.len(),
{
    if attrs.len() == 0 {
        None
    } else if attrs[0].0 == key {
        Some(attrs[0].1)
    } else {
        attr_lookup(attrs.skip(1), key)
    }
}

/// Replaces the first entry under `key`, or appends one.
pub open spec fn attr_store(attrs: Seq<(Seq<char>, AttrV)>, key: Seq<char>, v: AttrV) -> Seq<
    (Seq<char>, AttrV),
>
    decreases attrs.len(),
{
    if attrs.len() == 0 {
        seq![(key, v)]
    } else if attrs[0].0 == key {
        seq![(key, v)] + attrs.skip(1)
    } else {
        seq![attrs[0]] + attr_store(attrs.skip(1), key, v)
    }
}

pub proof fn lemma_store_lookup_same(attrs: Seq<(Seq<char>, AttrV)>, key: Seq<char>, v: AttrV)
    ensures
        attr_lookup(attr_store(attrs, key, v), key) == Some(v),
    decreases attrs.len(),
{
    let r = attr_store(attrs, key, v);
    if attrs.len() == 0 {
        assert(r[0].0 == key);
    } else if attrs[0].0 == key {
        assert(r[0].0 == key);
    } else {
        lemma_store_lookup_same(attrs.skip(1), key, v);
        assert(r[0] == attrs[0]);
        assert(r.skip(1) =~= attr_store(attrs.skip(1), key, v));
    }
}

pub proof fn lemma_store_lookup_other(
    attrs: Seq<(Seq<char>, AttrV)>,
    key: Seq<char>,
    v: AttrV,
    key2: Seq<char>,
)
    requires
        key2 != key,
    ensures
        attr_lookup(attr_store(attrs, key, v), key2) == attr_lookup(attrs, key2),
    decreases attrs.len(),
{
    let r = attr_store(attrs, key, v);
    if attrs.len() == 0 {
        assert(r.skip(1) =~= Seq::<(Seq<char>, AttrV)>::empty());
        assert(attr_lookup(r, key2) == attr_lookup(r.skip(1), key2));
        assert(attr_lookup(Seq::<(Seq<char>, AttrV)>::empty(), key2) is None);
    } else if attrs[0].0 == key {
        assert(r.skip(1) =~= attrs.skip(1));
        assert(attr_lookup(r, key2) == attr_lookup(attrs.skip(1), key2));
    } else {
        lemma_store_lookup_other(attrs.skip(1), key, v, key2);
        assert(r[0] == attrs[0]);
        assert(r.skip(1) =~= attr_store(attrs.skip(1), key, v));
    }
}

/// The attribute keys the engine writes are pairwise distinct.
pub proof fn lemma_keys_distinct()
    ensures
        "_tge_belong_to"@ != "dtype"@,
        "_tge_belong_to"@ != "value"@,
        "_tge_belong_to"@ != "T"@,
        "_tge_belong_to"@ != "Tidx"@,
        "_tge_belong_to"@ != "N"@,
        "_tge_belong_to"@ != "num_split"@,
        "_tge_belong_to"@ != "reduction"@,
        "_tge_belong_to"@ != "num_devices"@,
        "_tge_belong_to"@ != "shared_name"@,
        "_tge_belong_to"@ != "_tge_input_sizes"@,
        "_tge_belong_to"@ != "_tge_origin"@,
        "_tge_belong_to"@ != "_tge_form"@,
        "_tge_origin"@ != "_tge_form"@,
        "_tge_origin"@ != "_tge_input_sizes"@,
        "_tge_form"@ != "_tge_input_sizes"@,
        "dtype"@ != "value"@,
        "T"@ != "N"@,
        "T"@ != "Tidx"@,
        "T"@ != "num_split"@,
        "T"@ != "reduction"@,
        "T"@ != "num_devices"@,
        "T"@ != "shared_name"@,
        "T"@ != "_tge_input_sizes"@,
        "N"@ != "Tidx"@,
        "N"@ != "_tge_input_sizes"@,
        "Tidx"@ != "_tge_input_sizes"@,
        "num_split"@ != "_tge_input_sizes"@,
        "reduction"@ != "num_devices"@,
        "reduction"@ != "shared_name"@,
        "reduction"@ != "_tge_input_sizes"@,
        "num_devices"@ != "shared_name"@,
        "num_devices"@ != "_tge_input_sizes"@,
        "shared_name"@ != "_tge_input_sizes"@,
{
    reveal_strlit("_tge_belong_to");
    reveal_strlit("_tge_origin");
    reveal_strlit("_tge_form");
    reveal_strlit("_tge_input_sizes");
    reveal_strlit("dtype");
    reveal_strlit("value");
    reveal_strlit("T");
    reveal_strlit("N");
    reveal_strlit("Tidx");
    reveal_strlit("num_split");
    reveal_strlit("reduction");
    reveal_strlit("num_devices");
    reveal_strlit("shared_name");
    assert("_tge_belong_to"@.len() == 14);
    assert("_tge_origin"@.len() == 11);
    assert("_tge_form"@.len() == 9);
    assert("_tge_input_sizes"@.len() == 16);
    assert("dtype"@.len() == 5);
    assert("value"@.len() == 5);
    assert("T"@.len() == 1);
    assert("N"@.len() == 1);
    assert("Tidx"@.len() == 4);
    assert("num_split"@.len() == 9);
    assert("reduction"@.len() == 9);
    assert("num_devices"@.len() == 11);
    assert("shared_name"@.len() == 11);
    assert("dtype"@[0] != "value"@[0]);
    assert("T"@[0] != "N"@[0]);
    assert("num_devices"@[0] != "shared_name"@[0]);
    assert("_tge_belong_to"@[5] != "_tge_origin"@[5]);
    assert("_tge_belong_to"@[5] != "_tge_form"@[5]);
    assert("_tge_belong_to"@[5] != "_tge_input_sizes"@[5]);
    assert("_tge_origin"@[5] != "_tge_form"@[5]);
    assert("_tge_origin"@[5] != "_tge_input_sizes"@[5]);
    assert("_tge_form"@[5] != "_tge_input_sizes"@[5]);
    assert("_tge_form"@[5] != "num_split"@[5]);
    assert("_tge_form"@[0] != "reduction"@[0]);
}

/// Looks an attribute up by name.
pub fn attr_get<'a>(attrs: &'a Vec<(String, AttrValue)>, key: &str) -> (r: Option<&'a AttrValue>)
    ensures
        match r {
            Some(v) => attr_lookup(attrs_view(attrs@), key@) == Some(v@),
            None => attr_lookup(attrs_view(attrs@), key@) is None,
        },
{
    let ghost av = attrs_view(attrs@);
    proof {
        assert(av.skip(0) =~= av);
    }
    let mut i: usize = 0;
    while i < attrs.len()
        invariant
            i <= attrs@.len(),
            av == attrs_view(attrs@),
            attr_lookup(av, key@) == attr_lookup(av.skip(i as int), key@),
        decreases attrs@.len() - i,
    {
        let hit = str_eq(attrs[i].0.as_str(), key);
        proof {
            assert(av.skip(i as int)[0] == av[i as int]);
            assert(av.skip(i as int).skip(1) =~= av.skip(i + 1));
        }
        if hit {
            return Some(&attrs[i].1);
        }
        i = i + 1;
    }
    proof {
        assert(av.skip(av.len() as int) =~= Seq::<(Seq<char>, AttrV)>::empty());
    }
    None
}

/// Stores an attribute, replacing any earlier entry under the same name.
pub fn attr_set(attrs: &mut Vec<(String, AttrValue)>, key: &str, v: AttrValue)
    ensures
        attrs_view(final(attrs)@) == attr_store(attrs_view(old(attrs)@), key@, v@),
{
    let ghost av = attrs_view(old(attrs)@);
    let ghost vv = v@;
    proof {
        assert(av.skip(0) =~= av);
        assert(av.take(0) + attr_store(av, key@, vv) =~= attr_store(av, key@, vv));
    }
    let mut i: usize = 0;
    while i < attrs.len()
        invariant
            i <= attrs@.len(),
            attrs@ == old(attrs)@,
            attr_store(av, key@, vv) == av.take(i as int) + attr_store(av.skip(i as int), key@, vv),
        decreases attrs@.len() - i,
    {
        let hit = str_eq(attrs[i].0.as_str(), key);
        proof {
            assert(av.skip(i as int)[0] == av[i as int]);
            assert(av.skip(i as int).skip(1) =~= av.skip(i + 1));
        }
        if hit {
            let mut tail = attrs.split_off(i);
            let _ = tail.remove(0);
            attrs.push((String::from_str(key), v));
            attrs.append(&mut tail);
            proof {
                assert(attr_store(av.skip(i as int), key@, vv) =~= seq![(key@, vv)] + av.skip(
                    i + 1,
                ));
                assert(attrs_view(attrs@) =~= av.take(i as int) + (seq![(key@, vv)] + av.skip(
                    i + 1,
                )));
            }
            return ;
        }
        proof {
            assert(av.take(i as int) + seq![av[i as int]] =~= av.take(i + 1));
            assert(av.take(i as int) + (seq![av.skip(i as int)[0]] + attr_store(
                av.skip(i + 1),
                key@,
                vv,
            )) =~= av.take(i + 1) + attr_store(av.skip(i + 1), key@, vv));
        }
        i = i + 1;
    }
    attrs.push((String::from_str(key), v));
    proof {
        assert(av.skip(av.len() as int) =~= Seq::<(Seq<char>, AttrV)>::empty());
        assert(attr_store(av.skip(av.len() as int), key@, vv) =~= seq![(key@, vv)]);
        assert(av.take(av.len() as int) =~= av);
        assert(attrs_view(attrs@) =~= av + seq![(key@, vv)]);
        assert(av + seq![(key@, vv)] =~= attr_store(av, key@, vv));
    }
}

// ---------------------------------------------------------------------------
// The engine's own annotation attributes
// ---------------------------------------------------------------------------

/// Tags a replicated original with the name it was compiled from.
pub fn set_origin(node: &mut OpDef, origin: &String)
    ensures
        final(node)@ == (OpDefV {
            attr: attr_store(old(node)@.attr, "_tge_origin"@, AttrV::Bytes(origin@)),
            ..old(node)@
        }),
{
    attr_set(&mut node.attr, "_tge_origin", AttrValue::Bytes(origin.clone()));
}

/// Tags an auxiliary operator with the original it was emitted for.
pub fn set_belong_to(node: &mut OpDef, belong_to: &String)
    ensures
        final(node)@ == (OpDefV {
            attr: attr_store(old(node)@.attr, "_tge_belong_to"@, AttrV::Bytes(belong_to@)),
            ..old(node)@
        }),
{
    attr_set(&mut node.attr, "_tge_belong_to", AttrValue::Bytes(belong_to.clone()));
}

/// Tags a replicated original with its form code.
pub fn set_form(node: &mut OpDef, form_code: &String)
    ensures
        final(node)@ == (OpDefV {
            attr: attr_store(old(node)@.attr, "_tge_form"@, AttrV::Bytes(form_code@)),
            ..old(node)@
        }),
{
    attr_set(&mut node.attr, "_tge_form", AttrValue::Bytes(form_code.clone()));
}

/// The size list after recording `size` for input `index`: the current list
/// (or an empty one) grown with zeroes to cover `index`, then updated there.
pub open spec fn input_sizes_store(attrs: Seq<(Seq<char>, AttrV)>, index: int, size: i64) -> Seq<
    (Seq<char>, AttrV),
> {
    let cur = match attr_lookup(attrs, "_tge_input_sizes"@) {
        Some(AttrV::IntList(l)) => l,
        _ => Seq::<i64>::empty(),
    };
    let grown = if cur.len() > index {
        cur
    } else {
        cur + Seq::new((index + 1 - cur.len()) as nat, |_j: int| 0i64)
    };
    attr_store(attrs, "_tge_input_sizes"@, AttrV::IntList(grown.update(index, size)))
}

/// Records the byte size of input `index` in `_tge_input_sizes`.
pub fn set_input_size(node: &mut OpDef, index: usize, size: u64)
    requires
        index < usize::MAX,
    ensures
        final(node)@ == (OpDefV {
            attr: input_sizes_store(old(node)@.attr, index as int, size as i64),
            ..old(node)@
        }),
{
    let mut l: Vec<i64> = match attr_get(&node.attr, "_tge_input_sizes") {
        Some(AttrValue::IntList(v)) => clone_i64s(v),
        _ => Vec::new(),
    };
    let ghost cur = l@;
    while l.len() <= index
        invariant
            cur.len() > index ==> l@ == cur,
            cur.len() <= index ==> cur.len() <= l@.len() <= index + 1 && l@ == cur + Seq::new(
                (l@.len() - cur.len()) as nat,
                |_j: int| 0i64,
            ),
        decreases index + 1 - l@.len(),
    {
        l.push(0);
        proof {
            assert(l@ =~= cur + Seq::new((l@.len() - cur.len()) as nat, |_j: int| 0i64));
        }
    }
    proof {
        let grown = if cur.len() > index as int {
            cur
        } else {
            cur + Seq::new((index + 1 - cur.len()) as nat, |_j: int| 0i64)
        };
        assert(l@ =~= grown);
    }
    let slot = vstd::std_specs::vec::vec_index_mut(&mut l, index);
    *slot = #[verifier::truncate] (size as i64);
    attr_set(&mut node.attr, "_tge_input_sizes", AttrValue::IntList(l));
}

/// Reads entry `index` of the recorded input sizes, if present.
pub open spec fn input_size_at(attrs: Seq<(Seq<char>, AttrV)>, index: int) -> Option<i64> {
    match attr_lookup(attrs, "_tge_input_sizes"@) {
        Some(AttrV::IntList(l)) => if 0 <= index < l.len() {
            Some(l[index])
        } else {
            None
        },
        _ => None,
    }
}

// ---------------------------------------------------------------------------
// Data-type inference for auxiliary operators
// ---------------------------------------------------------------------------

/// The attribute value auxiliaries copy as their `T`/`dtype`: comparisons
/// yield booleans; shape operators yield their `out_type` or 32-bit integers;
/// casts yield their target type; anything else must carry `dtype` or `T`.
pub open spec fn dtype_spec(op: OpDefV) -> Option<AttrV> {
    if op.op == "Greater"@ || op.op == "GreaterEqual"@ {
        Some(AttrV::DType(DT_BOOL))
    } else if op.op == "Shape"@ || op.op == "ShapeN"@ {
        match attr_lookup(op.attr, "out_type"@) {
            Some(v) => Some(v),
            None => Some(AttrV::DType(DT_INT32)),
        }
    } else if op.op == "Cast"@ {
        attr_lookup(op.attr, "DstT"@)
    } else {
        match attr_lookup(op.attr, "dtype"@) {
            Some(v) => Some(v),
            None => attr_lookup(op.attr, "T"@),
        }
    }
}

/// Infers the data type an auxiliary for `x` should carry.
pub fn get_dtype(x: &OpDef) -> (r: AttrValue)
    requires
        dtype_spec(x@) is Some,
    ensures
        Some(r@) == dtype_spec(x@),
{
    if str_eq(x.op.as_str(), "Greater") || str_eq(x.op.as_str(), "GreaterEqual") {
        AttrValue::DType(DT_BOOL)
    } else if str_eq(x.op.as_str(), "Shape") || str_eq(x.op.as_str(), "ShapeN") {
        match attr_get(&x.attr, "out_type") {
            Some(v) => v.clone(),
            None => AttrValue::DType(DT_INT32),
        }
    } else if str_eq(x.op.as_str(), "Cast") {
        match attr_get(&x.attr, "DstT") {
            Some(v) => v.clone(),
            None => AttrValue::DType(DT_INT32),
        }
    } else {
        match attr_get(&x.attr, "dtype") {
            Some(v) => v.clone(),
            None => match attr_get(&x.attr, "T") {
                Some(v) => v.clone(),
                None => AttrValue::DType(DT_INT32),
            },
        }
    }
}

} // verus!
