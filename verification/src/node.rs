//! A node of the graph: the original operator definition, its parsed data
//! and control inputs, its lazily grown outputs, and its assigned form.
use vstd::prelude::*;
use crate::attr::{attr_store, AttrV, OpDef, OpDefV};
use crate::form::{Form, FormKind, FormV};
use crate::graph::{
    control_ref_name, dict_lookup, dict_get, is_control_ref, parse_input, ref_name, ref_port,
    valid_input_ref, Graph, GraphV,
};
use crate::names::{dec_string, replica_name, replica_name_spec};
use crate::tensor::{Tensor, TensorV};

verus! {

/// A node: the raw operator, its parsed inputs, and its assigned form.
pub struct Node {
    /// The operator definition as ingested.
    pub raw_node: OpDef,
    /// Indices of control-dependency producers.
    pub controls: Vec<usize>,
    /// Data inputs: producer index, output port, and the form kind this
    /// node wants the input in (defaults to full).
    pub inputs: Vec<(usize, usize, FormKind)>,
    /// One tensor per output port, created on demand.
    pub outputs: Vec<Tensor>,
    /// The form this node is placed in; empty until the node is put on
    /// devices, and also the form of all its output tensors.
    pub form: Form,
}

pub ghost struct NodeV {
    pub raw_node: OpDefV,
    pub controls: Seq<usize>,
    pub inputs: Seq<(usize, usize, FormKind)>,
    pub outputs: Seq<TensorV>,
    pub form: FormV,
}

impl View for Node {
    type V = NodeV;

    open spec fn view(&self) -> NodeV {
        NodeV {
            raw_node: self.raw_node@,
            controls: self.controls@,
            inputs: self.inputs@,
            outputs: Seq::new(self.outputs@.len(), |i: int| self.outputs@[i]@),
            form: self.form@,
        }
    }
}

// ---------------------------------------------------------------------------
// Parsing a raw operator's input list
// ---------------------------------------------------------------------------

/// The data-input triples parsed from a raw input list: control references
/// are skipped, each remaining reference is resolved through the dictionary,
/// and the requested kind defaults to full.
pub open spec fn parsed_inputs(inps: Seq<Seq<char>>, dict: Seq<(Seq<char>, usize)>) -> Seq<
    (usize, usize, FormKind),
>
    decreases inps.len(),
{
    if inps.len() == 0 {
        Seq::empty()
    } else if is_control_ref(inps[0]) {
        parsed_inputs(inps.skip(1), dict)
    } else {
        seq![
            (
                dict_lookup(dict, ref_name(inps[0])).unwrap(),
                ref_port(inps[0]) as usize,
                FormKind::Full,
            ),
        ] + parsed_inputs(inps.skip(1), dict)
    }
}

/// The control-dependency indices parsed from a raw input list.
pub open spec fn parsed_controls(inps: Seq<Seq<char>>, dict: Seq<(Seq<char>, usize)>) -> Seq<usize>
    decreases inps.len(),
{
    if inps.len() == 0 {
        Seq::empty()
    } else if is_control_ref(inps[0]) {
        seq![dict_lookup(dict, control_ref_name(inps[0])).unwrap()] + parsed_controls(
            inps.skip(1),
            dict,
        )
    } else {
        parsed_controls(inps.skip(1), dict)
    }
}

/// A single reference is well-formed and resolvable in the dictionary.
pub open spec fn ref_resolvable(s: Seq<char>, dict: Seq<(Seq<char>, usize)>) -> bool {
    if is_control_ref(s) {
        dict_lookup(dict, control_ref_name(s)) is Some
    } else {
        valid_input_ref(s) && dict_lookup(dict, ref_name(s)) is Some
    }
}

/// Every reference of the input list is well-formed and resolvable in the
/// dictionary.
pub open spec fn inputs_resolvable(inps: Seq<Seq<char>>, dict: Seq<(Seq<char>, usize)>) -> bool {
    forall|i: int| 0 <= i < inps.len() ==> ref_resolvable(#[trigger] inps[i], dict)
}

/// Appending a dictionary entry changes no parse: every name that resolved
/// keeps resolving to the same index.
pub proof fn lemma_parsed_stable(
    inps: Seq<Seq<char>>,
    dict: Seq<(Seq<char>, usize)>,
    entry: (Seq<char>, usize),
)
    requires
        inputs_resolvable(inps, dict),
    ensures
        parsed_inputs(inps, dict + seq![entry]) == parsed_inputs(inps, dict),
        parsed_controls(inps, dict + seq![entry]) == parsed_controls(inps, dict),
        inputs_resolvable(inps, dict + seq![entry]),
    decreases inps.len(),
{
    let dict2 = dict + seq![entry];
    assert forall|i: int| 0 <= i < inps.len() implies ref_resolvable(#[trigger] inps[i], dict2) by {
        assert(ref_resolvable(inps[i], dict));
        if is_control_ref(inps[i]) {
            crate::graph::lemma_dict_lookup_append(dict, entry, control_ref_name(inps[i]));
        } else {
            crate::graph::lemma_dict_lookup_append(dict, entry, ref_name(inps[i]));
        }
    }
    if inps.len() > 0 {
        assert(ref_resolvable(inps[0], dict));
        if is_control_ref(inps[0]) {
            crate::graph::lemma_dict_lookup_append(dict, entry, control_ref_name(inps[0]));
        } else {
            crate::graph::lemma_dict_lookup_append(dict, entry, ref_name(inps[0]));
        }
        assert forall|i: int| 0 <= i < inps.skip(1).len() implies ref_resolvable(
            #[trigger] inps.skip(1)[i],
            dict,
        ) by {
            assert(inps.skip(1)[i] == inps[i + 1]);
        }
        lemma_parsed_stable(inps.skip(1), dict, entry);
    }
}

/// Indices parsed through a dictionary whose entries are all below `n`
/// stay below `n`.
pub proof fn lemma_parsed_bounded(inps: Seq<Seq<char>>, dict: Seq<(Seq<char>, usize)>, n: int)
    requires
        inputs_resolvable(inps, dict),
        forall|i: int| 0 <= i < dict.len() ==> (#[trigger] dict[i]).1 < n,
    ensures
        forall|k: int|
            0 <= k < parsed_inputs(inps, dict).len() ==> (#[trigger] parsed_inputs(inps, dict)[k]).0
                < n,
        forall|k: int|
            0 <= k < parsed_controls(inps, dict).len() ==> (#[trigger] parsed_controls(
                inps,
                dict,
            )[k]) < n,
    decreases inps.len(),
{
    let pi = parsed_inputs(inps, dict);
    let pc = parsed_controls(inps, dict);
    if inps.len() > 0 {
        assert(ref_resolvable(inps[0], dict));
        assert forall|i: int| 0 <= i < inps.skip(1).len() implies ref_resolvable(
            #[trigger] inps.skip(1)[i],
            dict,
        ) by {
            assert(inps.skip(1)[i] == inps[i + 1]);
        }
        lemma_parsed_bounded(inps.skip(1), dict, n);
        let ti = parsed_inputs(inps.skip(1), dict);
        let tc = parsed_controls(inps.skip(1), dict);
        if is_control_ref(inps[0]) {
            let name0 = control_ref_name(inps[0]);
            let id0 = dict_lookup(dict, name0).unwrap();
            crate::graph::lemma_dict_lookup_in(dict, name0);
            let w = choose|i: int| 0 <= i < dict.len() && #[trigger] dict[i] == (name0, id0);
            assert(dict[w].1 < n);
            assert forall|k: int| 0 <= k < pc.len() implies (#[trigger] pc[k]) < n by {
                if k > 0 {
                    assert(pc[k] == tc[k - 1]);
                }
            }
        } else {
            let name0 = ref_name(inps[0]);
            let id0 = dict_lookup(dict, name0).unwrap();
            crate::graph::lemma_dict_lookup_in(dict, name0);
            let w = choose|i: int| 0 <= i < dict.len() && #[trigger] dict[i] == (name0, id0);
            assert(dict[w].1 < n);
            assert forall|k: int| 0 <= k < pi.len() implies (#[trigger] pi[k]).0 < n by {
                if k > 0 {
                    assert(pi[k] == ti[k - 1]);
                }
            }
        }
    }
}

impl Node {
    /// Parses a raw operator into a node of `graph`.  The node starts with
    /// no outputs and an empty full form.
    pub fn new(graph: &Graph, raw_node: OpDef) -> (n: Node)
        requires
            inputs_resolvable(raw_node@.input, graph@.name_dict),
        ensures
            n@.raw_node == raw_node@,
            n@.inputs == parsed_inputs(raw_node@.input, graph@.name_dict),
            n@.controls == parsed_controls(raw_node@.input, graph@.name_dict),
            n@.outputs == Seq::<TensorV>::empty(),
            n@.form == (FormV { kind: FormKind::Full, devices: Seq::empty() }),
    {
        let ghost inps = raw_node@.input;
        let ghost dict = graph@.name_dict;
        let mut inputs: Vec<(usize, usize, FormKind)> = Vec::new();
        let mut controls: Vec<usize> = Vec::new();
        proof {
            assert(inps.skip(0) =~= inps);
        }
        let mut i: usize = 0;
        while i < raw_node.input.len()
            invariant
                i <= raw_node.input@.len(),
                inps == raw_node@.input,
                dict == graph@.name_dict,
                inputs_resolvable(inps, dict),
                parsed_inputs(inps, dict) == inputs@ + parsed_inputs(inps.skip(i as int), dict),
                parsed_controls(inps, dict) == controls@ + parsed_controls(
                    inps.skip(i as int),
                    dict,
                ),
            decreases raw_node.input@.len() - i,
        {
            let s: &String = &raw_node.input[i];
            proof {
                assert(s@ == inps[i as int]);
                assert(inps.skip(i as int)[0] == inps[i as int]);
                assert(inps.skip(i as int).skip(1) =~= inps.skip(i + 1));
            }
            let is_ctrl = s.unicode_len() > 0 && s.as_str().get_char(0) == '^';
            if is_ctrl {
                let rest = s.as_str().substring_char(1, s.unicode_len());
                proof {
                    assert(rest@ =~= control_ref_name(inps[i as int]));
                }
                let id = match dict_get(&graph.name_dict, rest) {
                    Some(id) => id,
                    None => 0,
                };
                controls.push(id);
                proof {
                    assert(controls@ =~= (controls@.drop_last() + seq![
                        dict_lookup(dict, control_ref_name(inps[i as int])).unwrap(),
                    ]));
                    assert(parsed_controls(inps, dict) =~= controls@ + parsed_controls(
                        inps.skip(i + 1),
                        dict,
                    ));
                }
            } else {
                let (name, port) = parse_input(s.as_str());
                let id = match dict_get(&graph.name_dict, name.as_str()) {
                    Some(id) => id,
                    None => 0,
                };
                inputs.push((id, port, FormKind::Full));
                proof {
                    assert(inputs@ =~= (inputs@.drop_last() + seq![
                        (
                            dict_lookup(dict, ref_name(inps[i as int])).unwrap(),
                            ref_port(inps[i as int]) as usize,
                            FormKind::Full,
                        ),
                    ]));
                    assert(parsed_inputs(inps, dict) =~= inputs@ + parsed_inputs(
                        inps.skip(i + 1),
                        dict,
                    ));
                }
            }
            i = i + 1;
        }
        proof {
            assert(inps.skip(inps.len() as int) =~= Seq::<Seq<char>>::empty());
            assert(inputs@ + Seq::<(usize, usize, FormKind)>::empty() =~= inputs@);
            assert(controls@ + Seq::<usize>::empty() =~= controls@);
        }
        let n = Node {
            raw_node,
            controls,
            inputs,
            outputs: Vec::new(),
            form: Form { kind: FormKind::Full, devices: Vec::new() },
        };
        proof {
            assert(n@.outputs =~= Seq::<TensorV>::empty());
            assert(n@.form.devices =~= Seq::<usize>::empty());
        }
        n
    }

    /// `None` until the node is put on devices; then whether more than one
    /// replica exists.
    pub fn replicated(&self) -> (r: Option<bool>)
        ensures
            r == (if self@.form.ndev() == 0 {
                Option::<bool>::None
            } else {
                Option::<bool>::Some(self@.form.ndev() > 1)
            }),
    {
        match self.form.devices.len() {
            0 => None,
            1 => Some(false),
            _ => Some(true),
        }
    }

    /// The name of replica `index` of this node.
    pub fn replica(&self, index: usize) -> (r: String)
        ensures
            r@ == replica_name_spec(self@.raw_node.name, index as nat),
    {
        replica_name(&self.raw_node.name, index)
    }

    /// A fresh auxiliary operator owned by this node: it carries the given
    /// kind, starts under this node's name, and is tagged as belonging to it.
    pub fn make_node(&self, op: String) -> (n: OpDef)
        ensures
            n@.name == self@.raw_node.name,
            n@.op == op@,
            n@.input == Seq::<Seq<char>>::empty(),
            n@.device == Seq::<char>::empty(),
            n@.attr == attr_store(
                Seq::<(Seq<char>, AttrV)>::empty(),
                "_tge_belong_to"@,
                AttrV::Bytes(self@.raw_node.name),
            ),
    {
        let mut n = OpDef {
            name: self.raw_node.name.clone(),
            op,
            input: Vec::new(),
            device: String::new(),
            attr: Vec::new(),
        };
        proof {
            assert(n@.input =~= Seq::<Seq<char>>::empty());
            assert(n@.attr =~= Seq::<(Seq<char>, AttrV)>::empty());
        }
        crate::attr::set_belong_to(&mut n, &self.raw_node.name);
        n
    }

    /// Assigns the node's replica devices; allowed exactly once.
    pub fn put_on_devices(&mut self, devices: &Vec<usize>)
        requires
            old(self)@.form.ndev() == 0,
        ensures
            final(self)@ == (NodeV {
                form: FormV { kind: old(self)@.form.kind, devices: devices@ },
                ..old(self)@
            }),
    {
        self.form.devices = crate::names::clone_usizes(devices);
    }

    /// Grows the output vector until port `index` exists and returns its
    /// tensor.  Existing tensors are untouched; new ones start with an
    /// empty cache.
    pub fn get_output(&mut self, index: usize) -> (t: &Tensor)
        requires
            index < usize::MAX,
        ensures
            final(self)@.outputs.len() >= index + 1,
            final(self)@.outputs.len() == (if old(self)@.outputs.len() >= index + 1 {
                old(self)@.outputs.len() as int
            } else {
                index + 1
            }),
            forall|j: int|
                0 <= j < old(self)@.outputs.len() ==> final(self)@.outputs[j] == old(self)@.outputs[j],
            forall|j: int|
                old(self)@.outputs.len() <= j < final(self)@.outputs.len() ==> final(self)@.outputs[j] == (TensorV { index: j as usize, forms: Seq::empty() }),
            final(self)@.raw_node == old(self)@.raw_node,
            final(self)@.controls == old(self)@.controls,
            final(self)@.inputs == old(self)@.inputs,
            final(self)@.form == old(self)@.form,
            t@ == final(self)@.outputs[index as int],
    {
        let ghost orig = self.outputs@;
        while self.outputs.len() <= index
            invariant
                orig == old(self).outputs@,
                orig.len() <= self.outputs@.len(),
                self.outputs@.len() <= index + 1 || self.outputs@.len() == orig.len(),
                forall|j: int| 0 <= j < orig.len() ==> self.outputs@[j] == orig[j],
                forall|j: int|
                    orig.len() <= j < self.outputs@.len() ==> (#[trigger] self.outputs@[j])@ == (
                    TensorV { index: j as usize, forms: Seq::empty() }),
                self.raw_node == old(self).raw_node,
                self.controls@ == old(self).controls@,
                self.inputs@ == old(self).inputs@,
                self.form == old(self).form,
            decreases index + 1 - self.outputs@.len(),
        {
            let next = self.outputs.len();
            self.outputs.push(Tensor::new(next));
        }
        proof {
            assert forall|j: int| 0 <= j < old(self)@.outputs.len() implies self@.outputs[j] == old(
                self,
            )@.outputs[j] by {
                assert(self.outputs@[j] == orig[j]);
            }
            assert forall|j: int|
                old(self)@.outputs.len() <= j < self@.outputs.len() implies self@.outputs[j] == (
            TensorV { index: j as usize, forms: Seq::empty() }) by {
                assert(self.outputs@[j]@ == (TensorV { index: j as usize, forms: Seq::empty() }));
            }
        }
        &self.outputs[index]
    }
}

} // verus!
