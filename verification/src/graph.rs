//! The graph: a topologically ordered vector of nodes with a name
//! dictionary, and the target sink the compiled graph is emitted into.
use vstd::prelude::*;
use vstd::multiset::Multiset;
use crate::attr::{attrs_view, AttrV, AttrValue, OpDef, OpDefV};
use crate::form::{Form, FormKind, FormV};
use crate::names::{
    all_digits, dec_val, parse_dec, prefix_until, scan_until, str_eq, lemma_prefix_until,
};
use crate::node::{
    inputs_resolvable, lemma_parsed_bounded, lemma_parsed_stable, parsed_controls, parsed_inputs,
    ref_resolvable, Node, NodeV,
};

verus! {

// ---------------------------------------------------------------------------
// Target
// ---------------------------------------------------------------------------

/// The output sink: the emitted operator list, the device table, link
/// bandwidths, and the routing-path table.
pub struct Target {
    /// The emitted graph; append-only during a compile.
    pub pb: Vec<OpDef>,
    /// Device strings; form device indices point into this table.
    pub devices: Vec<String>,
    /// Bandwidth of each link.
    pub links: Vec<u64>,
    /// Entry `i * n + j` lists the links a transfer from device `i` to
    /// device `j` uses.
    pub paths: Vec<Vec<usize>>,
}

pub ghost struct TargetV {
    pub pb: Seq<OpDefV>,
    pub devices: Seq<Seq<char>>,
    pub links: Seq<u64>,
    pub paths: Seq<Seq<usize>>,
}

impl View for Target {
    type V = TargetV;

    open spec fn view(&self) -> TargetV {
        TargetV {
            pb: Seq::new(self.pb@.len(), |i: int| self.pb@[i]@),
            devices: self.devices.deep_view(),
            links: self.links@,
            paths: self.paths.deep_view(),
        }
    }
}

impl Target {
    pub fn new(pb: Vec<OpDef>, devices: Vec<String>, links: Vec<u64>, paths: Vec<Vec<usize>>) -> (t:
        Target)
        ensures
            t@.pb == Seq::new(pb@.len(), |i: int| pb@[i]@),
            t@.devices == devices.deep_view(),
            t@.links == links@,
            t@.paths == paths.deep_view(),
    {
        Target { pb, devices, links, paths }
    }

    /// Number of devices in the table.
    pub fn ndev(&self) -> (n: usize)
        ensures
            n == self@.devices.len(),
    {
        self.devices.len()
    }

    /// The device string at `device_id`.
    pub fn device(&self, device_id: usize) -> (d: String)
        requires
            device_id < self@.devices.len(),
        ensures
            d@ == self@.devices[device_id as int],
    {
        self.devices[device_id].clone()
    }

    /// Appends one operator to the emitted graph.
    pub fn push_op(&mut self, op: OpDef)
        ensures
            final(self)@.pb == old(self)@.pb + seq![op@],
            final(self)@.devices == old(self)@.devices,
            final(self)@.links == old(self)@.links,
            final(self)@.paths == old(self)@.paths,
    {
        self.pb.push(op);
        proof {
            assert(self@.pb =~= old(self)@.pb + seq![op@]);
        }
    }
}

// ---------------------------------------------------------------------------
// Input references
// ---------------------------------------------------------------------------

/// Whether an input reference is a control dependency (`"^name"`).
pub open spec fn is_control_ref(s: Seq<char>) -> bool {
    s.len() > 0 && s[0] == '^'
}

/// The producer a control reference names.
pub open spec fn control_ref_name(s: Seq<char>) -> Seq<char> {
    s.skip(1)
}

/// Whether a data reference carries an explicit output port (`"name:k"`).
pub open spec fn ref_has_port(s: Seq<char>) -> bool {
    prefix_until(s, ':') < s.len()
}

/// The producer name of a data reference.
pub open spec fn ref_name(s: Seq<char>) -> Seq<char> {
    s.take(prefix_until(s, ':') as int)
}

/// The digits after the colon of a data reference.
pub open spec fn ref_port_digits(s: Seq<char>) -> Seq<char> {
    s.skip(prefix_until(s, ':') as int + 1)
}

/// The output port of a data reference; port 0 when none is written.
pub open spec fn ref_port(s: Seq<char>) -> nat {
    if ref_has_port(s) {
        dec_val(ref_port_digits(s))
    } else {
        0
    }
}

/// A data reference the engine accepts: if a port is written, it is a
/// non-empty digit string whose value fits.
pub open spec fn valid_input_ref(s: Seq<char>) -> bool {
    ref_has_port(s) ==> {
        &&& ref_port_digits(s).len() > 0
        &&& all_digits(ref_port_digits(s))
        &&& dec_val(ref_port_digits(s)) <= usize::MAX
    }
}

/// Splits a data reference into producer name and output port:
/// `"name"` names port 0, `"name:k"` names port `k`.
pub fn parse_input(x: &str) -> (r: (String, usize))
    requires
        valid_input_ref(x@),
    ensures
        r.0@ == ref_name(x@),
        r.1 == ref_port(x@),
{
    proof {
        lemma_prefix_until(x@, ':');
        assert(x@.skip(0) =~= x@);
    }
    let len = x.unicode_len();
    let cut = scan_until(x, 0, ':');
    let name = String::from_str(x.substring_char(0, cut));
    proof {
        assert(name@ =~= ref_name(x@));
    }
    if cut < len {
        let digits = x.substring_char(cut + 1, len);
        proof {
            assert(digits@ =~= ref_port_digits(x@));
        }
        let port = parse_dec(digits);
        (name, port)
    } else {
        (name, 0)
    }
}

// ---------------------------------------------------------------------------
// The name dictionary
// ---------------------------------------------------------------------------

/// The view of a name dictionary.
pub open spec fn dict_view(dict: Seq<(String, usize)>) -> Seq<(Seq<char>, usize)> {
    Seq::new(dict.len(), |i: int| (dict[i].0@, dict[i].1))
}

/// First-match lookup of a name.
pub open spec fn dict_lookup(dict: Seq<(Seq<char>, usize)>, name: Seq<char>) -> Option<usize>
    decreases dict.len(),
{
    if dict.len() == 0 {
        None
    } else if dict[0].0 == name {
        Some(dict[0].1)
    } else {
        dict_lookup(dict.skip(1), name)
    }
}

/// A name with an entry is always found.
pub proof fn lemma_dict_lookup_present(dict: Seq<(Seq<char>, usize)>, name: Seq<char>, i: int)
    requires
        0 <= i < dict.len(),
        dict[i].0 == name,
    ensures
        dict_lookup(dict, name) is Some,
    decreases i,
{
    if dict[0].0 != name {
        assert(dict.skip(1)[i - 1] == dict[i]);
        lemma_dict_lookup_present(dict.skip(1), name, i - 1);
    }
}

/// Appending an entry preserves every earlier lookup.
pub proof fn lemma_dict_lookup_append(
    dict: Seq<(Seq<char>, usize)>,
    entry: (Seq<char>, usize),
    name: Seq<char>,
)
    requires
        dict_lookup(dict, name) is Some,
    ensures
        dict_lookup(dict + seq![entry], name) == dict_lookup(dict, name),
    decreases dict.len(),
{
    if dict.len() > 0 {
        assert((dict + seq![entry])[0] == dict[0]);
        if dict[0].0 != name {
            assert((dict + seq![entry]).skip(1) =~= dict.skip(1) + seq![entry]);
            lemma_dict_lookup_append(dict.skip(1), entry, name);
        }
    }
}

/// Looks a name up in a dictionary.
pub fn dict_get(dict: &Vec<(String, usize)>, name: &str) -> (r: Option<usize>)
    ensures
        r == dict_lookup(dict_view(dict@), name@),
{
    let ghost dv = dict_view(dict@);
    proof {
        assert(dv.skip(0) =~= dv);
    }
    let mut i: usize = 0;
    while i < dict.len()
        invariant
            i <= dict@.len(),
            dv == dict_view(dict@),
            dict_lookup(dv, name@) == dict_lookup(dv.skip(i as int), name@),
        decreases dict@.len() - i,
    {
        let hit = str_eq(dict[i].0.as_str(), name);
        proof {
            assert(dv.skip(i as int)[0] == dv[i as int]);
            assert(dv.skip(i as int).skip(1) =~= dv.skip(i + 1));
        }
        if hit {
            return Some(dict[i].1);
        }
        i = i + 1;
    }
    proof {
        assert(dv.skip(dv.len() as int) =~= Seq::<(Seq<char>, usize)>::empty());
    }
    None
}

// ---------------------------------------------------------------------------
// Graph
// ---------------------------------------------------------------------------

/// The graph under compilation.  The node vector is topologically ordered:
/// every data input of a node refers to a node at a smaller index.
pub struct Graph {
    pub nodes: Vec<Node>,
    pub name_dict: Vec<(String, usize)>,
}

pub ghost struct GraphV {
    pub nodes: Seq<NodeV>,
    pub name_dict: Seq<(Seq<char>, usize)>,
}

impl View for Graph {
    type V = GraphV;

    open spec fn view(&self) -> GraphV {
        GraphV {
            nodes: Seq::new(self.nodes@.len(), |i: int| self.nodes@[i]@),
            name_dict: dict_view(self.name_dict@),
        }
    }
}

/// The dictionary mirrors the node vector entry for entry.
pub open spec fn graph_dict_wf(g: GraphV) -> bool {
    &&& g.name_dict.len() == g.nodes.len()
    &&& forall|i: int|
        0 <= i < g.nodes.len() ==> #[trigger] g.name_dict[i] == (g.nodes[i].raw_node.name, i as usize)
}

/// Every data input of every node refers to a strictly earlier node.
pub open spec fn graph_topological(g: GraphV) -> bool {
    forall|i: int, k: int|
        0 <= i < g.nodes.len() && 0 <= k < g.nodes[i].inputs.len() ==> (
        #[trigger] g.nodes[i].inputs[k]).0 < i
}

/// Every control dependency of every node refers to some node.
pub open spec fn graph_controls_wf(g: GraphV) -> bool {
    forall|i: int, k: int|
        0 <= i < g.nodes.len() && 0 <= k < g.nodes[i].controls.len() ==> (
        #[trigger] g.nodes[i].controls[k]) < g.nodes.len()
}

/// A found index belongs to some entry of the dictionary.
pub proof fn lemma_dict_lookup_in(dict: Seq<(Seq<char>, usize)>, name: Seq<char>)
    requires
        dict_lookup(dict, name) is Some,
    ensures
        exists|i: int|
            0 <= i < dict.len() && #[trigger] dict[i] == (name, dict_lookup(dict, name).unwrap()),
    decreases dict.len(),
{
    if dict[0].0 == name {
        assert(dict[0] == (name, dict_lookup(dict, name).unwrap()));
    } else {
        lemma_dict_lookup_in(dict.skip(1), name);
        let i = choose|i: int|
            0 <= i < dict.skip(1).len() && #[trigger] dict.skip(1)[i] == (
                name,
                dict_lookup(dict.skip(1), name).unwrap(),
            );
        assert(dict[i + 1] == dict.skip(1)[i]);
    }
}

// ---------------------------------------------------------------------------
// Building the graph
// ---------------------------------------------------------------------------

/// The views of a list of operator definitions.
pub open spec fn ops_view(s: Seq<OpDef>) -> Seq<OpDefV> {
    Seq::new(s.len(), |i: int| s[i]@)
}

/// Every data reference of the list is well-formed.
pub open spec fn refs_valid(inps: Seq<Seq<char>>) -> bool {
    forall|i: int| 0 <= i < inps.len() ==> is_control_ref(#[trigger] inps[i]) || valid_input_ref(inps[i])
}

/// The producer name a reference points at, control or data.
pub open spec fn ref_target(s: Seq<char>) -> Seq<char> {
    if is_control_ref(s) {
        control_ref_name(s)
    } else {
        ref_name(s)
    }
}

/// The input list is already topologically ordered: every reference of
/// every definition names an earlier definition.
pub open spec fn defs_ordered(defs: Seq<OpDefV>) -> bool {
    forall|i: int, k: int|
        0 <= i < defs.len() && 0 <= k < defs[i].input.len() ==> exists|j: int|
            0 <= j < i && ref_target(#[trigger] defs[i].input[k]) == defs[j].name
}

/// A node as the builder leaves it: inputs and controls parsed through the
/// dictionary, no outputs yet, form not yet assigned.
pub open spec fn node_fresh(n: NodeV, dict: Seq<(Seq<char>, usize)>) -> bool {
    &&& n.inputs == parsed_inputs(n.raw_node.input, dict)
    &&& n.controls == parsed_controls(n.raw_node.input, dict)
    &&& inputs_resolvable(n.raw_node.input, dict)
    &&& n.outputs.len() == 0
    &&& n.form.kind == FormKind::Full
    &&& n.form.devices.len() == 0
}

/// The raw operator of each node, in node order.
pub open spec fn node_raws(nodes: Seq<NodeV>) -> Seq<OpDefV> {
    Seq::new(nodes.len(), |i: int| nodes[i].raw_node)
}

/// Splitting off the head of a suffix moves one element into the
/// multiset.
pub proof fn lemma_suffix_multiset<A>(s: Seq<A>, k: int)
    requires
        0 <= k < s.len(),
    ensures
        s.skip(k).to_multiset() == s.skip(k + 1).to_multiset().insert(s[k]),
{
    broadcast use vstd::seq_lib::group_to_multiset_ensures;
    broadcast use vstd::multiset::group_multiset_axioms;

    assert(s.skip(k).remove(0) =~= s.skip(k + 1));
    assert(s.skip(k)[0] == s[k]);
    assert(s.skip(k).to_multiset().contains(s[k]));
    let m = s.skip(k).to_multiset();
    assert(s.skip(k + 1).to_multiset() =~= m.remove(s[k]));
    assert(m.remove(s[k]).insert(s[k]) =~= m);
}

/// An empty sequence adds nothing to a multiset.
pub proof fn lemma_multiset_pad(a: Seq<OpDefV>, b: Seq<OpDefV>)
    requires
        b.len() == 0,
    ensures
        a.to_multiset().add(b.to_multiset()) == a.to_multiset(),
        b.to_multiset().add(a.to_multiset()) == a.to_multiset(),
{
    broadcast use vstd::seq_lib::group_to_multiset_ensures;
    broadcast use vstd::multiset::group_multiset_axioms;

    assert(b.to_multiset().len() == 0);
    assert(b.to_multiset() =~= Multiset::<OpDefV>::empty());
    assert(a.to_multiset().add(b.to_multiset()) =~= a.to_multiset());
    assert(b.to_multiset().add(a.to_multiset()) =~= a.to_multiset());
}

/// Moving the head of the unprocessed suffix into either the admitted
/// nodes or the deferred rest preserves the total multiset.
pub proof fn lemma_step_multiset(
    raws: Seq<OpDefV>,
    nxt: Seq<OpDefV>,
    rv: Seq<OpDefV>,
    dv: Seq<OpDefV>,
    k: int,
    accepted: bool,
)
    requires
        0 <= k < rv.len(),
        raws.to_multiset().add(nxt.to_multiset()).add(rv.skip(k).to_multiset())
            == dv.to_multiset(),
    ensures
        accepted ==> raws.push(rv[k]).to_multiset().add(nxt.to_multiset()).add(
            rv.skip(k + 1).to_multiset(),
        ) == dv.to_multiset(),
        !accepted ==> raws.to_multiset().add(nxt.push(rv[k]).to_multiset()).add(
            rv.skip(k + 1).to_multiset(),
        ) == dv.to_multiset(),
{
    broadcast use vstd::seq_lib::group_to_multiset_ensures;
    broadcast use vstd::multiset::group_multiset_axioms;

    lemma_suffix_multiset(rv, k);
    assert(raws.push(rv[k]).to_multiset().add(nxt.to_multiset()).add(
        rv.skip(k + 1).to_multiset(),
    ) =~= raws.to_multiset().add(nxt.to_multiset()).add(rv.skip(k).to_multiset()));
    assert(raws.to_multiset().add(nxt.push(rv[k]).to_multiset()).add(
        rv.skip(k + 1).to_multiset(),
    ) =~= raws.to_multiset().add(nxt.to_multiset()).add(rv.skip(k).to_multiset()));
}

/// With pairwise-distinct names, the dictionary finds each node at its
/// own index.
pub proof fn lemma_dict_lookup_index(dict: Seq<(Seq<char>, usize)>, name: Seq<char>, i: int)
    requires
        0 <= i < dict.len(),
        dict[i].0 == name,
        forall|j: int| 0 <= j < i ==> (#[trigger] dict[j]).0 != name,
    ensures
        dict_lookup(dict, name) == Some(dict[i].1),
    decreases i,
{
    if i > 0 {
        assert(dict[0].0 != name);
        assert(dict.skip(1)[i - 1] == dict[i]);
        assert forall|j: int| 0 <= j < i - 1 implies (#[trigger] dict.skip(1)[j]).0 != name by {
            assert(dict.skip(1)[j] == dict[j + 1]);
        }
        lemma_dict_lookup_index(dict.skip(1), name, i - 1);
    }
}

/// Whether every reference of `def` already resolves in the dictionary.
fn admissible(g: &Graph, def: &OpDef) -> (r: bool)
    requires
        refs_valid(def@.input),
    ensures
        r == inputs_resolvable(def@.input, g@.name_dict),
{
    let ghost inps = def@.input;
    let mut i: usize = 0;
    while i < def.input.len()
        invariant
            i <= inps.len(),
            inps == def@.input,
            refs_valid(inps),
            forall|j: int| 0 <= j < i ==> ref_resolvable(#[trigger] inps[j], g@.name_dict),
        decreases inps.len() - i,
    {
        let s: &String = &def.input[i];
        proof {
            assert(s@ == inps[i as int]);
        }
        let is_ctrl = s.unicode_len() > 0 && s.as_str().get_char(0) == '^';
        if is_ctrl {
            let rest = s.as_str().substring_char(1, s.unicode_len());
            proof {
                assert(rest@ =~= control_ref_name(inps[i as int]));
            }
            if dict_get(&g.name_dict, rest).is_none() {
                return false;
            }
        } else {
            let (name, _port) = parse_input(s.as_str());
            if dict_get(&g.name_dict, name.as_str()).is_none() {
                return false;
            }
        }
        i = i + 1;
    }
    true
}

/// Copies a list of operator definitions.
pub fn clone_ops(v: &Vec<OpDef>) -> (r: Vec<OpDef>)
    ensures
        ops_view(r@) == ops_view(v@),
        r@.len() == v@.len(),
{
    let mut r: Vec<OpDef> = Vec::new();
    let mut i: usize = 0;
    while i < v.len()
        invariant
            i <= v.len(),
            r@.len() == i,
            forall|j: int| 0 <= j < i ==> (#[trigger] r@[j])@ == v@[j]@,
        decreases v.len() - i,
    {
        r.push(v[i].clone());
        i = i + 1;
    }
    proof {
        assert(ops_view(r@) =~= ops_view(v@));
    }
    r
}

impl Graph {
    /// Admits one definition whose references all resolve: parses it
    /// against the current dictionary and appends the node and its
    /// dictionary entry.
    #[verifier::rlimit(50)]
    #[verifier::spinoff_prover]
    fn accept(&mut self, def: &OpDef)
        requires
            graph_dict_wf(old(self)@),
            graph_topological(old(self)@),
            graph_controls_wf(old(self)@),
            forall|i: int|
                0 <= i < old(self)@.nodes.len() ==> node_fresh(
                    #[trigger] old(self)@.nodes[i],
                    old(self)@.name_dict,
                ),
            inputs_resolvable(def@.input, old(self)@.name_dict),
        ensures
            final(self)@.nodes == old(self)@.nodes + seq![
                NodeV {
                    raw_node: def@,
                    inputs: parsed_inputs(def@.input, old(self)@.name_dict),
                    controls: parsed_controls(def@.input, old(self)@.name_dict),
                    outputs: Seq::empty(),
                    form: FormV { kind: FormKind::Full, devices: Seq::empty() },
                },
            ],
            final(self)@.name_dict == old(self)@.name_dict + seq![
                (def@.name, old(self)@.nodes.len() as usize),
            ],
            graph_dict_wf(final(self)@),
            graph_topological(final(self)@),
            graph_controls_wf(final(self)@),
            forall|i: int|
                0 <= i < final(self)@.nodes.len() ==> node_fresh(
                    #[trigger] final(self)@.nodes[i],
                    final(self)@.name_dict,
                ),
    {
        let node = Node::new(self, def.clone());
        let ghost old_nodes = self@.nodes;
        let ghost old_dict = self@.name_dict;
        let idx = self.nodes.len();
        let name = node.raw_node.name.clone();
        let ghost nv = node@;
        self.nodes.push(node);
        self.name_dict.push((name, idx));
        proof {
            let ghost entry = (nv.raw_node.name, idx);
            assert(self@.nodes =~= old_nodes + seq![nv]);
            assert(self@.name_dict =~= old_dict + seq![entry]);
            assert(nv == (NodeV {
                raw_node: def@,
                inputs: parsed_inputs(def@.input, old_dict),
                controls: parsed_controls(def@.input, old_dict),
                outputs: Seq::empty(),
                form: FormV { kind: FormKind::Full, devices: Seq::empty() },
            }));
            assert(graph_dict_wf(self@));
            assert forall|i: int|
                0 <= i < self@.nodes.len() implies node_fresh(
                #[trigger] self@.nodes[i],
                self@.name_dict,
            ) by {
                if i < old_nodes.len() {
                    assert(node_fresh(old_nodes[i], old_dict));
                    lemma_parsed_stable(old_nodes[i].raw_node.input, old_dict, entry);
                } else {
                    assert(self@.nodes[i] == nv);
                    lemma_parsed_stable(nv.raw_node.input, old_dict, entry);
                }
            }
            assert forall|i: int, k2: int|
                0 <= i < self@.nodes.len() && 0 <= k2 < self@.nodes[i].inputs.len() implies (
            #[trigger] self@.nodes[i].inputs[k2]).0 < i by {
                if i < old_nodes.len() {
                    assert(old_nodes[i].inputs[k2].0 < i);
                } else {
                    lemma_parsed_bounded(nv.raw_node.input, old_dict, idx as int);
                }
            }
            assert forall|i: int, k2: int|
                0 <= i < self@.nodes.len() && 0 <= k2 < self@.nodes[i].controls.len() implies (
            #[trigger] self@.nodes[i].controls[k2]) < self@.nodes.len() by {
                if i < old_nodes.len() {
                    assert(old_nodes[i].controls[k2] < old_nodes.len());
                } else {
                    lemma_parsed_bounded(nv.raw_node.input, old_dict, idx as int);
                }
            }
        }
    }

    /// One admission pass: takes every remaining definition whose
    /// references resolve, in order, and returns the deferred rest.
    #[verifier::rlimit(100)]
    #[verifier::spinoff_prover]
    fn admission_pass(&mut self, remaining: &Vec<OpDef>, Ghost(dv): Ghost<Seq<OpDefV>>) -> (next:
        Vec<OpDef>)
        requires
            graph_dict_wf(old(self)@),
            graph_topological(old(self)@),
            graph_controls_wf(old(self)@),
            forall|i: int|
                0 <= i < old(self)@.nodes.len() ==> node_fresh(
                    #[trigger] old(self)@.nodes[i],
                    old(self)@.name_dict,
                ),
            forall|i: int|
                0 <= i < old(self)@.nodes.len() ==> exists|j: int|
                    0 <= j < dv.len() && (#[trigger] old(self)@.nodes[i]).raw_node == dv[j],
            old(self)@.nodes.len() + remaining@.len() == dv.len(),
            node_raws(old(self)@.nodes).to_multiset().add(
                ops_view(remaining@).to_multiset(),
            ) == dv.to_multiset(),
            forall|x: int|
                0 <= x < remaining@.len() ==> refs_valid((#[trigger] remaining@[x])@.input)
                    && exists|j: int| 0 <= j < dv.len() && remaining@[x]@ == dv[j],
            defs_ordered(dv) ==> ops_view(remaining@) == dv.skip(old(self)@.nodes.len() as int)
                && (forall|i: int|
                0 <= i < old(self)@.nodes.len() ==> (#[trigger] old(self)@.nodes[i]).raw_node
                    == dv[i]),
        ensures
            graph_dict_wf(final(self)@),
            graph_topological(final(self)@),
            graph_controls_wf(final(self)@),
            forall|i: int|
                0 <= i < final(self)@.nodes.len() ==> node_fresh(
                    #[trigger] final(self)@.nodes[i],
                    final(self)@.name_dict,
                ),
            forall|i: int|
                0 <= i < final(self)@.nodes.len() ==> exists|j: int|
                    0 <= j < dv.len() && (#[trigger] final(self)@.nodes[i]).raw_node == dv[j],
            final(self)@.nodes.len() + next@.len() == old(self)@.nodes.len() + remaining@.len(),
            final(self)@.nodes.len() >= old(self)@.nodes.len(),
            node_raws(final(self)@.nodes).to_multiset().add(ops_view(next@).to_multiset())
                == dv.to_multiset(),
            forall|x: int|
                0 <= x < next@.len() ==> refs_valid((#[trigger] next@[x])@.input) && exists|j: int|
                    0 <= j < dv.len() && next@[x]@ == dv[j],
            defs_ordered(dv) ==> next@.len() == 0 && (forall|i: int|
                0 <= i < final(self)@.nodes.len() ==> (#[trigger] final(self)@.nodes[i]).raw_node
                    == dv[i]),
    {
        let ghost base = self@.nodes.len() as int;
        let mut next: Vec<OpDef> = Vec::new();
        proof {
            assert(ops_view(next@) =~= Seq::<OpDefV>::empty());
            assert(ops_view(remaining@).skip(0) =~= ops_view(remaining@));
            lemma_multiset_pad(ops_view(remaining@), ops_view(next@));
            lemma_multiset_pad(node_raws(self@.nodes), ops_view(next@));
        }
        let mut k: usize = 0;
        while k < remaining.len()
            invariant
                k <= remaining@.len(),
                graph_dict_wf(self@),
                graph_topological(self@),
                graph_controls_wf(self@),
                forall|i: int|
                    0 <= i < self@.nodes.len() ==> node_fresh(
                        #[trigger] self@.nodes[i],
                        self@.name_dict,
                    ),
                forall|i: int|
                    0 <= i < self@.nodes.len() ==> exists|j: int|
                        0 <= j < dv.len() && (#[trigger] self@.nodes[i]).raw_node == dv[j],
                base <= self@.nodes.len(),
                self@.nodes.len() + next@.len() == base + k,
                node_raws(self@.nodes).to_multiset().add(ops_view(next@).to_multiset()).add(
                    ops_view(remaining@).skip(k as int).to_multiset(),
                ) == dv.to_multiset(),
                forall|x: int|
                    0 <= x < next@.len() ==> refs_valid((#[trigger] next@[x])@.input) && exists|
                        j: int,
                    | 0 <= j < dv.len() && next@[x]@ == dv[j],
                defs_ordered(dv) ==> next@.len() == 0 && self@.nodes.len() == base + k && (forall|
                    i: int,
                | 0 <= i < self@.nodes.len() ==> (#[trigger] self@.nodes[i]).raw_node == dv[i]),
            decreases remaining@.len() - k,
        {
            proof {
                assert(remaining@[k as int]@ == ops_view(remaining@)[k as int]);
            }
            let ghost rv = ops_view(remaining@);
            let ghost next_pre = ops_view(next@);
            let ghost raws_pre = node_raws(self@.nodes);
            let ok = admissible(self, &remaining[k]);
            if ok {
                let ghost old_nodes = self@.nodes;
                self.accept(&remaining[k]);
                proof {
                    assert(node_raws(self@.nodes) =~= raws_pre.push(remaining@[k as int]@));
                    lemma_step_multiset(raws_pre, next_pre, rv, dv, k as int, true);
                    assert forall|i: int| 0 <= i < self@.nodes.len() implies exists|j: int|
                        0 <= j < dv.len() && (#[trigger] self@.nodes[i]).raw_node == dv[j] by {
                        if i < old_nodes.len() {
                            assert(exists|j: int|
                                0 <= j < dv.len() && old_nodes[i].raw_node == dv[j]);
                        } else {
                            let j = choose|j: int|
                                0 <= j < dv.len() && remaining@[k as int]@ == dv[j];
                            assert(self@.nodes[i].raw_node == dv[j]);
                        }
                    }
                    if defs_ordered(dv) {
                        assert(base + remaining@.len() == dv.len());
                        assert(dv.skip(base).len() == dv.len() - base);
                        assert(ops_view(remaining@)[k as int] == dv.skip(base)[k as int]);
                        assert(dv.skip(base)[k as int] == dv[base + k]);
                        assert(remaining@[k as int]@ == dv[base + k]);
                        assert(self@.nodes[base + k].raw_node == dv[base + k]);
                        assert forall|i: int|
                            0 <= i < self@.nodes.len() implies (#[trigger] self@.nodes[i]).raw_node
                            == dv[i] by {
                            if i < old_nodes.len() {
                                assert(old_nodes[i].raw_node == dv[i]);
                            }
                        }
                    }
                }
            } else {
                proof {
                    if defs_ordered(dv) {
                        let i = base + k;
                        assert(base + remaining@.len() == dv.len());
                        assert(dv.skip(base).len() == dv.len() - base);
                        assert(remaining@[k as int]@ == dv.skip(base)[k as int]);
                        assert(dv.skip(base)[k as int] == dv[i]);
                        assert(self@.nodes.len() == i);
                        let inps = dv[i].input;
                        assert forall|k2: int| 0 <= k2 < inps.len() implies ref_resolvable(
                            #[trigger] inps[k2],
                            self@.name_dict,
                        ) by {
                            let j = choose|j: int| 0 <= j < i && ref_target(inps[k2]) == dv[j].name;
                            assert(self@.nodes[j].raw_node == dv[j]);
                            assert(self@.name_dict[j] == (dv[j].name, j as usize));
                            lemma_dict_lookup_present(self@.name_dict, dv[j].name, j);
                            assert(refs_valid(remaining@[k as int]@.input));
                        }
                        assert(false);
                    }
                }
                next.push(remaining[k].clone());
                proof {
                    assert(ops_view(next@) =~= next_pre.push(rv[k as int]));
                    lemma_step_multiset(raws_pre, next_pre, rv, dv, k as int, false);
                }
            }
            k = k + 1;
        }
        proof {
            assert(ops_view(remaining@).skip(remaining@.len() as int) =~= Seq::<OpDefV>::empty());
            lemma_multiset_pad(
                ops_view(next@),
                ops_view(remaining@).skip(remaining@.len() as int),
            );
            assert(node_raws(self@.nodes).to_multiset().add(ops_view(next@).to_multiset()).add(
                ops_view(remaining@).skip(remaining@.len() as int).to_multiset(),
            ) == node_raws(self@.nodes).to_multiset().add(ops_view(next@).to_multiset())) by {
                broadcast use vstd::multiset::group_multiset_axioms;

                assert(ops_view(remaining@).skip(
                    remaining@.len() as int,
                ).to_multiset().len() == 0) by {
                    broadcast use vstd::seq_lib::group_to_multiset_ensures;

                }
                assert(ops_view(remaining@).skip(remaining@.len() as int).to_multiset()
                    =~= Multiset::<OpDefV>::empty());
                assert(node_raws(self@.nodes).to_multiset().add(
                    ops_view(next@).to_multiset(),
                ).add(Multiset::<OpDefV>::empty()) =~= node_raws(self@.nodes).to_multiset().add(
                    ops_view(next@).to_multiset(),
                ));
            }
        }
        next
    }

    /// Ingests a list of operator definitions.  Definitions are admitted as
    /// soon as all their references resolve; the result is topologically
    /// ordered.  `None` when admission stops making progress, which happens
    /// exactly on inputs whose remaining definitions all wait on each other
    /// or on missing names; an input that is already ordered always builds.
    #[verifier::rlimit(100)]
    #[verifier::spinoff_prover]
    pub fn new(defs: &Vec<OpDef>) -> (r: Option<Graph>)
        requires
            forall|i: int| 0 <= i < defs@.len() ==> refs_valid((#[trigger] defs@[i])@.input),
        ensures
            match r {
                Some(g) => {
                    &&& graph_dict_wf(g@)
                    &&& graph_topological(g@)
                    &&& graph_controls_wf(g@)
                    &&& g@.nodes.len() == defs@.len()
                    &&& forall|i: int|
                        0 <= i < g@.nodes.len() ==> node_fresh(
                            #[trigger] g@.nodes[i],
                            g@.name_dict,
                        )
                    &&& forall|i: int|
                        0 <= i < g@.nodes.len() ==> exists|j: int|
                            0 <= j < defs@.len() && (#[trigger] g@.nodes[i]).raw_node == ops_view(
                                defs@,
                            )[j]
                    &&& node_raws(g@.nodes).to_multiset() == ops_view(defs@).to_multiset()
                    &&& (forall|i: int, j: int|
                        0 <= i < j < g@.nodes.len() ==> g@.nodes[i].raw_node.name
                            != g@.nodes[j].raw_node.name) ==> forall|i: int|
                        0 <= i < g@.nodes.len() ==> #[trigger] dict_lookup(
                            g@.name_dict,
                            g@.nodes[i].raw_node.name,
                        ) == Some(i as usize)
                },
                None => true,
            },
            defs_ordered(ops_view(defs@)) ==> r is Some && (forall|i: int|
                0 <= i < defs@.len() ==> (#[trigger] r.unwrap()@.nodes[i]).raw_node == ops_view(
                    defs@,
                )[i]),
    {
        let ghost dv = ops_view(defs@);
        let mut g = Graph { nodes: Vec::new(), name_dict: Vec::new() };
        let mut remaining: Vec<OpDef> = clone_ops(defs);
        proof {
            assert(g@.nodes =~= Seq::<NodeV>::empty());
            assert(g@.name_dict =~= Seq::<(Seq<char>, usize)>::empty());
            assert(ops_view(remaining@) =~= dv.skip(0));
            assert(ops_view(remaining@) =~= dv);
            assert(node_raws(g@.nodes) =~= Seq::<OpDefV>::empty());
            lemma_multiset_pad(dv, node_raws(g@.nodes));
            assert(node_raws(g@.nodes).to_multiset().add(ops_view(remaining@).to_multiset())
                == dv.to_multiset());
            assert forall|x: int| 0 <= x < remaining@.len() implies refs_valid(
                (#[trigger] remaining@[x])@.input,
            ) && exists|j: int| 0 <= j < dv.len() && remaining@[x]@ == dv[j] by {
                assert(remaining@[x]@ == ops_view(remaining@)[x]);
                assert(ops_view(remaining@)[x] == dv.skip(0)[x]);
                assert(dv[x] == defs@[x]@);
                assert(refs_valid(defs@[x]@.input));
            }
        }
        while remaining.len() > 0
            invariant
                dv == ops_view(defs@),
                graph_dict_wf(g@),
                graph_topological(g@),
                graph_controls_wf(g@),
                forall|i: int|
                    0 <= i < g@.nodes.len() ==> node_fresh(#[trigger] g@.nodes[i], g@.name_dict),
                forall|i: int|
                    0 <= i < g@.nodes.len() ==> exists|j: int|
                        0 <= j < dv.len() && (#[trigger] g@.nodes[i]).raw_node == dv[j],
                g@.nodes.len() + remaining@.len() == dv.len(),
                node_raws(g@.nodes).to_multiset().add(ops_view(remaining@).to_multiset())
                    == dv.to_multiset(),
                forall|x: int|
                    0 <= x < remaining@.len() ==> refs_valid((#[trigger] remaining@[x])@.input)
                        && exists|j: int| 0 <= j < dv.len() && remaining@[x]@ == dv[j],
                defs_ordered(dv) ==> ops_view(remaining@) == dv.skip(g@.nodes.len() as int) && (
                forall|i: int|
                    0 <= i < g@.nodes.len() ==> (#[trigger] g@.nodes[i]).raw_node == dv[i]),
            decreases remaining@.len(),
        {
            let next = g.admission_pass(&remaining, Ghost(dv));
            if next.len() == remaining.len() {
                return None;
            }
            remaining = next;
            proof {
                if defs_ordered(dv) {
                    assert(ops_view(remaining@) =~= dv.skip(g@.nodes.len() as int));
                }
            }
        }
        proof {
            assert(ops_view(remaining@).len() == 0);
            lemma_multiset_pad(node_raws(g@.nodes), ops_view(remaining@));
            if forall|i: int, j: int|
                0 <= i < j < g@.nodes.len() ==> g@.nodes[i].raw_node.name
                    != g@.nodes[j].raw_node.name {
                assert forall|i: int| 0 <= i < g@.nodes.len() implies #[trigger] dict_lookup(
                    g@.name_dict,
                    g@.nodes[i].raw_node.name,
                ) == Some(i as usize) by {
                    assert forall|j: int| 0 <= j < i implies (#[trigger] g@.name_dict[j]).0
                        != g@.nodes[i].raw_node.name by {
                        assert(g@.name_dict[j] == (g@.nodes[j].raw_node.name, j as usize));
                    }
                    lemma_dict_lookup_index(g@.name_dict, g@.nodes[i].raw_node.name, i);
                }
            }
            if defs_ordered(dv) {
                assert(forall|i: int|
                    0 <= i < g@.nodes.len() ==> (#[trigger] g@.nodes[i]).raw_node == dv[i]);
            }
        }
        Some(g)
    }
}

// ---------------------------------------------------------------------------
// Compilation
// ---------------------------------------------------------------------------

/// The parts of a node the compiler reads and never writes.
pub open spec fn skeleton_eq(a: NodeV, b: NodeV) -> bool {
    &&& a.raw_node == b.raw_node
    &&& a.controls == b.controls
    &&& a.inputs == b.inputs
    &&& a.form == b.form
}

/// Every form cache of every node lists one name per device.
pub open spec fn caches_wf(nodes: Seq<NodeV>) -> bool {
    forall|i: int, p: int|
        0 <= i < nodes.len() && 0 <= p < nodes[i].outputs.len() ==> crate::tensor::cache_wf(
            #[trigger] nodes[i].outputs[p],
        ) && nodes[i].outputs[p].index == p
}

/// Total number of control inputs a node's replicas receive: the sum of
/// the control producers' replica counts.
/// The replica names a control dependency on `name` fans out to, one per
/// replica of the producer.
pub open spec fn fanout(name: Seq<char>, m: nat) -> Seq<Seq<char>> {
    Seq::new(m, |j: int| crate::names::replica_name_spec(name, j as nat))
}

/// The full control tail of a replica's input list: for each control
/// producer in order, its replica names in order.
pub open spec fn ctrl_names(nodes: Seq<NodeV>, controls: Seq<usize>) -> Seq<Seq<char>>
    decreases controls.len(),
{
    if controls.len() == 0 {
        Seq::empty()
    } else {
        fanout(
            nodes[controls[0] as int].raw_node.name,
            nodes[controls[0] as int].form.ndev(),
        ) + ctrl_names(nodes, controls.skip(1))
    }
}

pub proof fn lemma_ctrl_names_take(nodes: Seq<NodeV>, controls: Seq<usize>, c: int)
    requires
        0 <= c < controls.len(),
    ensures
        ctrl_names(nodes, controls.take(c + 1)) == ctrl_names(nodes, controls.take(c)) + fanout(
            nodes[controls[c] as int].raw_node.name,
            nodes[controls[c] as int].form.ndev(),
        ),
    decreases c,
{
    let a = controls.take(c + 1);
    let b = controls.take(c);
    if c == 0 {
        assert(a.skip(1) =~= Seq::<usize>::empty());
        assert(b =~= Seq::<usize>::empty());
        assert(ctrl_names(nodes, a) =~= ctrl_names(nodes, b) + fanout(
            nodes[controls[0] as int].raw_node.name,
            nodes[controls[0] as int].form.ndev(),
        ));
    } else {
        assert(a.skip(1) =~= controls.skip(1).take(c));
        assert(b.skip(1) =~= controls.skip(1).take(c - 1));
        lemma_ctrl_names_take(nodes, controls.skip(1), c - 1);
        assert(controls.skip(1)[c - 1] == controls[c]);
        assert(ctrl_names(nodes, a) =~= ctrl_names(nodes, b) + fanout(
            nodes[controls[c] as int].raw_node.name,
            nodes[controls[c] as int].form.ndev(),
        ));
    }
}

/// `ctrl_names` only reads names and forms, which the compiler never
/// changes.
pub proof fn lemma_ctrl_names_skeleton(
    nodes0: Seq<NodeV>,
    nodes1: Seq<NodeV>,
    controls: Seq<usize>,
)
    requires
        nodes1.len() == nodes0.len(),
        forall|i: int| 0 <= i < nodes0.len() ==> skeleton_eq(#[trigger] nodes0[i], nodes1[i]),
        forall|c: int| 0 <= c < controls.len() ==> (#[trigger] controls[c]) < nodes0.len(),
    ensures
        ctrl_names(nodes0, controls) == ctrl_names(nodes1, controls),
    decreases controls.len(),
{
    if controls.len() > 0 {
        assert(skeleton_eq(nodes0[controls[0] as int], nodes1[controls[0] as int]));
        assert forall|c: int| 0 <= c < controls.skip(1).len() implies (#[trigger] controls.skip(
            1,
        )[c]) < nodes0.len() by {
            assert(controls.skip(1)[c] == controls[c + 1]);
        }
        lemma_ctrl_names_skeleton(nodes0, nodes1, controls.skip(1));
    }
}

/// The byte size the compiler records for input `k` of `n`: the producer's
/// size when the input is requested in full, its `1/ndev` share when the
/// input is requested partitioned.
pub open spec fn input_size_expected(nodes: Seq<NodeV>, n: NodeV, k: int) -> i64 {
    let nid = n.inputs[k].0;
    let port = n.inputs[k].1;
    let s = crate::tensor::size_spec(nodes[nid as int].raw_node, port as int) as u64;
    if n.inputs[k].2 == FormKind::Full {
        s as i64
    } else {
        (s / (n.form.ndev() as u64)) as i64
    }
}

/// Data input `k` of an emitted replica is wired through the producer's
/// form cache: the producer tensor holds a list for the requested form
/// (the input's kind over the consumer's devices) and the replica reads
/// entry `ri` of it.
pub open spec fn data_input_wired(
    gcur: Seq<NodeV>,
    n: NodeV,
    s: Seq<char>,
    ri: int,
    k: int,
) -> bool {
    let nid = n.inputs[k].0;
    let port = n.inputs[k].1;
    let req = FormV { kind: n.inputs[k].2, devices: n.form.devices };
    &&& port < gcur[nid as int].outputs.len()
    &&& crate::tensor::cache_lookup(gcur[nid as int].outputs[port as int].forms, req) is Some
    &&& crate::tensor::cache_lookup(
        gcur[nid as int].outputs[port as int].forms,
        req,
    ).unwrap().len() == n.form.ndev()
    &&& s == crate::tensor::cache_lookup(
        gcur[nid as int].outputs[port as int].forms,
        req,
    ).unwrap()[ri]
}

pub open spec fn input_wired(op: OpDefV, n: NodeV, gcur: Seq<NodeV>, ri: int, k: int) -> bool {
    data_input_wired(gcur, n, op.input[k], ri, k)
}

/// What the compiler guarantees of replica `ri` of node `n`: its name,
/// kind, placement, origin and form tags, its data inputs wired through
/// the producers' form caches, the fanned-out control tail, its recorded
/// input sizes, and every other attribute carried over from the original.
pub open spec fn replica_ok(
    op: OpDefV,
    n: NodeV,
    nodes: Seq<NodeV>,
    gcur: Seq<NodeV>,
    devices: Seq<Seq<char>>,
    ri: int,
) -> bool {
    &&& op.name == crate::names::replica_name_spec(n.raw_node.name, ri as nat)
    &&& op.op == n.raw_node.op
    &&& op.device == devices[n.form.devices[ri] as int]
    &&& crate::attr::attr_lookup(op.attr, "_tge_origin"@) == Some(
        crate::attr::AttrV::Bytes(n.raw_node.name),
    )
    &&& crate::attr::attr_lookup(op.attr, "_tge_form"@) == Some(
        crate::attr::AttrV::Bytes(crate::form::form_code(n.form)),
    )
    &&& op.input.len() == n.inputs.len() + ctrl_names(nodes, n.controls).len()
    &&& op.input.skip(n.inputs.len() as int) == ctrl_names(nodes, n.controls)
    &&& (forall|k: int| 0 <= k < n.inputs.len() ==> #[trigger] input_wired(op, n, gcur, ri, k))
    &&& (forall|k: int|
        0 <= k < n.inputs.len() ==> crate::attr::input_size_at(op.attr, k) == Some(
            input_size_expected(nodes, n, k),
        ))
    &&& (forall|key: Seq<char>|
        key != "_tge_origin"@ && key != "_tge_form"@ && key != "_tge_input_sizes"@
            ==> crate::attr::attr_lookup(op.attr, key) == crate::attr::attr_lookup(
            n.raw_node.attr,
            key,
        ))
}

/// An operator carrying the replica tags.
pub open spec fn origin_tagged(op: OpDefV) -> bool {
    &&& match crate::attr::attr_lookup(op.attr, "_tge_origin"@) {
        Some(crate::attr::AttrV::Bytes(_)) => true,
        _ => false,
    }
    &&& match crate::attr::attr_lookup(op.attr, "_tge_form"@) {
        Some(crate::attr::AttrV::Bytes(_)) => true,
        _ => false,
    }
}

/// An operator tagged as auxiliary.
pub open spec fn aux_tagged(op: OpDefV) -> bool {
    match crate::attr::attr_lookup(op.attr, "_tge_belong_to"@) {
        Some(crate::attr::AttrV::Bytes(_)) => true,
        _ => false,
    }
}

/// Some operator in `pb[lo..hi]` is replica `ri` of `n`.
pub open spec fn replica_emitted(
    pb: Seq<OpDefV>,
    lo: int,
    hi: int,
    n: NodeV,
    nodes: Seq<NodeV>,
    gcur: Seq<NodeV>,
    devices: Seq<Seq<char>>,
    ri: int,
) -> bool {
    exists|j: int| lo <= j < hi && replica_ok(#[trigger] pb[j], n, nodes, gcur, devices, ri)
}

/// One data input is compilable: the producer exists, its form is set and
/// placed, its size computes, and a mismatched request can infer a type.
pub open spec fn input_ready(
    inp: (usize, usize, FormKind),
    nform: FormV,
    nodes: Seq<NodeV>,
    tv: TargetV,
) -> bool {
    let p = nodes[inp.0 as int];
    &&& inp.0 < nodes.len()
    &&& p.form.valid()
    &&& forall|d: int| 0 <= d < p.form.ndev() ==> p.form.devices[d] < tv.devices.len()
    &&& crate::tensor::size_pre(p.raw_node, inp.1 as int)
    &&& p.form.ndev() <= i64::MAX
    &&& p.form.ndev() < usize::MAX
    &&& inp.1 < usize::MAX
    &&& ((FormV { kind: inp.2, devices: nform.devices }) != p.form ==> crate::attr::dtype_spec(
        p.raw_node,
    ) is Some)
}

/// A node is compilable against the device table.
pub open spec fn node_ready(n: NodeV, nodes: Seq<NodeV>, tv: TargetV) -> bool {
    &&& forall|d: int| 0 <= d < n.form.ndev() ==> n.form.devices[d] < tv.devices.len()
    &&& forall|c: int| 0 <= c < n.controls.len() ==> (#[trigger] n.controls[c]) < nodes.len()
    &&& n.form.ndev() <= i64::MAX
    &&& n.form.ndev() > 0 ==> forall|k: int|
        0 <= k < n.inputs.len() ==> input_ready(#[trigger] n.inputs[k], n.form, nodes, tv)
}

/// Every data input of `n` asks for a full copy of a fully replicated
/// producer; such a node forces no auxiliary operators.
pub open spec fn full_on_full(n: NodeV, nodes: Seq<NodeV>) -> bool {
    forall|k: int|
        0 <= k < n.inputs.len() ==> (#[trigger] n.inputs[k]).0 < nodes.len() && n.inputs[k].2
            == FormKind::Full && nodes[n.inputs[k].0 as int].form.kind == FormKind::Full
}

/// The total number of replicas the compiler emits for a node prefix.
pub open spec fn replica_total(nodes: Seq<NodeV>) -> nat
    decreases nodes.len(),
{
    if nodes.len() == 0 {
        0
    } else {
        replica_total(nodes.drop_last()) + nodes.last().form.ndev()
    }
}

pub proof fn lemma_replica_total_take(nodes: Seq<NodeV>, i: int)
    requires
        0 <= i < nodes.len(),
    ensures
        replica_total(nodes.take(i + 1)) == replica_total(nodes.take(i)) + nodes[i].form.ndev(),
{
    assert(nodes.take(i + 1).drop_last() =~= nodes.take(i));
    assert(nodes.take(i + 1).last() == nodes[i]);
}

/// The form caches of `b` extend those of `a`: same nodes, output vectors
/// only grown, every cached list still found unchanged.
pub open spec fn caches_extend(a: Seq<NodeV>, b: Seq<NodeV>) -> bool {
    &&& b.len() == a.len()
    &&& (forall|i: int| 0 <= i < a.len() ==> (#[trigger] b[i]).outputs.len() >= a[i].outputs.len())
    &&& (forall|i: int, p: int, f: FormV|
        0 <= i < a.len() && 0 <= p < a[i].outputs.len() && crate::tensor::cache_lookup(
            a[i].outputs[p].forms,
            f,
        ) is Some ==> #[trigger] crate::tensor::cache_lookup(b[i].outputs[p].forms, f)
            == crate::tensor::cache_lookup(a[i].outputs[p].forms, f))
}

pub proof fn lemma_caches_extend_trans(a: Seq<NodeV>, b: Seq<NodeV>, c: Seq<NodeV>)
    requires
        caches_extend(a, b),
        caches_extend(b, c),
    ensures
        caches_extend(a, c),
{
    assert forall|i: int, p: int, f: FormV|
        0 <= i < a.len() && 0 <= p < a[i].outputs.len() && crate::tensor::cache_lookup(
            a[i].outputs[p].forms,
            f,
        ) is Some implies #[trigger] crate::tensor::cache_lookup(c[i].outputs[p].forms, f)
        == crate::tensor::cache_lookup(a[i].outputs[p].forms, f) by {
        assert(crate::tensor::cache_lookup(b[i].outputs[p].forms, f)
            == crate::tensor::cache_lookup(a[i].outputs[p].forms, f));
        assert(crate::tensor::cache_lookup(c[i].outputs[p].forms, f)
            == crate::tensor::cache_lookup(b[i].outputs[p].forms, f));
    }
}

/// A replica's guarantees survive cache growth: the wired entries are
/// still found, unchanged.
pub proof fn lemma_replica_ok_caches(
    op: OpDefV,
    n: NodeV,
    nodes: Seq<NodeV>,
    g1: Seq<NodeV>,
    g2: Seq<NodeV>,
    devices: Seq<Seq<char>>,
    ri: int,
)
    requires
        replica_ok(op, n, nodes, g1, devices, ri),
        caches_extend(g1, g2),
        forall|k: int| 0 <= k < n.inputs.len() ==> (#[trigger] n.inputs[k]).0 < g1.len(),
    ensures
        replica_ok(op, n, nodes, g2, devices, ri),
{
    assert forall|k: int| 0 <= k < n.inputs.len() implies #[trigger] input_wired(
        op,
        n,
        g2,
        ri,
        k,
    ) by {
        assert(input_wired(op, n, g1, ri, k));
        let nid = n.inputs[k].0;
        let port = n.inputs[k].1;
        let req = FormV { kind: n.inputs[k].2, devices: n.form.devices };
        assert(crate::tensor::cache_lookup(g2[nid as int].outputs[port as int].forms, req)
            == crate::tensor::cache_lookup(g1[nid as int].outputs[port as int].forms, req));
        assert(g2[nid as int].outputs.len() >= g1[nid as int].outputs.len());
    }
}

/// A replica's guarantees only read the compile-time skeleton of the
/// graph besides the caches.
pub proof fn lemma_replica_ok_skeleton(
    op: OpDefV,
    n0: NodeV,
    n1: NodeV,
    nodes0: Seq<NodeV>,
    nodes1: Seq<NodeV>,
    gcur: Seq<NodeV>,
    devices: Seq<Seq<char>>,
    ri: int,
)
    requires
        replica_ok(op, n0, nodes0, gcur, devices, ri),
        skeleton_eq(n0, n1),
        nodes1.len() == nodes0.len(),
        forall|i: int| 0 <= i < nodes0.len() ==> skeleton_eq(#[trigger] nodes0[i], nodes1[i]),
        forall|c: int| 0 <= c < n0.controls.len() ==> (#[trigger] n0.controls[c]) < nodes0.len(),
        forall|k: int| 0 <= k < n0.inputs.len() ==> (#[trigger] n0.inputs[k]).0 < nodes0.len(),
    ensures
        replica_ok(op, n1, nodes1, gcur, devices, ri),
{
    lemma_ctrl_names_skeleton(nodes0, nodes1, n0.controls);
    assert forall|k: int| 0 <= k < n1.inputs.len() implies crate::attr::input_size_at(op.attr, k)
        == Some(input_size_expected(nodes1, n1, k)) by {
        assert(crate::attr::input_size_at(op.attr, k) == Some(input_size_expected(nodes0, n0, k)));
        assert(skeleton_eq(nodes0[n0.inputs[k].0 as int], nodes1[n0.inputs[k].0 as int]));
    }
    assert forall|k: int| 0 <= k < n1.inputs.len() implies #[trigger] input_wired(
        op,
        n1,
        gcur,
        ri,
        k,
    ) by {
        assert(input_wired(op, n0, gcur, ri, k));
    }
}

/// `node_ready` only reads the compile-time skeleton, so it survives
/// cache growth.
pub proof fn lemma_node_ready_stable(
    n: NodeV,
    nodes0: Seq<NodeV>,
    nodes1: Seq<NodeV>,
    tv0: TargetV,
    tv1: TargetV,
)
    requires
        node_ready(n, nodes0, tv0),
        nodes1.len() == nodes0.len(),
        forall|i: int| 0 <= i < nodes0.len() ==> skeleton_eq(#[trigger] nodes1[i], nodes0[i]),
        tv1.devices == tv0.devices,
    ensures
        node_ready(n, nodes1, tv1),
{
    assert forall|k: int| n.form.ndev() > 0 && 0 <= k < n.inputs.len() implies input_ready(
        #[trigger] n.inputs[k],
        n.form,
        nodes1,
        tv1,
    ) by {
        assert(input_ready(n.inputs[k], n.form, nodes0, tv0));
        assert(skeleton_eq(nodes1[n.inputs[k].0 as int], nodes0[n.inputs[k].0 as int]));
    }
}

impl Graph {
    /// Compiles one node: emits one edited copy of its operator per device
    /// of its form, rewriting data inputs through the producers' form
    /// caches and fanning control dependencies out to every producer
    /// replica.
    #[verifier::rlimit(100)]
    #[verifier::spinoff_prover]
    fn compile_node(&mut self, id: usize, target: &mut Target)
        requires
            id < old(self)@.nodes.len(),
            node_ready(old(self)@.nodes[id as int], old(self)@.nodes, old(target)@),
            caches_wf(old(self)@.nodes),
        ensures
            final(self)@.nodes.len() == old(self)@.nodes.len(),
            forall|i: int|
                0 <= i < old(self)@.nodes.len() ==> skeleton_eq(
                    #[trigger] final(self)@.nodes[i],
                    old(self)@.nodes[i],
                ),
            caches_wf(final(self)@.nodes),
            caches_extend(old(self)@.nodes, final(self)@.nodes),
            final(self)@.name_dict == old(self)@.name_dict,
            final(target)@.pb.len() >= old(target)@.pb.len(),
            old(target)@.pb == final(target)@.pb.take(old(target)@.pb.len() as int),
            final(target)@.devices == old(target)@.devices,
            final(target)@.links == old(target)@.links,
            final(target)@.paths == old(target)@.paths,
            forall|j: int|
                old(target)@.pb.len() <= j < final(target)@.pb.len() ==> origin_tagged(
                    #[trigger] final(target)@.pb[j],
                ) || aux_tagged(final(target)@.pb[j]),
            forall|ri: int|
                0 <= ri < old(self)@.nodes[id as int].form.ndev() ==> #[trigger] replica_emitted(
                    final(target)@.pb,
                    old(target)@.pb.len() as int,
                    final(target)@.pb.len() as int,
                    old(self)@.nodes[id as int],
                    old(self)@.nodes,
                    final(self)@.nodes,
                    old(target)@.devices,
                    ri,
                ),
            full_on_full(old(self)@.nodes[id as int], old(self)@.nodes) ==> final(target)@.pb.len()
                == old(target)@.pb.len() + old(self)@.nodes[id as int].form.ndev(),
    {
        let ghost nv = old(self)@.nodes[id as int];
        let ghost nodes0 = old(self)@.nodes;
        let ghost base = old(target)@.pb.len() as int;
        let raw = self.nodes[id].raw_node.clone();
        let form = self.nodes[id].form.clone();
        let mut inputs: Vec<(usize, usize, FormKind)> = Vec::new();
        let mut x: usize = 0;
        while x < self.nodes[id].inputs.len()
            invariant
                id < self@.nodes.len(),
                self@ == old(self)@,
                x <= nv.inputs.len(),
                inputs@ == nv.inputs.take(x as int),
            decreases nv.inputs.len() - x,
        {
            inputs.push(self.nodes[id].inputs[x]);
            proof {
                assert(inputs@ =~= nv.inputs.take(x + 1));
            }
            x = x + 1;
        }
        let mut controls: Vec<usize> = Vec::new();
        let mut x2: usize = 0;
        while x2 < self.nodes[id].controls.len()
            invariant
                id < self@.nodes.len(),
                self@ == old(self)@,
                x2 <= nv.controls.len(),
                controls@ == nv.controls.take(x2 as int),
            decreases nv.controls.len() - x2,
        {
            controls.push(self.nodes[id].controls[x2]);
            proof {
                assert(controls@ =~= nv.controls.take(x2 + 1));
            }
            x2 = x2 + 1;
        }
        proof {
            assert(inputs@ =~= nv.inputs);
            assert(controls@ =~= nv.controls);
        }
        let fcode = form.code();
        let mut ri: usize = 0;
        while ri < form.devices.len()
            invariant
                id < self@.nodes.len(),
                self@.nodes.len() == nodes0.len(),
                forall|i: int|
                    0 <= i < nodes0.len() ==> skeleton_eq(#[trigger] self@.nodes[i], nodes0[i]),
                caches_wf(self@.nodes),
                caches_extend(nodes0, self@.nodes),
                self@.name_dict == old(self)@.name_dict,
                nv == nodes0[id as int],
                node_ready(nv, nodes0, old(target)@),
                raw@ == nv.raw_node,
                form@ == nv.form,
                fcode@ == crate::form::form_code(nv.form),
                inputs@ == nv.inputs,
                controls@ == nv.controls,
                ri <= nv.form.ndev(),
                target@.pb.len() >= base,
                full_on_full(nv, nodes0) ==> target@.pb.len() == base + ri,
                old(target)@.pb == target@.pb.take(base),
                target@.devices == old(target)@.devices,
                target@.links == old(target)@.links,
                target@.paths == old(target)@.paths,
                forall|j: int|
                    base <= j < target@.pb.len() ==> origin_tagged(#[trigger] target@.pb[j])
                        || aux_tagged(target@.pb[j]),
                forall|r2: int|
                    0 <= r2 < ri ==> #[trigger] replica_emitted(
                        target@.pb,
                        base,
                        target@.pb.len() as int,
                        nv,
                        nodes0,
                        self@.nodes,
                        old(target)@.devices,
                        r2,
                    ),
            decreases nv.form.ndev() - ri,
        {
            let device_id = form.devices[ri];
            let mut op = raw.clone();
            op.name = crate::names::replica_name(&raw.name, ri);
            op.device = target.device(device_id);
            let ghost a_pre = op@.attr;
            crate::attr::set_origin(&mut op, &raw.name);
            let ghost ao = op@.attr;
            crate::attr::set_form(&mut op, &fcode);
            proof {
                crate::attr::lemma_keys_distinct();
                let ov = AttrV::Bytes(nv.raw_node.name);
                let fv = AttrV::Bytes(fcode@);
                crate::attr::lemma_store_lookup_same(a_pre, "_tge_origin"@, ov);
                crate::attr::lemma_store_lookup_same(ao, "_tge_form"@, fv);
                crate::attr::lemma_store_lookup_other(ao, "_tge_form"@, fv, "_tge_origin"@);
                assert forall|key: Seq<char>|
                    key != "_tge_origin"@ && key != "_tge_form"@ implies crate::attr::attr_lookup(
                    op@.attr,
                    key,
                ) == crate::attr::attr_lookup(nv.raw_node.attr, key) by {
                    crate::attr::lemma_store_lookup_other(a_pre, "_tge_origin"@, ov, key);
                    crate::attr::lemma_store_lookup_other(ao, "_tge_form"@, fv, key);
                }
            }
            let mut new_inputs: Vec<String> = Vec::new();
            let mut k: usize = 0;
            while k < inputs.len()
                invariant
                    id < self@.nodes.len(),
                    self@.nodes.len() == nodes0.len(),
                    forall|i: int|
                        0 <= i < nodes0.len() ==> skeleton_eq(
                            #[trigger] self@.nodes[i],
                            nodes0[i],
                        ),
                    caches_wf(self@.nodes),
                    caches_extend(nodes0, self@.nodes),
                    self@.name_dict == old(self)@.name_dict,
                    nv == nodes0[id as int],
                    node_ready(nv, nodes0, old(target)@),
                    raw@ == nv.raw_node,
                    form@ == nv.form,
                    fcode@ == crate::form::form_code(nv.form),
                    inputs@ == nv.inputs,
                    controls@ == nv.controls,
                    ri < nv.form.ndev(),
                    k <= nv.inputs.len(),
                    new_inputs@.len() == k,
                    op@.name == crate::names::replica_name_spec(nv.raw_node.name, ri as nat),
                    op@.op == nv.raw_node.op,
                    op@.device == old(target)@.devices[nv.form.devices[ri as int] as int],
                    crate::attr::attr_lookup(op@.attr, "_tge_origin"@) == Some(
                        AttrV::Bytes(nv.raw_node.name),
                    ),
                    crate::attr::attr_lookup(op@.attr, "_tge_form"@) == Some(
                        AttrV::Bytes(crate::form::form_code(nv.form)),
                    ),
                    forall|k2: int|
                        0 <= k2 < k ==> crate::attr::input_size_at(op@.attr, k2) == Some(
                            input_size_expected(nodes0, nv, k2),
                        ),
                    forall|key: Seq<char>|
                        key != "_tge_origin"@ && key != "_tge_form"@ && key != "_tge_input_sizes"@
                            ==> crate::attr::attr_lookup(op@.attr, key)
                            == crate::attr::attr_lookup(nv.raw_node.attr, key),
                    forall|k2: int|
                        0 <= k2 < k ==> #[trigger] data_input_wired(
                            self@.nodes,
                            nv,
                            new_inputs@[k2]@,
                            ri as int,
                            k2,
                        ),
                    target@.pb.len() >= base,
                    full_on_full(nv, nodes0) ==> target@.pb.len() == base + ri,
                    old(target)@.pb == target@.pb.take(base),
                    target@.devices == old(target)@.devices,
                    target@.links == old(target)@.links,
                    target@.paths == old(target)@.paths,
                    forall|j: int|
                        base <= j < target@.pb.len() ==> origin_tagged(#[trigger] target@.pb[j])
                            || aux_tagged(target@.pb[j]),
                    forall|r2: int|
                        0 <= r2 < ri ==> #[trigger] replica_emitted(
                            target@.pb,
                            base,
                            target@.pb.len() as int,
                            nv,
                            nodes0,
                            self@.nodes,
                            old(target)@.devices,
                            r2,
                        ),
                decreases nv.inputs.len() - k,
            {
                let (nid, port, kind) = inputs[k];
                let ghost entry_nodes = self@.nodes;
                let ghost prev_inputs = new_inputs@;
                proof {
                    assert(input_ready(nv.inputs[k as int], nv.form, nodes0, old(target)@));
                    assert(skeleton_eq(self@.nodes[nid as int], nodes0[nid as int]));
                }
                let req = Form { kind, devices: crate::names::clone_usizes(&form.devices) };
                let ghost reqv = req@;
                let ghost pbefore = target@.pb;
                let ghost opattr0 = op@.attr;
                let ghost prevnodes = self.nodes@;
                let mut nd = self.nodes.remove(nid);
                let _grown = nd.get_output(port);
                let ghost ndv_grown = nd@;
                let praw = nd.raw_node.clone();
                let pform = nd.form.clone();
                let psize = nd.outputs[port].get_size(&praw);
                let sz = if kind == FormKind::Full {
                    psize
                } else {
                    psize / (form.devices.len() as u64)
                };
                let ghost grown_outs = nd.outputs@;
                let mut tensor = nd.outputs.remove(port);
                let ghost tpre = tensor@;
                let names = tensor.as_form(&praw, &pform, &req, target);
                let ghost tpost = tensor@;
                nd.outputs.insert(port, tensor);
                self.nodes.insert(nid, nd);
                proof {
                    assert(self.nodes@ =~= prevnodes.update(
                        nid as int,
                        self.nodes@[nid as int],
                    ));
                    assert(self.nodes@[nid as int].outputs@ =~= grown_outs.update(
                        port as int,
                        self.nodes@[nid as int].outputs@[port as int],
                    ));
                    assert(self@.nodes[nid as int] == self.nodes@[nid as int]@);
                    assert(self.nodes@[nid as int]@.raw_node == prevnodes[nid as int]@.raw_node);
                    assert(self.nodes@[nid as int]@.controls == prevnodes[nid as int]@.controls);
                    assert(self.nodes@[nid as int]@.inputs == prevnodes[nid as int]@.inputs);
                    assert(self.nodes@[nid as int]@.form == prevnodes[nid as int]@.form);
                    assert(skeleton_eq(prevnodes[nid as int]@, nodes0[nid as int]));
                    assert forall|j: int| 0 <= j < grown_outs.len() implies
                        (#[trigger] grown_outs[j])@.index == j
                        && crate::tensor::cache_wf(grown_outs[j]@) by {
                        if j < entry_nodes[nid as int].outputs.len() {
                            assert(grown_outs[j]@ == entry_nodes[nid as int].outputs[j]);
                            assert(crate::tensor::cache_wf(entry_nodes[nid as int].outputs[j])
                                && entry_nodes[nid as int].outputs[j].index == j);
                        } else {
                            assert(grown_outs[j]@ == ndv_grown.outputs[j]);
                            assert(ndv_grown.outputs[j] == (crate::tensor::TensorV {
                                index: j as usize,
                                forms: Seq::empty(),
                            }));
                        }
                    }
                    assert(self.nodes@[nid as int]@.outputs[port as int].index == port);
                    assert(crate::tensor::cache_wf(self.nodes@[nid as int]@.outputs[port as int]));
                }
                new_inputs.push(names[ri].clone());
                crate::attr::set_input_size(&mut op, k, sz);
                proof {
                    crate::attr::lemma_keys_distinct();
                    let skey = "_tge_input_sizes"@;
                    let cur = match crate::attr::attr_lookup(opattr0, skey) {
                        Some(AttrV::IntList(l)) => l,
                        _ => Seq::<i64>::empty(),
                    };
                    let grown = if cur.len() > k as int {
                        cur
                    } else {
                        cur + Seq::new((k + 1 - cur.len()) as nat, |_j: int| 0i64)
                    };
                    let stored = grown.update(k as int, sz as i64);
                    crate::attr::lemma_store_lookup_same(opattr0, skey, AttrV::IntList(stored));
                    assert forall|key: Seq<char>| key != skey implies crate::attr::attr_lookup(
                        op@.attr,
                        key,
                    ) == crate::attr::attr_lookup(opattr0, key) by {
                        crate::attr::lemma_store_lookup_other(
                            opattr0,
                            skey,
                            AttrV::IntList(stored),
                            key,
                        );
                    }
                    assert forall|k2: int| 0 <= k2 < k + 1 implies crate::attr::input_size_at(
                        op@.attr,
                        k2,
                    ) == Some(input_size_expected(nodes0, nv, k2)) by {
                        if k2 < k {
                            assert(crate::attr::input_size_at(opattr0, k2) == Some(
                                input_size_expected(nodes0, nv, k2),
                            ));
                            assert(stored[k2] == cur[k2]);
                        } else {
                            assert(sz as i64 == input_size_expected(nodes0, nv, k2));
                        }
                    }
                    assert(old(target)@.pb =~= target@.pb.take(base));
                    assert forall|i: int| 0 <= i < nodes0.len() implies skeleton_eq(
                        #[trigger] self@.nodes[i],
                        nodes0[i],
                    ) by {
                        if i != nid {
                            assert(self.nodes@[i] == prevnodes[i]);
                            assert(self@.nodes[i] == entry_nodes[i]);
                            assert(skeleton_eq(entry_nodes[i], nodes0[i]));
                        }
                    }
                    assert forall|i: int, p: int|
                        0 <= i < self@.nodes.len() && 0 <= p < self@.nodes[i].outputs.len() implies
                        crate::tensor::cache_wf(#[trigger] self@.nodes[i].outputs[p])
                        && self@.nodes[i].outputs[p].index == p by {
                        if i != nid {
                            assert(self.nodes@[i] == prevnodes[i]);
                            assert(self@.nodes[i] == entry_nodes[i]);
                            assert(crate::tensor::cache_wf(entry_nodes[i].outputs[p])
                                && entry_nodes[i].outputs[p].index == p);
                        } else {
                            assert(self@.nodes[i].outputs[p] == self.nodes@[i]@.outputs[p]);
                            if p == port {
                                assert(crate::tensor::cache_wf(self.nodes@[i]@.outputs[p])
                                    && self.nodes@[i]@.outputs[p].index == p);
                            } else {
                                assert(self.nodes@[i]@.outputs[p] == grown_outs[p]@);
                                assert((#[trigger] grown_outs[p])@.index == p
                                    && crate::tensor::cache_wf(grown_outs[p]@));
                            }
                        }
                    }
                    // one step of cache extension
                    assert(caches_extend(entry_nodes, self@.nodes)) by {
                        assert forall|i: int|
                            0 <= i < entry_nodes.len() implies (#[trigger] self@.nodes[i]).outputs.len()
                            >= entry_nodes[i].outputs.len() by {
                            if i != nid {
                                assert(self@.nodes[i] == entry_nodes[i]);
                            } else {
                                assert(self@.nodes[i].outputs.len() == grown_outs.len());
                            }
                        }
                        assert forall|i: int, p: int, f: FormV|
                            0 <= i < entry_nodes.len() && 0 <= p < entry_nodes[i].outputs.len()
                                && crate::tensor::cache_lookup(
                                entry_nodes[i].outputs[p].forms,
                                f,
                            ) is Some implies #[trigger] crate::tensor::cache_lookup(
                            self@.nodes[i].outputs[p].forms,
                            f,
                        ) == crate::tensor::cache_lookup(entry_nodes[i].outputs[p].forms, f) by {
                            if i != nid {
                                assert(self@.nodes[i] == entry_nodes[i]);
                            } else {
                                assert(self@.nodes[i].outputs[p] == self.nodes@[i]@.outputs[p]);
                                if p == port {
                                    assert(grown_outs[p]@ == entry_nodes[i].outputs[p]);
                                    assert(tpre == grown_outs[p]@);
                                    assert(self.nodes@[i]@.outputs[p] == tpost);
                                } else {
                                    assert(self.nodes@[i]@.outputs[p] == grown_outs[p]@);
                                    assert(grown_outs[p]@ == entry_nodes[i].outputs[p]);
                                }
                            }
                        }
                    }
                    lemma_caches_extend_trans(nodes0, entry_nodes, self@.nodes);
                    // the new wired entry
                    assert(nv.inputs[k as int].1 < self@.nodes[nid as int].outputs.len());
                    assert(self@.nodes[nid as int].outputs[port as int] == tpost);
                    assert(crate::tensor::cache_lookup(tpost.forms, reqv) == Some(
                        names.deep_view(),
                    ));
                    assert(names.deep_view().len() == nv.form.ndev());
                    assert((new_inputs@[k as int])@ == names.deep_view()[ri as int]);
                    assert(data_input_wired(
                        self@.nodes,
                        nv,
                        new_inputs@[k as int]@,
                        ri as int,
                        k as int,
                    ));
                    // older wired entries survive
                    assert forall|k2: int| 0 <= k2 < k + 1 implies #[trigger] data_input_wired(
                        self@.nodes,
                        nv,
                        new_inputs@[k2]@,
                        ri as int,
                        k2,
                    ) by {
                        if k2 < k {
                            let nid2 = nv.inputs[k2].0;
                            let port2 = nv.inputs[k2].1;
                            let req2 = FormV { kind: nv.inputs[k2].2, devices: nv.form.devices };
                            assert(new_inputs@[k2] == prev_inputs[k2]);
                            assert(data_input_wired(
                                entry_nodes,
                                nv,
                                prev_inputs[k2]@,
                                ri as int,
                                k2,
                            ));
                            assert(crate::tensor::cache_lookup(
                                self@.nodes[nid2 as int].outputs[port2 as int].forms,
                                req2,
                            ) == crate::tensor::cache_lookup(
                                entry_nodes[nid2 as int].outputs[port2 as int].forms,
                                req2,
                            ));
                        }
                    }
                    // emitted ops so far keep their guarantees
                    assert forall|j: int| base <= j < target@.pb.len() implies origin_tagged(
                        #[trigger] target@.pb[j],
                    ) || aux_tagged(target@.pb[j]) by {
                        if j < pbefore.len() {
                            assert(pbefore =~= target@.pb.take(pbefore.len() as int));
                            assert(target@.pb[j] == target@.pb.take(pbefore.len() as int)[j]);
                            assert(origin_tagged(pbefore[j]) || aux_tagged(pbefore[j]));
                        } else {
                            assert(crate::transition::belongs_to(target@.pb[j], praw@.name));
                        }
                    }
                    assert forall|r2: int| 0 <= r2 < ri implies #[trigger] replica_emitted(
                        target@.pb,
                        base,
                        target@.pb.len() as int,
                        nv,
                        nodes0,
                        self@.nodes,
                        old(target)@.devices,
                        r2,
                    ) by {
                        assert(replica_emitted(
                            pbefore,
                            base,
                            pbefore.len() as int,
                            nv,
                            nodes0,
                            entry_nodes,
                            old(target)@.devices,
                            r2,
                        ));
                        let j = choose|j: int|
                            base <= j < pbefore.len() && replica_ok(
                                #[trigger] pbefore[j],
                                nv,
                                nodes0,
                                entry_nodes,
                                old(target)@.devices,
                                r2,
                            );
                        assert(pbefore =~= target@.pb.take(pbefore.len() as int));
                        assert(target@.pb[j] == target@.pb.take(pbefore.len() as int)[j]);
                        assert(target@.pb[j] == pbefore[j]);
                        assert forall|k3: int| 0 <= k3 < nv.inputs.len() implies (
                        #[trigger] nv.inputs[k3]).0 < entry_nodes.len() by {
                            assert(input_ready(nv.inputs[k3], nv.form, nodes0, old(target)@));
                        }
                        lemma_replica_ok_caches(
                            target@.pb[j],
                            nv,
                            nodes0,
                            entry_nodes,
                            self@.nodes,
                            old(target)@.devices,
                            r2,
                        );
                    }
                }
                k = k + 1;
            }
            op.input = new_inputs;
            let ghost data_v = op@.input;
            let ghost opv = op@;
            let ghost wired_nodes = self@.nodes;
            proof {
                assert(data_v.len() == nv.inputs.len());
                assert forall|k2: int| 0 <= k2 < nv.inputs.len() implies #[trigger] data_input_wired(
                    wired_nodes,
                    nv,
                    data_v[k2],
                    ri as int,
                    k2,
                ) by {
                    assert(data_v[k2] == op.input@[k2]@);
                    assert(data_input_wired(
                        self@.nodes,
                        nv,
                        op.input@[k2]@,
                        ri as int,
                        k2,
                    ));
                }
            }
            let mut c: usize = 0;
            while c < controls.len()
                invariant
                    id < self@.nodes.len(),
                    self@.nodes.len() == nodes0.len(),
                    forall|i: int|
                        0 <= i < nodes0.len() ==> skeleton_eq(
                            #[trigger] self@.nodes[i],
                            nodes0[i],
                        ),
                    nv == nodes0[id as int],
                    node_ready(nv, nodes0, old(target)@),
                    controls@ == nv.controls,
                    c <= nv.controls.len(),
                    data_v.len() == nv.inputs.len(),
                    op@.input == data_v + ctrl_names(nodes0, nv.controls.take(c as int)),
                    op@.name == opv.name,
                    op@.op == opv.op,
                    op@.device == opv.device,
                    op@.attr == opv.attr,
                decreases nv.controls.len() - c,
            {
                let cid = controls[c];
                proof {
                    assert(skeleton_eq(self@.nodes[cid as int], nodes0[cid as int]));
                }
                let dname = self.nodes[cid].raw_node.name.clone();
                let dn = self.nodes[cid].form.devices.len();
                let ghost basec = op@.input;
                let mut j: usize = 0;
                while j < dn
                    invariant
                        j <= dn,
                        dname@ == nodes0[cid as int].raw_node.name,
                        op@.input == basec + fanout(dname@, j as nat),
                        op@.name == opv.name,
                        op@.op == opv.op,
                        op@.device == opv.device,
                        op@.attr == opv.attr,
                    decreases dn - j,
                {
                    let ghost before_in = op.input@;
                    op.input.push(crate::names::replica_name(&dname, j));
                    proof {
                        assert(op.input@.len() == basec.len() + j + 1);
                        assert forall|y: int| 0 <= y < before_in.len() implies #[trigger] op@.input[y]
                            == (basec + fanout(dname@, j as nat))[y] by {
                            assert(op.input@[y] == before_in[y]);
                            assert(op@.input[y] == op.input@[y]@);
                            assert((basec + fanout(dname@, j as nat))[y] == before_in[y]@);
                        }
                        assert(op@.input[basec.len() as int + j] == op.input@[basec.len() as int
                            + j]@);
                        assert(fanout(dname@, (j + 1) as nat) =~= fanout(dname@, j as nat) + seq![
                            crate::names::replica_name_spec(dname@, j as nat),
                        ]);
                        assert(op@.input =~= basec + fanout(dname@, (j + 1) as nat));
                    }
                    j = j + 1;
                }
                proof {
                    lemma_ctrl_names_take(nodes0, nv.controls, c as int);
                    assert(op@.input =~= data_v + ctrl_names(nodes0, nv.controls.take(c + 1)));
                }
                c = c + 1;
            }
            proof {
                assert(nv.controls.take(nv.controls.len() as int) =~= nv.controls);
                assert(op@.input == data_v + ctrl_names(nodes0, nv.controls));
            }
            let ghost pbefore = target@.pb;
            target.push_op(op);
            proof {
                assert(target@.pb.take(base) =~= pbefore.take(base));
                let opf = target@.pb[target@.pb.len() - 1];
                assert(opf.input.skip(nv.inputs.len() as int) =~= ctrl_names(nodes0, nv.controls));
                assert forall|k2: int| 0 <= k2 < nv.inputs.len() implies #[trigger] input_wired(
                    opf,
                    nv,
                    self@.nodes,
                    ri as int,
                    k2,
                ) by {
                    assert(opf.input[k2] == data_v[k2]);
                    assert(data_input_wired(self@.nodes, nv, data_v[k2], ri as int, k2));
                }
                assert(replica_ok(
                    opf,
                    nv,
                    nodes0,
                    self@.nodes,
                    old(target)@.devices,
                    ri as int,
                ));
                assert forall|j: int| base <= j < target@.pb.len() implies origin_tagged(
                    #[trigger] target@.pb[j],
                ) || aux_tagged(target@.pb[j]) by {
                    if j < target@.pb.len() - 1 {
                        assert(target@.pb[j] == pbefore[j]);
                        assert(origin_tagged(pbefore[j]) || aux_tagged(pbefore[j]));
                    } else {
                        assert(origin_tagged(opf));
                    }
                }
                assert forall|r2: int| 0 <= r2 < ri + 1 implies #[trigger] replica_emitted(
                    target@.pb,
                    base,
                    target@.pb.len() as int,
                    nv,
                    nodes0,
                    self@.nodes,
                    old(target)@.devices,
                    r2,
                ) by {
                    if r2 < ri {
                        assert(replica_emitted(
                            pbefore,
                            base,
                            pbefore.len() as int,
                            nv,
                            nodes0,
                            wired_nodes,
                            old(target)@.devices,
                            r2,
                        ));
                        let j = choose|j: int|
                            base <= j < pbefore.len() && replica_ok(
                                #[trigger] pbefore[j],
                                nv,
                                nodes0,
                                wired_nodes,
                                old(target)@.devices,
                                r2,
                            );
                        assert(target@.pb[j] == pbefore[j]);
                        assert(replica_ok(
                            target@.pb[j],
                            nv,
                            nodes0,
                            self@.nodes,
                            old(target)@.devices,
                            r2,
                        ));
                    } else {
                        assert(replica_ok(
                            target@.pb[target@.pb.len() - 1],
                            nv,
                            nodes0,
                            self@.nodes,
                            old(target)@.devices,
                            r2,
                        ));
                    }
                }
            }
            ri = ri + 1;
        }
    }

    /// Compiles the whole graph in topological order: for each node, one
    /// operator per device of its form is emitted into the target, its
    /// data inputs wired through the producers' form caches, its control
    /// dependencies fanned out across all producer replicas, and every
    /// other attribute of the original carried over.  Everything else
    /// appended is an auxiliary tagged with the original it belongs to.
    #[verifier::rlimit(100)]
    #[verifier::spinoff_prover]
    pub fn compile(&mut self, target: &mut Target)
        requires
            forall|i: int|
                0 <= i < old(self)@.nodes.len() ==> node_ready(
                    #[trigger] old(self)@.nodes[i],
                    old(self)@.nodes,
                    old(target)@,
                ),
            caches_wf(old(self)@.nodes),
        ensures
            final(self)@.nodes.len() == old(self)@.nodes.len(),
            forall|i: int|
                0 <= i < old(self)@.nodes.len() ==> skeleton_eq(
                    #[trigger] final(self)@.nodes[i],
                    old(self)@.nodes[i],
                ),
            caches_wf(final(self)@.nodes),
            caches_extend(old(self)@.nodes, final(self)@.nodes),
            final(target)@.pb.len() >= old(target)@.pb.len(),
            old(target)@.pb == final(target)@.pb.take(old(target)@.pb.len() as int),
            final(target)@.devices == old(target)@.devices,
            final(target)@.links == old(target)@.links,
            final(target)@.paths == old(target)@.paths,
            forall|j: int|
                old(target)@.pb.len() <= j < final(target)@.pb.len() ==> origin_tagged(
                    #[trigger] final(target)@.pb[j],
                ) || aux_tagged(final(target)@.pb[j]),
            forall|i: int, ri: int|
                0 <= i < old(self)@.nodes.len() && 0 <= ri < old(self)@.nodes[i].form.ndev()
                    ==> #[trigger] replica_emitted(
                    final(target)@.pb,
                    old(target)@.pb.len() as int,
                    final(target)@.pb.len() as int,
                    old(self)@.nodes[i],
                    old(self)@.nodes,
                    final(self)@.nodes,
                    old(target)@.devices,
                    ri,
                ),
            (forall|i: int|
                0 <= i < old(self)@.nodes.len() ==> full_on_full(
                    #[trigger] old(self)@.nodes[i],
                    old(self)@.nodes,
                )) ==> final(target)@.pb.len() == old(target)@.pb.len() + replica_total(
                old(self)@.nodes,
            ),
    {
        let ghost nodes0 = old(self)@.nodes;
        let ghost base = old(target)@.pb.len() as int;
        proof {
            assert(nodes0.take(0) =~= Seq::<NodeV>::empty());
        }
        let mut id: usize = 0;
        while id < self.nodes.len()
            invariant
                self@.nodes.len() == nodes0.len(),
                id <= nodes0.len(),
                forall|i: int|
                    0 <= i < nodes0.len() ==> skeleton_eq(#[trigger] self@.nodes[i], nodes0[i]),
                caches_wf(self@.nodes),
                caches_extend(nodes0, self@.nodes),
                forall|i: int|
                    0 <= i < nodes0.len() ==> node_ready(
                        #[trigger] nodes0[i],
                        nodes0,
                        old(target)@,
                    ),
                target@.pb.len() >= base,
                (forall|i: int|
                    0 <= i < nodes0.len() ==> full_on_full(
                        #[trigger] nodes0[i],
                        nodes0,
                    )) ==> target@.pb.len() == base + replica_total(nodes0.take(id as int)),
                old(target)@.pb == target@.pb.take(base),
                target@.devices == old(target)@.devices,
                target@.links == old(target)@.links,
                target@.paths == old(target)@.paths,
                forall|j: int|
                    base <= j < target@.pb.len() ==> origin_tagged(#[trigger] target@.pb[j])
                        || aux_tagged(target@.pb[j]),
                forall|i: int, ri: int|
                    0 <= i < id && 0 <= ri < nodes0[i].form.ndev() ==> #[trigger] replica_emitted(
                        target@.pb,
                        base,
                        target@.pb.len() as int,
                        nodes0[i],
                        nodes0,
                        self@.nodes,
                        old(target)@.devices,
                        ri,
                    ),
            decreases nodes0.len() - id,
        {
            proof {
                lemma_node_ready_stable(
                    nodes0[id as int],
                    nodes0,
                    self@.nodes,
                    old(target)@,
                    target@,
                );
            }
            let ghost pbefore = target@.pb;
            let ghost snap = self@.nodes;
            self.compile_node(id, target);
            proof {
                if forall|i: int| 0 <= i < nodes0.len() ==> full_on_full(
                    #[trigger] nodes0[i],
                    nodes0,
                ) {
                    assert(full_on_full(nodes0[id as int], nodes0));
                    assert(full_on_full(snap[id as int], snap)) by {
                        assert(skeleton_eq(snap[id as int], nodes0[id as int]));
                        assert forall|k: int|
                            0 <= k < snap[id as int].inputs.len() implies (
                        #[trigger] snap[id as int].inputs[k]).0 < snap.len()
                            && snap[id as int].inputs[k].2 == FormKind::Full
                            && snap[snap[id as int].inputs[k].0 as int].form.kind
                            == FormKind::Full by {
                            assert(nodes0[id as int].inputs[k].0 < nodes0.len());
                            assert(skeleton_eq(
                                snap[nodes0[id as int].inputs[k].0 as int],
                                nodes0[nodes0[id as int].inputs[k].0 as int],
                            ));
                        }
                    }
                    lemma_replica_total_take(nodes0, id as int);
                }
                assert forall|i: int| 0 <= i < nodes0.len() implies skeleton_eq(
                    #[trigger] self@.nodes[i],
                    nodes0[i],
                ) by {
                    assert(skeleton_eq(self@.nodes[i], snap[i]));
                }
                lemma_caches_extend_trans(nodes0, snap, self@.nodes);
                assert(old(target)@.pb =~= target@.pb.take(base));
                assert forall|j: int| base <= j < target@.pb.len() implies origin_tagged(
                    #[trigger] target@.pb[j],
                ) || aux_tagged(target@.pb[j]) by {
                    if j < pbefore.len() {
                        assert(pbefore =~= target@.pb.take(pbefore.len() as int));
                        assert(target@.pb[j] == target@.pb.take(pbefore.len() as int)[j]);
                        assert(origin_tagged(pbefore[j]) || aux_tagged(pbefore[j]));
                    }
                }
                assert forall|i: int, ri: int|
                    0 <= i < id + 1 && 0 <= ri < nodes0[i].form.ndev() implies
                    #[trigger] replica_emitted(
                    target@.pb,
                    base,
                    target@.pb.len() as int,
                    nodes0[i],
                    nodes0,
                    self@.nodes,
                    old(target)@.devices,
                    ri,
                ) by {
                    assert forall|k3: int| 0 <= k3 < nodes0[i].inputs.len() implies (
                    #[trigger] nodes0[i].inputs[k3]).0 < snap.len() by {
                        assert(input_ready(
                            nodes0[i].inputs[k3],
                            nodes0[i].form,
                            nodes0,
                            old(target)@,
                        ));
                    }
                    if i < id {
                        assert(replica_emitted(
                            pbefore,
                            base,
                            pbefore.len() as int,
                            nodes0[i],
                            nodes0,
                            snap,
                            old(target)@.devices,
                            ri,
                        ));
                        let j = choose|j: int|
                            base <= j < pbefore.len() && replica_ok(
                                #[trigger] pbefore[j],
                                nodes0[i],
                                nodes0,
                                snap,
                                old(target)@.devices,
                                ri,
                            );
                        assert(pbefore =~= target@.pb.take(pbefore.len() as int));
                        assert(target@.pb[j] == target@.pb.take(pbefore.len() as int)[j]);
                        assert(target@.pb[j] == pbefore[j]);
                        lemma_replica_ok_caches(
                            target@.pb[j],
                            nodes0[i],
                            nodes0,
                            snap,
                            self@.nodes,
                            old(target)@.devices,
                            ri,
                        );
                    } else {
                        assert(skeleton_eq(snap[id as int], nodes0[id as int]));
                        assert(replica_emitted(
                            target@.pb,
                            pbefore.len() as int,
                            target@.pb.len() as int,
                            snap[id as int],
                            snap,
                            self@.nodes,
                            old(target)@.devices,
                            ri,
                        ));
                        let j = choose|j: int|
                            pbefore.len() <= j < target@.pb.len() && replica_ok(
                                #[trigger] target@.pb[j],
                                snap[id as int],
                                snap,
                                self@.nodes,
                                old(target)@.devices,
                                ri,
                            );
                        assert forall|c: int| 0 <= c < snap[id as int].controls.len() implies (
                        #[trigger] snap[id as int].controls[c]) < snap.len() by {
                            assert(nodes0[id as int].controls[c] < nodes0.len());
                        }
                        lemma_replica_ok_skeleton(
                            target@.pb[j],
                            snap[id as int],
                            nodes0[i],
                            snap,
                            nodes0,
                            self@.nodes,
                            old(target)@.devices,
                            ri,
                        );
                        assert(replica_ok(
                            target@.pb[j],
                            nodes0[i],
                            nodes0,
                            self@.nodes,
                            old(target)@.devices,
                            ri,
                        ));
                    }
                }
            }
            id = id + 1;
        }
        proof {
            assert(nodes0.take(nodes0.len() as int) =~= nodes0);
        }
    }
}

} // verus!
