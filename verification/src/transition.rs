//! The form-transition builders: they materialize the auxiliary operators
//! that convert a producer tensor from its own form into a consumer's
//! requested form, and return one operator-output reference per device of
//! the requested form.
use vstd::prelude::*;
use crate::attr::{
    attr_lookup, attr_set, attr_store, get_dtype, dtype_spec, input_size_at, set_belong_to,
    set_input_size, lemma_store_lookup_other, lemma_store_lookup_same, AttrV, AttrValue, OpDef,
    OpDefV, TensorValue, TensorValueV, DT_INT32,
};
use crate::form::{form_code, Form, FormV};
use crate::graph::Target;
use crate::names::{dec_seq, dec_string, port_ref, port_ref_spec};
use crate::tensor::{size_pre, size_spec, Tensor};

verus! {

/// An auxiliary operator is tagged with the original it belongs to.
pub open spec fn belongs_to(op: OpDefV, owner: Seq<char>) -> bool {
    attr_lookup(op.attr, "_tge_belong_to"@) == Some(AttrV::Bytes(owner))
}

/// `"<name>/<port>_<code><tail>"`: the name of an auxiliary operator for
/// output `port`, converted to the form with the given code.
pub open spec fn aux_name_spec(name: Seq<char>, port: usize, code: Seq<char>, tail: Seq<char>)
    -> Seq<char> {
    name + seq!['/'] + dec_seq(port as nat) + seq!['_'] + code + tail
}

/// `aux_name_spec` with a running index appended after an underscore.
pub open spec fn aux_name_idx_spec(
    name: Seq<char>,
    port: usize,
    code: Seq<char>,
    tail: Seq<char>,
    i: usize,
) -> Seq<char> {
    aux_name_spec(name, port, code, tail) + seq!['_'] + dec_seq(i as nat)
}

/// Builds an auxiliary operator name.
pub fn aux_name(name: &String, port: usize, code: &String, tail: &str) -> (r: String)
    ensures
        r@ == aux_name_spec(name@, port, code@, tail@),
{
    proof {
        reveal_strlit("/");
        reveal_strlit("_");
        assert("/"@ =~= seq!['/']);
        assert("_"@ =~= seq!['_']);
    }
    let mut r = name.clone();
    r.append("/");
    let d = dec_string(port);
    r.append(d.as_str());
    r.append("_");
    r.append(code.as_str());
    r.append(tail);
    r
}

/// Builds an indexed auxiliary operator name.
pub fn aux_name_idx(name: &String, port: usize, code: &String, tail: &str, i: usize) -> (r: String)
    ensures
        r@ == aux_name_idx_spec(name@, port, code@, tail@, i),
{
    proof {
        reveal_strlit("_");
        assert("_"@ =~= seq!['_']);
    }
    let mut r = aux_name(name, port, code, tail);
    r.append("_");
    let d = dec_string(i);
    r.append(d.as_str());
    r
}

/// A fresh auxiliary operator: named and placed by the caller later, tagged
/// as belonging to the producer `raw`.
fn make_aux(raw: &OpDef, op: &str) -> (n: OpDef)
    ensures
        n@.op == op@,
        n.input@.len() == 0,
        n@.input == Seq::<Seq<char>>::empty(),
        n@.attr == attr_store(
            Seq::<(Seq<char>, AttrV)>::empty(),
            "_tge_belong_to"@,
            AttrV::Bytes(raw@.name),
        ),
        belongs_to(n@, raw@.name),
{
    let mut n = OpDef {
        name: String::new(),
        op: String::from_str(op),
        input: Vec::new(),
        device: String::new(),
        attr: Vec::new(),
    };
    proof {
        assert(n@.input =~= Seq::<Seq<char>>::empty());
        assert(n@.attr =~= Seq::<(Seq<char>, AttrV)>::empty());
    }
    set_belong_to(&mut n, &raw.name);
    proof {
        assert(n.input@.len() == 0);
        lemma_store_lookup_same(
            Seq::<(Seq<char>, AttrV)>::empty(),
            "_tge_belong_to"@,
            AttrV::Bytes(raw@.name),
        );
    }
    n
}

/// A `Const` holding a small 32-bit integer tensor, as used for axis and
/// shape arguments of auxiliary operators.
fn int_const(raw: &OpDef, name: String, device: String, shape: Vec<i64>, val: i64) -> (n: OpDef)
    ensures
        n@.name == name@,
        n@.op == "Const"@,
        n@.device == device@,
        n@.input == Seq::<Seq<char>>::empty(),
        belongs_to(n@, raw@.name),
        attr_lookup(n@.attr, "dtype"@) == Some(AttrV::DType(DT_INT32)),
        attr_lookup(n@.attr, "value"@) == Some(
            AttrV::TensorVal(TensorValueV { dtype: DT_INT32, shape: shape@, int_val: seq![val] }),
        ),
{
    let mut n = make_aux(raw, "Const");
    n.name = name;
    n.device = device;
    let ghost a0 = n@.attr;
    attr_set(&mut n.attr, "dtype", AttrValue::DType(DT_INT32));
    let ghost a1 = n@.attr;
    let mut int_val: Vec<i64> = Vec::new();
    int_val.push(val);
    proof {
        assert(int_val@ =~= seq![val]);
    }
    attr_set(&mut n.attr, "value", AttrValue::TensorVal(TensorValue {
        dtype: DT_INT32,
        shape,
        int_val,
    }));
    proof {
        crate::attr::lemma_keys_distinct();
        let bkey = "_tge_belong_to"@;
        let vv = AttrV::TensorVal(TensorValueV { dtype: DT_INT32, shape: shape@, int_val: seq![val] });
        lemma_store_lookup_same(a0, "dtype"@, AttrV::DType(DT_INT32));
        lemma_store_lookup_other(a0, "dtype"@, AttrV::DType(DT_INT32), bkey);
        lemma_store_lookup_same(a1, "value"@, vv);
        lemma_store_lookup_other(a1, "value"@, vv, bkey);
        lemma_store_lookup_other(a1, "value"@, vv, "dtype"@);
    }
    n
}

/// The flatten-shape `Const`: the one-element 32-bit tensor `[-1]`.
fn int_flat_const(raw: &OpDef, name: String, device: String, dims: Vec<i64>) -> (n: OpDef)
    requires
        dims@ == seq![1i64],
    ensures
        flat_const_ok(n@, name@, device@, raw@.name),
{
    int_const(raw, name, device, dims, -1)
}

/// Records `size` as the byte size of inputs `0..n`.
fn set_uniform_sizes(node: &mut OpDef, n: usize, size: u64)
    requires
        n < usize::MAX,
    ensures
        final(node)@.name == old(node)@.name,
        final(node)@.op == old(node)@.op,
        final(node)@.device == old(node)@.device,
        final(node)@.input == old(node)@.input,
        forall|k: int|
            0 <= k < n ==> input_size_at(final(node)@.attr, k) == Some(size as i64),
        forall|key: Seq<char>|
            key != "_tge_input_sizes"@ ==> attr_lookup(final(node)@.attr, key) == attr_lookup(
                old(node)@.attr,
                key,
            ),
{
    let mut i: usize = 0;
    while i < n
        invariant
            i <= n,
            node@.name == old(node)@.name,
            node@.op == old(node)@.op,
            node@.device == old(node)@.device,
            node@.input == old(node)@.input,
            forall|k: int| 0 <= k < i ==> input_size_at(node@.attr, k) == Some(size as i64),
            forall|key: Seq<char>|
                key != "_tge_input_sizes"@ ==> attr_lookup(node@.attr, key) == attr_lookup(
                    old(node)@.attr,
                    key,
                ),
        decreases n - i,
    {
        let ghost a0 = node@.attr;
        set_input_size(node, i, size);
        proof {
            crate::attr::lemma_keys_distinct();
            let skey = "_tge_input_sizes"@;
            let cur = match attr_lookup(a0, skey) {
                Some(AttrV::IntList(l)) => l,
                _ => Seq::<i64>::empty(),
            };
            let grown = if cur.len() > i as int {
                cur
            } else {
                cur + Seq::new((i + 1 - cur.len()) as nat, |_j: int| 0i64)
            };
            let stored = grown.update(i as int, size as i64);
            lemma_store_lookup_same(a0, skey, AttrV::IntList(stored));
            assert forall|k: int| 0 <= k < i + 1 implies input_size_at(node@.attr, k) == Some(
                size as i64,
            ) by {
                if k < i {
                    assert(input_size_at(a0, k) == Some(size as i64));
                    assert(stored[k] == cur[k]);
                }
            }
            assert forall|key: Seq<char>| key != skey implies attr_lookup(node@.attr, key)
                == attr_lookup(a0, key) by {
                lemma_store_lookup_other(a0, skey, AttrV::IntList(stored), key);
            }
        }
        i = i + 1;
    }
}

// ---------------------------------------------------------------------------
// First position of a device in a device list
// ---------------------------------------------------------------------------

/// An axis or dimension `Const` of an auxiliary group: a scalar 32-bit
/// integer zero, placed and named by its builder.
pub open spec fn axis_const_ok(op: OpDefV, name: Seq<char>, device: Seq<char>, owner: Seq<char>) -> bool {
    &&& op.op == "Const"@
    &&& op.name == name
    &&& op.device == device
    &&& op.input.len() == 0
    &&& belongs_to(op, owner)
    &&& attr_lookup(op.attr, "dtype"@) == Some(AttrV::DType(DT_INT32))
    &&& attr_lookup(op.attr, "value"@) == Some(
        AttrV::TensorVal(
            TensorValueV { dtype: DT_INT32, shape: Seq::empty(), int_val: seq![0i64] },
        ),
    )
}

/// What `replicate_broadcast` returns: no emission, each target device
/// reusing its co-located producer replica or replica 0.
pub open spec fn broadcast_post(
    r: Seq<Seq<char>>,
    list: Seq<Seq<char>>,
    from: FormV,
    to: FormV,
) -> bool {
    &&& r.len() == to.ndev()
    &&& forall|i: int|
        0 <= i < to.ndev() ==> #[trigger] r[i] == broadcast_pick(from.devices, to.devices[i], list)
}

/// What `replicate_split` emits and returns, given the producer's names
/// `list`: one axis `Const` and one `Split` of producer replica 0 on the
/// producer's first device, and the split's outputs in order.
pub open spec fn split_post(
    pb0: Seq<OpDefV>,
    pb1: Seq<OpDefV>,
    r: Seq<Seq<char>>,
    raw: OpDefV,
    port: usize,
    list: Seq<Seq<char>>,
    from: FormV,
    to: FormV,
    devices: Seq<Seq<char>>,
) -> bool {
    let dim = pb1[pb0.len() as int];
    let split = pb1[pb0.len() as int + 1];
    let dim_name = aux_name_spec(raw.name, port, form_code(to), "/aux_split/dim"@);
    let split_name = aux_name_spec(raw.name, port, form_code(to), "/aux_split/split"@);
    &&& pb1.len() == pb0.len() + 2
    &&& pb1 == pb0 + seq![dim, split]
    &&& r.len() == to.ndev()
    &&& (forall|i: int|
        0 <= i < to.ndev() ==> #[trigger] r[i] == port_ref_spec(split_name, i as nat))
    &&& axis_const_ok(dim, dim_name, devices[from.devices[0] as int], raw.name)
    &&& split.op == "Split"@
    &&& split.name == split_name
    &&& split.device == devices[from.devices[0] as int]
    &&& split.input == seq![dim_name, list[0]]
    &&& belongs_to(split, raw.name)
    &&& attr_lookup(split.attr, "T"@) == dtype_spec(raw)
    &&& attr_lookup(split.attr, "num_split"@) == Some(AttrV::Int(to.ndev() as i64))
    &&& input_size_at(split.attr, 1) == Some(size_spec(raw, port as int) as i64)
}

/// What `aggregate_cat` emits and returns, given the producer's names
/// `list`: one axis `Const` and one `ConcatV2` of all producer replicas on
/// the first target device, and the concat's name for every target device.
pub open spec fn cat_post(
    pb0: Seq<OpDefV>,
    pb1: Seq<OpDefV>,
    r: Seq<Seq<char>>,
    raw: OpDefV,
    port: usize,
    list: Seq<Seq<char>>,
    from: FormV,
    to: FormV,
    devices: Seq<Seq<char>>,
) -> bool {
    let axis = pb1[pb0.len() as int];
    let concat = pb1[pb0.len() as int + 1];
    let axis_name = aux_name_spec(raw.name, port, form_code(to), "/aux_concat/axis"@);
    let concat_name = aux_name_spec(raw.name, port, form_code(to), "/aux_concat/concat"@);
    &&& pb1.len() == pb0.len() + 2
    &&& pb1 == pb0 + seq![axis, concat]
    &&& r.len() == to.ndev()
    &&& (forall|i: int| 0 <= i < to.ndev() ==> #[trigger] r[i] == concat_name)
    &&& axis_const_ok(axis, axis_name, devices[to.devices[0] as int], raw.name)
    &&& concat.op == "ConcatV2"@
    &&& concat.name == concat_name
    &&& concat.device == devices[to.devices[0] as int]
    &&& concat.input == list + seq![axis_name]
    &&& belongs_to(concat, raw.name)
    &&& attr_lookup(concat.attr, "N"@) == Some(AttrV::Int(from.ndev() as i64))
    &&& attr_lookup(concat.attr, "T"@) == dtype_spec(raw)
    &&& attr_lookup(concat.attr, "Tidx"@) == Some(AttrV::DType(DT_INT32))
    &&& (forall|k: int|
        0 <= k < from.ndev() ==> input_size_at(concat.attr, k) == Some(
            ((size_spec(raw, port as int) as u64) / (from.ndev() as u64)) as i64,
        ))
}

/// `"<name>/<port>_<code>/aux_resplit_<i><tail>"`: a member of resplit
/// chunk `i`.
pub open spec fn resplit_group(
    name: Seq<char>,
    port: usize,
    code: Seq<char>,
    i: usize,
    tail: Seq<char>,
) -> Seq<char> {
    aux_name_idx_spec(name, port, code, "/aux_resplit"@, i) + tail
}

/// What `resplit` emits and returns, given the producer's names `list`:
/// per chunk `i` of `gcd` chunks, an axis `Const` and a `ConcatV2` of the
/// chunk's `from.ndev/gcd` replicas on the chunk's first device; then per
/// chunk a dimension `Const` and a `Split` into `to.ndev/gcd` outputs,
/// co-located with its concat; the outputs in chunk order are the result.
pub open spec fn resplit_post(
    pb0: Seq<OpDefV>,
    pb1: Seq<OpDefV>,
    r: Seq<Seq<char>>,
    raw: OpDefV,
    port: usize,
    list: Seq<Seq<char>>,
    from: FormV,
    to: FormV,
    devices: Seq<Seq<char>>,
) -> bool {
    let g = gcd_spec(from.ndev(), to.ndev()) as int;
    let pf = (from.ndev() / gcd_spec(from.ndev(), to.ndev())) as int;
    let pt = (to.ndev() / gcd_spec(from.ndev(), to.ndev())) as int;
    let code = form_code(to);
    let b = pb0.len() as int;
    &&& pb1.len() == pb0.len() + 4 * g
    &&& pb1.take(b) == pb0
    &&& r.len() == to.ndev()
    &&& (forall|i: int|
        0 <= i < g ==> axis_const_ok(
            #[trigger] pb1[b + 2 * i],
            resplit_group(raw.name, port, code, i as usize, "/concat_axis"@),
            devices[from.devices[i * pf] as int],
            raw.name,
        ))
    &&& (forall|i: int|
        0 <= i < g ==> {
            let cc = #[trigger] pb1[b + 2 * i + 1];
            &&& cc.op == "ConcatV2"@
            &&& cc.name == resplit_group(raw.name, port, code, i as usize, "/concat"@)
            &&& cc.device == devices[from.devices[i * pf] as int]
            &&& cc.input == list.subrange(i * pf, i * pf + pf) + seq![
                resplit_group(raw.name, port, code, i as usize, "/concat_axis"@),
            ]
            &&& belongs_to(cc, raw.name)
            &&& attr_lookup(cc.attr, "N"@) == Some(AttrV::Int(pf as i64))
            &&& attr_lookup(cc.attr, "T"@) == dtype_spec(raw)
            &&& attr_lookup(cc.attr, "Tidx"@) == Some(AttrV::DType(DT_INT32))
            &&& forall|k: int|
                0 <= k < pf ==> input_size_at(cc.attr, k) == Some(
                    ((size_spec(raw, port as int) as u64) / (from.ndev() as u64)) as i64,
                )
        })
    &&& (forall|i: int|
        0 <= i < g ==> axis_const_ok(
            #[trigger] pb1[b + 2 * g + 2 * i],
            resplit_group(raw.name, port, code, i as usize, "/split_dim"@),
            devices[from.devices[i * pf] as int],
            raw.name,
        ))
    &&& (forall|i: int|
        0 <= i < g ==> {
            let sp = #[trigger] pb1[b + 2 * g + 2 * i + 1];
            &&& sp.op == "Split"@
            &&& sp.name == resplit_group(raw.name, port, code, i as usize, "/split"@)
            &&& sp.device == devices[from.devices[i * pf] as int]
            &&& sp.input == seq![
                resplit_group(raw.name, port, code, i as usize, "/split_dim"@),
                resplit_group(raw.name, port, code, i as usize, "/concat"@),
            ]
            &&& belongs_to(sp, raw.name)
            &&& attr_lookup(sp.attr, "T"@) == dtype_spec(raw)
            &&& attr_lookup(sp.attr, "num_split"@) == Some(AttrV::Int(pt as i64))
            &&& input_size_at(sp.attr, 1) == Some(
                ((size_spec(raw, port as int) as u64) / (gcd_spec(from.ndev(), to.ndev())
                    as u64)) as i64,
            )
        })
    &&& (forall|i: int, j: int|
        0 <= i < g && 0 <= j < pt ==> #[trigger] r[i * pt + j] == port_ref_spec(
            resplit_group(raw.name, port, code, i as usize, "/split"@),
            j as nat,
        ))
}

/// The first position of `d` in `devs`, if any.
pub open spec fn first_pos(devs: Seq<usize>, d: usize) -> Option<int>
    decreases devs.len(),
{
    if devs.len() == 0 {
        None
    } else if devs[0] == d {
        Some(0)
    } else {
        match first_pos(devs.skip(1), d) {
            Some(p) => Some(p + 1),
            None => None,
        }
    }
}

pub proof fn lemma_first_pos_at(devs: Seq<usize>, d: usize, p: int)
    requires
        0 <= p < devs.len(),
        devs[p] == d,
        forall|q: int| 0 <= q < p ==> devs[q] != d,
    ensures
        first_pos(devs, d) == Some(p),
    decreases p,
{
    if devs[0] != d {
        assert(devs.skip(1)[p - 1] == devs[p]);
        assert forall|q: int| 0 <= q < p - 1 implies devs.skip(1)[q] != d by {
            assert(devs.skip(1)[q] == devs[q + 1]);
        }
        lemma_first_pos_at(devs.skip(1), d, p - 1);
    }
}

pub proof fn lemma_first_pos_none(devs: Seq<usize>, d: usize)
    requires
        forall|q: int| 0 <= q < devs.len() ==> devs[q] != d,
    ensures
        first_pos(devs, d) is None,
    decreases devs.len(),
{
    if devs.len() > 0 {
        assert forall|q: int| 0 <= q < devs.skip(1).len() implies devs.skip(1)[q] != d by {
            assert(devs.skip(1)[q] == devs[q + 1]);
        }
        lemma_first_pos_none(devs.skip(1), d);
    }
}

/// The reference broadcast picks for target device `d`: the producer's
/// co-located replica when one exists, else replica 0.
pub open spec fn broadcast_pick(from_devs: Seq<usize>, d: usize, list: Seq<Seq<char>>) -> Seq<
    char,
> {
    match first_pos(from_devs, d) {
        Some(p) => list[p],
        None => list[0],
    }
}

impl Tensor {
    /// Full to full: no operators are emitted.  Each target device reuses
    /// the producer replica already on that device, or replica 0.
    pub fn replicate_broadcast(&self, list: &Vec<String>, from: &Form, to: &Form) -> (r: Vec<
        String,
    >)
        requires
            from@.valid(),
            to@.valid(),
            from@.is_full(),
            to@.is_full(),
            list@.len() == from@.ndev(),
        ensures
            r@.len() == to@.ndev(),
            broadcast_post(r.deep_view(), list.deep_view(), from@, to@),
    {
        let mut r: Vec<String> = Vec::new();
        let mut i: usize = 0;
        while i < to.devices.len()
            invariant
                i <= to@.devices.len(),
                r@.len() == i,
                list@.len() == from@.ndev(),
                forall|j: int|
                    0 <= j < i ==> (#[trigger] r@[j])@ == broadcast_pick(
                        from@.devices,
                        to@.devices[j],
                        list.deep_view(),
                    ),
            decreases to@.devices.len() - i,
        {
            let d = to.devices[i];
            let mut p: usize = 0;
            let mut found = false;
            while p < from.devices.len() && !found
                invariant
                    p <= from@.devices.len(),
                    found ==> p < from@.devices.len() && from@.devices[p as int] == d && (forall|
                        q: int,
                    | 0 <= q < p ==> from@.devices[q] != d),
                    !found ==> forall|q: int| 0 <= q < p ==> from@.devices[q] != d,
                decreases from@.devices.len() - p + (if found {
                    0int
                } else {
                    1int
                }),
            {
                if from.devices[p] == d {
                    found = true;
                } else {
                    p = p + 1;
                }
            }
            if found {
                proof {
                    lemma_first_pos_at(from@.devices, d, p as int);
                }
                r.push(list[p].clone());
            } else {
                proof {
                    lemma_first_pos_none(from@.devices, d);
                }
                r.push(list[0].clone());
            }
            i = i + 1;
        }
        proof {
            assert forall|i2: int| 0 <= i2 < to@.ndev() implies #[trigger] r.deep_view()[i2]
                == broadcast_pick(from@.devices, to@.devices[i2], list.deep_view()) by {
                assert(r.deep_view()[i2] == r@[i2]@);
            }
        }
        r
    }

    /// Full to part: one axis `Const` and one `Split` on the producer's
    /// first device, reading producer replica 0; target replica `i` is
    /// output `i` of the split.
    pub fn replicate_split(
        &self,
        raw: &OpDef,
        list: &Vec<String>,
        from: &Form,
        to: &Form,
        target: &mut Target,
    ) -> (r: Vec<String>)
        requires
            from@.valid(),
            to@.valid(),
            from@.is_full(),
            to@.is_part(),
            list@.len() == from@.ndev(),
            from@.devices[0] < old(target)@.devices.len(),
            dtype_spec(raw@) is Some,
            size_pre(raw@, self.index as int),
            to@.ndev() <= i64::MAX,
        ensures
            r@.len() == to@.ndev(),
            split_post(
                old(target)@.pb,
                final(target)@.pb,
                r.deep_view(),
                raw@,
                self.index,
                list.deep_view(),
                from@,
                to@,
                old(target)@.devices,
            ),
            final(target)@.devices == old(target)@.devices,
            final(target)@.links == old(target)@.links,
            final(target)@.paths == old(target)@.paths,
    {
        let code = to.code();
        let dim_name = aux_name(&raw.name, self.index, &code, "/aux_split/dim");
        let split_name = aux_name(&raw.name, self.index, &code, "/aux_split/split");
        let device = target.device(from.devices[0]);
        let dim = int_const(raw, dim_name.clone(), device.clone(), Vec::new(), 0);

        let mut split = make_aux(raw, "Split");
        split.name = split_name.clone();
        split.device = device;
        split.input.push(dim_name);
        split.input.push(list[0].clone());
        proof {
            assert(split.input@.len() == 2);
            assert(split@.input[0] == split.input@[0]@);
            assert(split@.input[1] == split.input@[1]@);
            assert(list.deep_view()[0] == list@[0]@);
            assert(split@.input =~= seq![
                aux_name_spec(raw@.name, self.index, form_code(to@), "/aux_split/dim"@),
                list.deep_view()[0],
            ]);
        }
        let ghost a0 = split@.attr;
        attr_set(&mut split.attr, "T", get_dtype(raw));
        let ghost a1 = split@.attr;
        attr_set(&mut split.attr, "num_split", AttrValue::Int(#[verifier::truncate] (to.ndev() as i64)));
        proof {
            crate::attr::lemma_keys_distinct();
            let dt = dtype_spec(raw@).unwrap();
            let ns = AttrV::Int(to@.ndev() as i64);
            lemma_store_lookup_same(a0, "T"@, dt);
            lemma_store_lookup_other(a0, "T"@, dt, "_tge_belong_to"@);
            lemma_store_lookup_same(a1, "num_split"@, ns);
            lemma_store_lookup_other(a1, "num_split"@, ns, "T"@);
            lemma_store_lookup_other(a1, "num_split"@, ns, "_tge_belong_to"@);
        }
        let size = self.get_size(raw);
        set_input_size(&mut split, 1, size);
        proof {
            crate::attr::lemma_keys_distinct();
            let ghost a2 = attr_store(a1, "num_split"@, AttrV::Int(to@.ndev() as i64));
            let skey = "_tge_input_sizes"@;
            let stored = Seq::new(2, |_j: int| 0i64).update(1, size as i64);
            assert(attr_lookup(a2, skey) is None) by {
                lemma_store_lookup_other(a1, "num_split"@, AttrV::Int(to@.ndev() as i64), skey);
                lemma_store_lookup_other(a0, "T"@, dtype_spec(raw@).unwrap(), skey);
                lemma_store_lookup_other(
                    Seq::<(Seq<char>, AttrV)>::empty(),
                    "_tge_belong_to"@,
                    AttrV::Bytes(raw@.name),
                    skey,
                );
                assert(attr_lookup(Seq::<(Seq<char>, AttrV)>::empty(), skey) is None);
            }
            assert(Seq::<i64>::empty() + Seq::new(2nat, |_j: int| 0i64) =~= Seq::new(
                2nat,
                |_j: int| 0i64,
            ));
            lemma_store_lookup_same(a2, skey, AttrV::IntList(stored));
            lemma_store_lookup_other(a2, skey, AttrV::IntList(stored), "T"@);
            lemma_store_lookup_other(a2, skey, AttrV::IntList(stored), "num_split"@);
            lemma_store_lookup_other(a2, skey, AttrV::IntList(stored), "_tge_belong_to"@);
        }
        target.push_op(dim);
        target.push_op(split);

        let mut r: Vec<String> = Vec::new();
        let mut i: usize = 0;
        while i < to.devices.len()
            invariant
                i <= to@.devices.len(),
                r@.len() == i,
                split_name@ == aux_name_spec(
                    raw@.name,
                    self.index,
                    form_code(to@),
                    "/aux_split/split"@,
                ),
                forall|j: int|
                    0 <= j < i ==> (#[trigger] r@[j])@ == port_ref_spec(split_name@, j as nat),
            decreases to@.devices.len() - i,
        {
            r.push(port_ref(&split_name, i));
            i = i + 1;
        }
        proof {
            assert(final(target)@.pb =~= old(target)@.pb + seq![
                final(target)@.pb[old(target)@.pb.len() as int],
                final(target)@.pb[old(target)@.pb.len() as int + 1],
            ]);
            assert forall|i2: int| 0 <= i2 < to@.ndev() implies #[trigger] r.deep_view()[i2]
                == port_ref_spec(
                aux_name_spec(raw@.name, self.index, form_code(to@), "/aux_split/split"@),
                i2 as nat,
            ) by {
                assert(r.deep_view()[i2] == r@[i2]@);
            }
        }
        r
    }
}

impl Tensor {
    /// Part to full by concatenation: one axis `Const` and one `ConcatV2`
    /// on the first target device, consuming all producer replicas; every
    /// target device references the concat.
    pub fn aggregate_cat(
        &self,
        raw: &OpDef,
        list: &Vec<String>,
        from: &Form,
        to: &Form,
        target: &mut Target,
    ) -> (r: Vec<String>)
        requires
            from@.valid(),
            to@.valid(),
            from@.is_part(),
            to@.is_full(),
            list@.len() == from@.ndev(),
            to@.devices[0] < old(target)@.devices.len(),
            dtype_spec(raw@) is Some,
            size_pre(raw@, self.index as int),
            from@.ndev() <= i64::MAX,
            from@.ndev() < usize::MAX,
        ensures
            r@.len() == to@.ndev(),
            cat_post(
                old(target)@.pb,
                final(target)@.pb,
                r.deep_view(),
                raw@,
                self.index,
                list.deep_view(),
                from@,
                to@,
                old(target)@.devices,
            ),
            final(target)@.devices == old(target)@.devices,
            final(target)@.links == old(target)@.links,
            final(target)@.paths == old(target)@.paths,
    {
        let code = to.code();
        let axis_name = aux_name(&raw.name, self.index, &code, "/aux_concat/axis");
        let concat_name = aux_name(&raw.name, self.index, &code, "/aux_concat/concat");
        let device = target.device(to.devices[0]);
        let axis = int_const(raw, axis_name.clone(), device.clone(), Vec::new(), 0);

        let mut concat = make_aux(raw, "ConcatV2");
        concat.name = concat_name.clone();
        concat.device = device;
        concat.input = crate::names::clone_strings(list);
        concat.input.push(axis_name);
        proof {
            assert(concat@.input =~= list.deep_view() + seq![
                aux_name_spec(raw@.name, self.index, form_code(to@), "/aux_concat/axis"@),
            ]) by {
                assert(forall|j: int|
                    0 <= j < list@.len() ==> (#[trigger] concat.input@[j])@ == list.deep_view()[j]);
            }
        }
        let ghost a0 = concat@.attr;
        attr_set(&mut concat.attr, "N", AttrValue::Int(#[verifier::truncate] (from.ndev() as i64)));
        let ghost a1 = concat@.attr;
        attr_set(&mut concat.attr, "T", get_dtype(raw));
        let ghost a2 = concat@.attr;
        attr_set(&mut concat.attr, "Tidx", AttrValue::DType(DT_INT32));
        proof {
            crate::attr::lemma_keys_distinct();
            let nv = AttrV::Int(from@.ndev() as i64);
            let dt = dtype_spec(raw@).unwrap();
            let tx = AttrV::DType(DT_INT32);
            lemma_store_lookup_same(a0, "N"@, nv);
            lemma_store_lookup_other(a0, "N"@, nv, "_tge_belong_to"@);
            lemma_store_lookup_same(a1, "T"@, dt);
            lemma_store_lookup_other(a1, "T"@, dt, "N"@);
            lemma_store_lookup_other(a1, "T"@, dt, "_tge_belong_to"@);
            lemma_store_lookup_same(a2, "Tidx"@, tx);
            lemma_store_lookup_other(a2, "Tidx"@, tx, "N"@);
            lemma_store_lookup_other(a2, "Tidx"@, tx, "T"@);
            lemma_store_lookup_other(a2, "Tidx"@, tx, "_tge_belong_to"@);
        }
        let size = self.get_size(raw);
        let per = size / (from.ndev() as u64);
        set_uniform_sizes(&mut concat, from.ndev(), per);
        proof {
            crate::attr::lemma_keys_distinct();
        }
        target.push_op(axis);
        target.push_op(concat);

        let mut r: Vec<String> = Vec::new();
        let mut i: usize = 0;
        while i < to.devices.len()
            invariant
                i <= to@.devices.len(),
                r@.len() == i,
                concat_name@ == aux_name_spec(
                    raw@.name,
                    self.index,
                    form_code(to@),
                    "/aux_concat/concat"@,
                ),
                forall|j: int| 0 <= j < i ==> (#[trigger] r@[j])@ == concat_name@,
            decreases to@.devices.len() - i,
        {
            r.push(concat_name.clone());
            i = i + 1;
        }
        proof {
            assert(final(target)@.pb =~= old(target)@.pb + seq![
                final(target)@.pb[old(target)@.pb.len() as int],
                final(target)@.pb[old(target)@.pb.len() as int + 1],
            ]);
            assert(forall|i2: int|
                0 <= i2 < to@.ndev() ==> #[trigger] r.deep_view()[i2] == r@[i2]@);
        }
        r
    }

    /// Part to full by summation: a single `AddN` of all producer replicas
    /// on the first target device; every target device references it.
    pub fn aggregate_sum(
        &self,
        raw: &OpDef,
        list: &Vec<String>,
        from: &Form,
        to: &Form,
        target: &mut Target,
    ) -> (r: Vec<String>)
        requires
            from@.valid(),
            to@.valid(),
            from@.is_part(),
            to@.is_full(),
            list@.len() == from@.ndev(),
            to@.devices[0] < old(target)@.devices.len(),
            dtype_spec(raw@) is Some,
            size_pre(raw@, self.index as int),
            from@.ndev() <= i64::MAX,
            from@.ndev() < usize::MAX,
        ensures
            r@.len() == to@.ndev(),
            forall|i: int|
                0 <= i < to@.ndev() ==> #[trigger] r.deep_view()[i] == aux_name_spec(
                    raw@.name,
                    self.index,
                    form_code(to@),
                    "/aux_sum"@,
                ),
            final(target)@.pb.len() == old(target)@.pb.len() + 1,
            final(target)@.pb == old(target)@.pb + seq![
                final(target)@.pb[old(target)@.pb.len() as int],
            ],
            ({
                let addn = final(target)@.pb[old(target)@.pb.len() as int];
                &&& addn.op == "AddN"@
                &&& addn.name == aux_name_spec(raw@.name, self.index, form_code(to@), "/aux_sum"@)
                &&& addn.device == old(target)@.devices[to@.devices[0] as int]
                &&& addn.input == list.deep_view()
                &&& belongs_to(addn, raw@.name)
                &&& attr_lookup(addn.attr, "N"@) == Some(AttrV::Int(from@.ndev() as i64))
                &&& attr_lookup(addn.attr, "T"@) == dtype_spec(raw@)
                &&& forall|k: int|
                    0 <= k < from@.ndev() ==> input_size_at(addn.attr, k) == Some(
                        ((size_spec(raw@, self.index as int) as u64) / (from@.ndev() as u64)) as i64,
                    )
            }),
            final(target)@.devices == old(target)@.devices,
            final(target)@.links == old(target)@.links,
            final(target)@.paths == old(target)@.paths,
    {
        let code = to.code();
        let addn_name = aux_name(&raw.name, self.index, &code, "/aux_sum");
        let device = target.device(to.devices[0]);

        let mut addn = make_aux(raw, "AddN");
        addn.name = addn_name.clone();
        addn.device = device;
        addn.input = crate::names::clone_strings(list);
        proof {
            assert(addn@.input =~= list.deep_view());
        }
        let ghost a0 = addn@.attr;
        attr_set(&mut addn.attr, "N", AttrValue::Int(#[verifier::truncate] (from.ndev() as i64)));
        let ghost a1 = addn@.attr;
        attr_set(&mut addn.attr, "T", get_dtype(raw));
        proof {
            crate::attr::lemma_keys_distinct();
            let nv = AttrV::Int(from@.ndev() as i64);
            let dt = dtype_spec(raw@).unwrap();
            lemma_store_lookup_same(a0, "N"@, nv);
            lemma_store_lookup_other(a0, "N"@, nv, "_tge_belong_to"@);
            lemma_store_lookup_same(a1, "T"@, dt);
            lemma_store_lookup_other(a1, "T"@, dt, "N"@);
            lemma_store_lookup_other(a1, "T"@, dt, "_tge_belong_to"@);
        }
        let size = self.get_size(raw);
        let per = size / (from.ndev() as u64);
        set_uniform_sizes(&mut addn, from.ndev(), per);
        proof {
            crate::attr::lemma_keys_distinct();
        }
        target.push_op(addn);

        let mut r: Vec<String> = Vec::new();
        let mut i: usize = 0;
        while i < to.devices.len()
            invariant
                i <= to@.devices.len(),
                r@.len() == i,
                addn_name@ == aux_name_spec(raw@.name, self.index, form_code(to@), "/aux_sum"@),
                forall|j: int| 0 <= j < i ==> (#[trigger] r@[j])@ == addn_name@,
            decreases to@.devices.len() - i,
        {
            r.push(addn_name.clone());
            i = i + 1;
        }
        proof {
            assert(final(target)@.pb =~= old(target)@.pb + seq![
                final(target)@.pb[old(target)@.pb.len() as int],
            ]);
            assert(forall|i2: int|
                0 <= i2 < to@.ndev() ==> #[trigger] r.deep_view()[i2] == r@[i2]@);
        }
        r
    }

    /// Part to full over the same device set, by an NCCL collective: one
    /// `NcclAllReduce` per device, all sharing the tensor's original name,
    /// each consuming the co-located producer replica.
    pub fn all_reduce_nccl(
        &self,
        raw: &OpDef,
        list: &Vec<String>,
        from: &Form,
        to: &Form,
        target: &mut Target,
    ) -> (r: Vec<String>)
        requires
            from@.valid(),
            to@.valid(),
            from@.is_part(),
            to@.is_full(),
            from@.devices == to@.devices,
            list@.len() == from@.ndev(),
            forall|i: int| 0 <= i < from@.ndev() ==> from@.devices[i] < old(target)@.devices.len(),
            dtype_spec(raw@) is Some,
            from@.ndev() <= i64::MAX,
        ensures
            r@.len() == to@.ndev(),
            forall|i: int|
                0 <= i < to@.ndev() ==> #[trigger] r.deep_view()[i] == aux_name_idx_spec(
                    raw@.name,
                    self.index,
                    form_code(to@),
                    "/aux_nccl"@,
                    i as usize,
                ),
            final(target)@.pb.len() == old(target)@.pb.len() + from@.ndev(),
            old(target)@.pb == final(target)@.pb.take(old(target)@.pb.len() as int),
            forall|j: int|
                0 <= j < from@.ndev() ==> {
                    let nccl = #[trigger] final(target)@.pb[old(target)@.pb.len() + j];
                    &&& nccl.op == "NcclAllReduce"@
                    &&& nccl.name == aux_name_idx_spec(
                        raw@.name,
                        self.index,
                        form_code(to@),
                        "/aux_nccl"@,
                        j as usize,
                    )
                    &&& nccl.device == old(target)@.devices[from@.devices[j] as int]
                    &&& nccl.input == seq![list.deep_view()[j]]
                    &&& belongs_to(nccl, raw@.name)
                    &&& attr_lookup(nccl.attr, "reduction"@) == Some(AttrV::Bytes("sum"@))
                    &&& attr_lookup(nccl.attr, "T"@) == dtype_spec(raw@)
                    &&& attr_lookup(nccl.attr, "num_devices"@) == Some(
                        AttrV::Int(from@.ndev() as i64),
                    )
                    &&& attr_lookup(nccl.attr, "shared_name"@) == Some(
                        AttrV::Bytes(
                            if self.index == 0 {
                                raw@.name
                            } else {
                                port_ref_spec(raw@.name, self.index as nat)
                            },
                        ),
                    )
                },
            final(target)@.devices == old(target)@.devices,
            final(target)@.links == old(target)@.links,
            final(target)@.paths == old(target)@.paths,
    {
        let code = to.code();
        let shared = self.original_name(raw);
        let ghost base = old(target)@.pb.len() as int;
        let mut i: usize = 0;
        while i < from.devices.len()
            invariant
                i <= from@.ndev(),
                from@.devices == to@.devices,
                list@.len() == from@.ndev(),
                forall|x: int|
                    0 <= x < from@.ndev() ==> from@.devices[x] < old(target)@.devices.len(),
                dtype_spec(raw@) is Some,
                from@.ndev() <= i64::MAX,
                code@ == form_code(to@),
                shared@ == (if self.index == 0 {
                    raw@.name
                } else {
                    port_ref_spec(raw@.name, self.index as nat)
                }),
                target@.pb.len() == base + i,
                old(target)@.pb == target@.pb.take(base),
                target@.devices == old(target)@.devices,
                target@.links == old(target)@.links,
                target@.paths == old(target)@.paths,
                forall|j: int|
                    0 <= j < i ==> {
                        let nccl = #[trigger] target@.pb[base + j];
                        &&& nccl.op == "NcclAllReduce"@
                        &&& nccl.name == aux_name_idx_spec(
                            raw@.name,
                            self.index,
                            form_code(to@),
                            "/aux_nccl"@,
                            j as usize,
                        )
                        &&& nccl.device == old(target)@.devices[from@.devices[j] as int]
                        &&& nccl.input == seq![list.deep_view()[j]]
                        &&& belongs_to(nccl, raw@.name)
                        &&& attr_lookup(nccl.attr, "reduction"@) == Some(AttrV::Bytes("sum"@))
                        &&& attr_lookup(nccl.attr, "T"@) == dtype_spec(raw@)
                        &&& attr_lookup(nccl.attr, "num_devices"@) == Some(
                            AttrV::Int(from@.ndev() as i64),
                        )
                        &&& attr_lookup(nccl.attr, "shared_name"@) == Some(AttrV::Bytes(shared@))
                    },
            decreases from@.ndev() - i,
        {
            let mut nccl = make_aux(raw, "NcclAllReduce");
            nccl.name = aux_name_idx(&raw.name, self.index, &code, "/aux_nccl", i);
            nccl.device = target.device(from.devices[i]);
            let ghost a0 = nccl@.attr;
            attr_set(&mut nccl.attr, "reduction", AttrValue::Bytes(String::from_str("sum")));
            let ghost a1 = nccl@.attr;
            attr_set(&mut nccl.attr, "T", get_dtype(raw));
            let ghost a2 = nccl@.attr;
            attr_set(
                &mut nccl.attr,
                "num_devices",
                AttrValue::Int(#[verifier::truncate] (from.ndev() as i64)),
            );
            let ghost a3 = nccl@.attr;
            attr_set(&mut nccl.attr, "shared_name", AttrValue::Bytes(shared.clone()));
            nccl.input.push(list[i].clone());
            proof {
                crate::attr::lemma_keys_distinct();
                let rv = AttrV::Bytes("sum"@);
                let dt = dtype_spec(raw@).unwrap();
                let ndv = AttrV::Int(from@.ndev() as i64);
                let sv = AttrV::Bytes(shared@);
                lemma_store_lookup_same(a0, "reduction"@, rv);
                lemma_store_lookup_other(a0, "reduction"@, rv, "_tge_belong_to"@);
                lemma_store_lookup_same(a1, "T"@, dt);
                lemma_store_lookup_other(a1, "T"@, dt, "reduction"@);
                lemma_store_lookup_other(a1, "T"@, dt, "_tge_belong_to"@);
                lemma_store_lookup_same(a2, "num_devices"@, ndv);
                lemma_store_lookup_other(a2, "num_devices"@, ndv, "reduction"@);
                lemma_store_lookup_other(a2, "num_devices"@, ndv, "T"@);
                lemma_store_lookup_other(a2, "num_devices"@, ndv, "_tge_belong_to"@);
                lemma_store_lookup_same(a3, "shared_name"@, sv);
                lemma_store_lookup_other(a3, "shared_name"@, sv, "reduction"@);
                lemma_store_lookup_other(a3, "shared_name"@, sv, "T"@);
                lemma_store_lookup_other(a3, "shared_name"@, sv, "num_devices"@);
                lemma_store_lookup_other(a3, "shared_name"@, sv, "_tge_belong_to"@);
                assert(nccl@.input =~= seq![list.deep_view()[i as int]]);
            }
            let ghost before = target@.pb;
            target.push_op(nccl);
            proof {
                assert(target@.pb.take(base) =~= before.take(base));
            }
            i = i + 1;
        }
        let mut r: Vec<String> = Vec::new();
        let mut i2: usize = 0;
        while i2 < from.devices.len()
            invariant
                i2 <= from@.ndev(),
                r@.len() == i2,
                code@ == form_code(to@),
                forall|j: int|
                    0 <= j < i2 ==> (#[trigger] r@[j])@ == aux_name_idx_spec(
                        raw@.name,
                        self.index,
                        form_code(to@),
                        "/aux_nccl"@,
                        j as usize,
                    ),
            decreases from@.ndev() - i2,
        {
            r.push(aux_name_idx(&raw.name, self.index, &code, "/aux_nccl", i2));
            i2 = i2 + 1;
        }
        proof {
            assert(forall|x: int| 0 <= x < to@.ndev() ==> #[trigger] r.deep_view()[x] == r@[x]@);
        }
        r
    }
}

// ---------------------------------------------------------------------------
// Resplit
// ---------------------------------------------------------------------------

/// Greatest common divisor, by subtraction.
pub open spec fn gcd_spec(a: nat, b: nat) -> nat
    decreases a + b,
{
    if a == 0 {
        b
    } else if b == 0 {
        a
    } else if a == b {
        a
    } else if a > b {
        gcd_spec((a - b) as nat, b)
    } else {
        gcd_spec(a, (b - a) as nat)
    }
}

pub proof fn lemma_gcd(a: nat, b: nat)
    requires
        a > 0,
        b > 0,
    ensures
        1 <= gcd_spec(a, b) <= a,
        gcd_spec(a, b) <= b,
        a % gcd_spec(a, b) == 0,
        b % gcd_spec(a, b) == 0,
    decreases a + b,
{
    let g = gcd_spec(a, b);
    if a == b {
        vstd::arithmetic::div_mod::lemma_mod_self_0(a as int);
    } else if a > b {
        lemma_gcd((a - b) as nat, b);
        vstd::arithmetic::div_mod::lemma_add_mod_noop((a - b) as int, b as int, g as int);
        vstd::arithmetic::div_mod::lemma_small_mod(0, g);
    } else {
        lemma_gcd(a, (b - a) as nat);
        vstd::arithmetic::div_mod::lemma_add_mod_noop(a as int, (b - a) as int, g as int);
        vstd::arithmetic::div_mod::lemma_small_mod(0, g);
    }
    if g > a {
        vstd::arithmetic::div_mod::lemma_small_mod(a, g);
    }
    if g > b {
        vstd::arithmetic::div_mod::lemma_small_mod(b, g);
    }
}

/// Greatest common divisor of two replica counts.
fn gcd(a0: usize, b0: usize) -> (g: usize)
    requires
        a0 > 0,
        b0 > 0,
    ensures
        g == gcd_spec(a0 as nat, b0 as nat),
        1 <= g <= a0,
        g <= b0,
        a0 as nat % g as nat == 0,
        b0 as nat % g as nat == 0,
{
    let mut a = a0;
    let mut b = b0;
    while a != b
        invariant
            a > 0,
            b > 0,
            gcd_spec(a as nat, b as nat) == gcd_spec(a0 as nat, b0 as nat),
        decreases a + b,
    {
        if a > b {
            a = a - b;
        } else {
            b = b - a;
        }
    }
    proof {
        lemma_gcd(a0 as nat, b0 as nat);
    }
    a
}

impl Tensor {
    /// Part to part: the producer replicas are concatenated in
    /// `gcd(from.ndev, to.ndev)` contiguous chunks, and each concatenation
    /// is split back into `to.ndev / gcd` target replicas, co-located with
    /// the first device of its chunk.
    #[verifier::rlimit(100)]
    #[verifier::spinoff_prover]
    pub fn resplit(
        &self,
        raw: &OpDef,
        list: &Vec<String>,
        from: &Form,
        to: &Form,
        target: &mut Target,
    ) -> (r: Vec<String>)
        requires
            from@.valid(),
            to@.valid(),
            from@.is_part(),
            to@.is_part(),
            list@.len() == from@.ndev(),
            forall|i: int| 0 <= i < from@.ndev() ==> from@.devices[i] < old(target)@.devices.len(),
            dtype_spec(raw@) is Some,
            size_pre(raw@, self.index as int),
            from@.ndev() <= i64::MAX,
            to@.ndev() <= i64::MAX,
            from@.ndev() < usize::MAX,
        ensures
            r@.len() == to@.ndev(),
            resplit_post(
                old(target)@.pb,
                final(target)@.pb,
                r.deep_view(),
                raw@,
                self.index,
                list.deep_view(),
                from@,
                to@,
                old(target)@.devices,
            ),
            old(target)@.pb == final(target)@.pb.take(old(target)@.pb.len() as int),
            forall|k: int|
                old(target)@.pb.len() <= k < final(target)@.pb.len() ==> belongs_to(
                    #[trigger] final(target)@.pb[k],
                    raw@.name,
                ),
            final(target)@.devices == old(target)@.devices,
            final(target)@.links == old(target)@.links,
            final(target)@.paths == old(target)@.paths,
    {
        let g = gcd(from.ndev(), to.ndev());
        let per_from = from.ndev() / g;
        let per_to = to.ndev() / g;
        proof {
            vstd::arithmetic::div_mod::lemma_fundamental_div_mod(from@.ndev() as int, g as int);
            vstd::arithmetic::div_mod::lemma_fundamental_div_mod(to@.ndev() as int, g as int);
            assert(from@.ndev() == g * per_from);
            assert(to@.ndev() == g * per_to);
            assert(per_from >= 1 && per_to >= 1) by (nonlinear_arith)
                requires
                    from@.ndev() == g * per_from,
                    to@.ndev() == g * per_to,
                    from@.ndev() >= 1,
                    to@.ndev() >= 1,
                    g >= 1,
            ;
            assert forall|x: int| 0 <= x <= g implies #[trigger] (x * per_from) <= from@.ndev()
                by {
                vstd::arithmetic::mul::lemma_mul_inequality(x, g as int, per_from as int);
            }
            assert forall|x: int| 0 <= x <= g implies #[trigger] (x * per_to) <= to@.ndev() by {
                vstd::arithmetic::mul::lemma_mul_inequality(x, g as int, per_to as int);
            }
        }
        let code = to.code();
        let size = self.get_size(raw);
        let per_size = size / (from.ndev() as u64);
        let split_size = size / (g as u64);
        let ghost base = old(target)@.pb.len() as int;
        let ghost pf = per_from as int;
        let ghost pt = per_to as int;
        let ghost codev = form_code(to@);
        let ghost lv = list.deep_view();
        let ghost dv = old(target)@.devices;

        let mut concated: Vec<(usize, String)> = Vec::new();
        let mut i: usize = 0;
        while i < g
            invariant
                i <= g,
                concated@.len() == i,
                target@.pb.len() == base + 2 * i,
                old(target)@.pb == target@.pb.take(base),
                forall|k: int|
                    base <= k < target@.pb.len() ==> belongs_to(
                        #[trigger] target@.pb[k],
                        raw@.name,
                    ),
                forall|x: int|
                    0 <= x < i ==> axis_const_ok(
                        #[trigger] target@.pb[base + 2 * x],
                        resplit_group(raw@.name, self.index, codev, x as usize, "/concat_axis"@),
                        dv[from@.devices[x * pf] as int],
                        raw@.name,
                    ),
                forall|x: int|
                    0 <= x < i ==> {
                        let cc = #[trigger] target@.pb[base + 2 * x + 1];
                        &&& cc.op == "ConcatV2"@
                        &&& cc.name == resplit_group(raw@.name, self.index, codev, x as usize, "/concat"@)
                        &&& cc.device == dv[from@.devices[x * pf] as int]
                        &&& cc.input == lv.subrange(x * pf, x * pf + pf) + seq![
                            resplit_group(raw@.name, self.index, codev, x as usize, "/concat_axis"@),
                        ]
                        &&& belongs_to(cc, raw@.name)
                        &&& attr_lookup(cc.attr, "N"@) == Some(AttrV::Int(per_from as i64))
                        &&& attr_lookup(cc.attr, "T"@) == dtype_spec(raw@)
                        &&& attr_lookup(cc.attr, "Tidx"@) == Some(AttrV::DType(DT_INT32))
                        &&& forall|k: int|
                            0 <= k < pf ==> input_size_at(cc.attr, k) == Some(per_size as i64)
                    },
                forall|x: int|
                    0 <= x < i ==> (#[trigger] concated@[x]).0 == from@.devices[x * pf]
                        && concated@[x].1@ == resplit_group(
                        raw@.name,
                        self.index,
                        codev,
                        x as usize,
                        "/concat"@,
                    ),
                target@.devices == old(target)@.devices,
                target@.links == old(target)@.links,
                target@.paths == old(target)@.paths,
            decreases g - i,
        {
            proof {
                assert((i + 1) * per_from == i * per_from + per_from) by (nonlinear_arith);
            }
            let start = i * per_from;
            let dest = from.devices[start];
            let mut axis_name = aux_name_idx(&raw.name, self.index, &code, "/aux_resplit", i);
            axis_name.append("/concat_axis");
            let mut concat_name = aux_name_idx(&raw.name, self.index, &code, "/aux_resplit", i);
            concat_name.append("/concat");
            proof {
                assert(axis_name@ == resplit_group(
                    raw@.name,
                    self.index,
                    codev,
                    i as usize,
                    "/concat_axis"@,
                ));
                assert(concat_name@ == resplit_group(
                    raw@.name,
                    self.index,
                    codev,
                    i as usize,
                    "/concat"@,
                ));
            }
            let device = target.device(dest);
            let axis = int_const(raw, axis_name.clone(), device.clone(), Vec::new(), 0);

            let mut concat = make_aux(raw, "ConcatV2");
            concat.name = concat_name.clone();
            concat.device = device;
            let ghost cattr = concat@.attr;
            let ghost cname = concat@.name;
            let ghost cdev = concat@.device;
            let mut j: usize = 0;
            while j < per_from
                invariant
                    j <= per_from,
                    i * per_from + per_from <= from@.ndev(),
                    concat.input@.len() == j,
                    concat@.attr == cattr,
                    concat@.name == cname,
                    concat@.device == cdev,
                    concat@.op == "ConcatV2"@,
                    belongs_to(concat@, raw@.name),
                    forall|y: int|
                        0 <= y < j ==> (#[trigger] concat.input@[y])@ == lv[i * pf + y],
                decreases per_from - j,
            {
                concat.input.push(list[start + j].clone());
                j = j + 1;
            }
            concat.input.push(axis_name);
            proof {
                assert forall|y: int| 0 <= y < per_from + 1 implies (#[trigger] concat@.input[y])
                    == (if y < pf {
                    lv[i * pf + y]
                } else {
                    resplit_group(raw@.name, self.index, codev, i as usize, "/concat_axis"@)
                }) by {
                    assert(concat@.input[y] == concat.input@[y]@);
                }
                assert(concat@.input =~= lv.subrange(i * pf, i * pf + pf) + seq![
                    resplit_group(raw@.name, self.index, codev, i as usize, "/concat_axis"@),
                ]);
            }
            let ghost a0 = concat@.attr;
            attr_set(
                &mut concat.attr,
                "N",
                AttrValue::Int(#[verifier::truncate] (per_from as i64)),
            );
            let ghost a1 = concat@.attr;
            attr_set(&mut concat.attr, "T", get_dtype(raw));
            let ghost a2 = concat@.attr;
            attr_set(&mut concat.attr, "Tidx", AttrValue::DType(DT_INT32));
            proof {
                crate::attr::lemma_keys_distinct();
                let nv = AttrV::Int(per_from as i64);
                let dt = dtype_spec(raw@).unwrap();
                let tx = AttrV::DType(DT_INT32);
                lemma_store_lookup_same(a0, "N"@, nv);
                lemma_store_lookup_other(a0, "N"@, nv, "_tge_belong_to"@);
                lemma_store_lookup_same(a1, "T"@, dt);
                lemma_store_lookup_other(a1, "T"@, dt, "N"@);
                lemma_store_lookup_other(a1, "T"@, dt, "_tge_belong_to"@);
                lemma_store_lookup_same(a2, "Tidx"@, tx);
                lemma_store_lookup_other(a2, "Tidx"@, tx, "N"@);
                lemma_store_lookup_other(a2, "Tidx"@, tx, "T"@);
                lemma_store_lookup_other(a2, "Tidx"@, tx, "_tge_belong_to"@);
            }
            set_uniform_sizes(&mut concat, per_from, per_size);
            proof {
                crate::attr::lemma_keys_distinct();
                assert(belongs_to(concat@, raw@.name));
            }
            let ghost axv = axis@;
            let ghost ccv = concat@;
            let ghost before = target@.pb;
            target.push_op(axis);
            target.push_op(concat);
            concated.push((dest, concat_name));
            proof {
                assert(target@.pb.take(base) =~= before.take(base));
                assert forall|k: int| base <= k < target@.pb.len() implies belongs_to(
                    #[trigger] target@.pb[k],
                    raw@.name,
                ) by {
                    if k < target@.pb.len() - 2 {
                        assert(target@.pb[k] == before[k]);
                    }
                }
                assert forall|x: int| 0 <= x < i + 1 implies axis_const_ok(
                    #[trigger] target@.pb[base + 2 * x],
                    resplit_group(raw@.name, self.index, codev, x as usize, "/concat_axis"@),
                    dv[from@.devices[x * pf] as int],
                    raw@.name,
                ) by {
                    if x < i {
                        assert(target@.pb[base + 2 * x] == before[base + 2 * x]);
                    } else {
                        assert(target@.pb[base + 2 * x] == axv);
                    }
                }
                assert forall|x: int| 0 <= x < i + 1 implies {
                    let cc = #[trigger] target@.pb[base + 2 * x + 1];
                    &&& cc.op == "ConcatV2"@
                    &&& cc.name == resplit_group(raw@.name, self.index, codev, x as usize, "/concat"@)
                    &&& cc.device == dv[from@.devices[x * pf] as int]
                    &&& cc.input == lv.subrange(x * pf, x * pf + pf) + seq![
                        resplit_group(raw@.name, self.index, codev, x as usize, "/concat_axis"@),
                    ]
                    &&& belongs_to(cc, raw@.name)
                    &&& attr_lookup(cc.attr, "N"@) == Some(AttrV::Int(per_from as i64))
                    &&& attr_lookup(cc.attr, "T"@) == dtype_spec(raw@)
                    &&& attr_lookup(cc.attr, "Tidx"@) == Some(AttrV::DType(DT_INT32))
                    &&& forall|k: int|
                        0 <= k < pf ==> input_size_at(cc.attr, k) == Some(per_size as i64)
                } by {
                    if x < i {
                        assert(target@.pb[base + 2 * x + 1] == before[base + 2 * x + 1]);
                    } else {
                        assert(target@.pb[base + 2 * x + 1] == ccv);
                    }
                }
            }
            i = i + 1;
        }

        let ghost mid = target@.pb;
        let mut r: Vec<String> = Vec::new();
        let mut i2: usize = 0;
        while i2 < g
            invariant
                i2 <= g,
                concated@.len() == g,
                r@.len() == i2 * per_to,
                i2 * per_to <= to@.ndev(),
                to@.ndev() == g * per_to,
                mid.len() == base + 2 * g,
                target@.pb.len() == base + 2 * g + 2 * i2,
                mid == target@.pb.take(mid.len() as int),
                old(target)@.pb == target@.pb.take(base),
                forall|k: int|
                    base <= k < target@.pb.len() ==> belongs_to(
                        #[trigger] target@.pb[k],
                        raw@.name,
                    ),
                forall|x: int|
                    0 <= x < g ==> (#[trigger] concated@[x]).0 == from@.devices[x * pf]
                        && concated@[x].1@ == resplit_group(
                        raw@.name,
                        self.index,
                        codev,
                        x as usize,
                        "/concat"@,
                    ),
                forall|x: int|
                    0 <= x < i2 ==> axis_const_ok(
                        #[trigger] target@.pb[base + 2 * g + 2 * x],
                        resplit_group(raw@.name, self.index, codev, x as usize, "/split_dim"@),
                        dv[from@.devices[x * pf] as int],
                        raw@.name,
                    ),
                forall|x: int|
                    0 <= x < i2 ==> {
                        let sp = #[trigger] target@.pb[base + 2 * g + 2 * x + 1];
                        &&& sp.op == "Split"@
                        &&& sp.name == resplit_group(raw@.name, self.index, codev, x as usize, "/split"@)
                        &&& sp.device == dv[from@.devices[x * pf] as int]
                        &&& sp.input == seq![
                            resplit_group(raw@.name, self.index, codev, x as usize, "/split_dim"@),
                            resplit_group(raw@.name, self.index, codev, x as usize, "/concat"@),
                        ]
                        &&& belongs_to(sp, raw@.name)
                        &&& attr_lookup(sp.attr, "T"@) == dtype_spec(raw@)
                        &&& attr_lookup(sp.attr, "num_split"@) == Some(AttrV::Int(per_to as i64))
                        &&& input_size_at(sp.attr, 1) == Some(split_size as i64)
                    },
                forall|x: int, y: int|
                    0 <= x < i2 && 0 <= y < pt ==> (#[trigger] r@[x * pt + y])@ == port_ref_spec(
                        resplit_group(raw@.name, self.index, codev, x as usize, "/split"@),
                        y as nat,
                    ),
                target@.devices == old(target)@.devices,
                target@.links == old(target)@.links,
                target@.paths == old(target)@.paths,
            decreases g - i2,
        {
            proof {
                assert((i2 + 1) * per_to == i2 * per_to + per_to) by (nonlinear_arith);
                assert((i2 + 1) * per_from == i2 * per_from + per_from) by (nonlinear_arith);
                assert(i2 * per_from < from@.ndev());
            }
            let dest = concated[i2].0;
            let mut dim_name = aux_name_idx(&raw.name, self.index, &code, "/aux_resplit", i2);
            dim_name.append("/split_dim");
            let mut split_name = aux_name_idx(&raw.name, self.index, &code, "/aux_resplit", i2);
            split_name.append("/split");
            proof {
                assert(dim_name@ == resplit_group(
                    raw@.name,
                    self.index,
                    codev,
                    i2 as usize,
                    "/split_dim"@,
                ));
                assert(split_name@ == resplit_group(
                    raw@.name,
                    self.index,
                    codev,
                    i2 as usize,
                    "/split"@,
                ));
                assert(dest < old(target)@.devices.len());
            }
            let device = target.device(dest);
            let dim = int_const(raw, dim_name.clone(), device.clone(), Vec::new(), 0);

            let mut split = make_aux(raw, "Split");
            split.name = split_name.clone();
            split.device = device;
            split.input.push(dim_name);
            split.input.push(concated[i2].1.clone());
            proof {
                assert(split.input@.len() == 2);
                assert(split@.input[0] == split.input@[0]@);
                assert(split@.input[1] == split.input@[1]@);
                assert(split@.input =~= seq![
                    resplit_group(raw@.name, self.index, codev, i2 as usize, "/split_dim"@),
                    resplit_group(raw@.name, self.index, codev, i2 as usize, "/concat"@),
                ]);
            }
            let ghost a0 = split@.attr;
            attr_set(&mut split.attr, "T", get_dtype(raw));
            let ghost a1 = split@.attr;
            attr_set(
                &mut split.attr,
                "num_split",
                AttrValue::Int(#[verifier::truncate] (per_to as i64)),
            );
            proof {
                crate::attr::lemma_keys_distinct();
                let dt = dtype_spec(raw@).unwrap();
                let ns = AttrV::Int(per_to as i64);
                lemma_store_lookup_same(a0, "T"@, dt);
                lemma_store_lookup_other(a0, "T"@, dt, "_tge_belong_to"@);
                lemma_store_lookup_same(a1, "num_split"@, ns);
                lemma_store_lookup_other(a1, "num_split"@, ns, "T"@);
                lemma_store_lookup_other(a1, "num_split"@, ns, "_tge_belong_to"@);
            }
            set_input_size(&mut split, 1, split_size);
            proof {
                crate::attr::lemma_keys_distinct();
                let skey = "_tge_input_sizes"@;
                let a2 = attr_store(a1, "num_split"@, AttrV::Int(per_to as i64));
                let stored = Seq::new(2, |_j: int| 0i64).update(1, split_size as i64);
                assert(attr_lookup(a2, skey) is None) by {
                    lemma_store_lookup_other(a1, "num_split"@, AttrV::Int(per_to as i64), skey);
                    lemma_store_lookup_other(a0, "T"@, dtype_spec(raw@).unwrap(), skey);
                    lemma_store_lookup_other(
                        Seq::<(Seq<char>, AttrV)>::empty(),
                        "_tge_belong_to"@,
                        AttrV::Bytes(raw@.name),
                        skey,
                    );
                    assert(attr_lookup(Seq::<(Seq<char>, AttrV)>::empty(), skey) is None);
                }
                assert(Seq::<i64>::empty() + Seq::new(2nat, |_j: int| 0i64) =~= Seq::new(
                    2nat,
                    |_j: int| 0i64,
                ));
                lemma_store_lookup_same(a2, skey, AttrV::IntList(stored));
                lemma_store_lookup_other(a2, skey, AttrV::IntList(stored), "T"@);
                lemma_store_lookup_other(a2, skey, AttrV::IntList(stored), "num_split"@);
                lemma_store_lookup_other(a2, skey, AttrV::IntList(stored), "_tge_belong_to"@);
            }
            let ghost dmv = dim@;
            let ghost spv = split@;
            let ghost before = target@.pb;
            target.push_op(dim);
            target.push_op(split);
            proof {
                assert(target@.pb.take(base) =~= before.take(base));
                assert(target@.pb.take(mid.len() as int) =~= before.take(mid.len() as int));
                assert forall|k: int| base <= k < target@.pb.len() implies belongs_to(
                    #[trigger] target@.pb[k],
                    raw@.name,
                ) by {
                    if k < target@.pb.len() - 2 {
                        assert(target@.pb[k] == before[k]);
                    }
                }
                assert forall|x: int| 0 <= x < i2 + 1 implies axis_const_ok(
                    #[trigger] target@.pb[base + 2 * g + 2 * x],
                    resplit_group(raw@.name, self.index, codev, x as usize, "/split_dim"@),
                    dv[from@.devices[x * pf] as int],
                    raw@.name,
                ) by {
                    if x < i2 {
                        assert(target@.pb[base + 2 * g + 2 * x] == before[base + 2 * g + 2 * x]);
                    } else {
                        assert(target@.pb[base + 2 * g + 2 * x] == dmv);
                    }
                }
                assert forall|x: int| 0 <= x < i2 + 1 implies {
                    let sp = #[trigger] target@.pb[base + 2 * g + 2 * x + 1];
                    &&& sp.op == "Split"@
                    &&& sp.name == resplit_group(raw@.name, self.index, codev, x as usize, "/split"@)
                    &&& sp.device == dv[from@.devices[x * pf] as int]
                    &&& sp.input == seq![
                        resplit_group(raw@.name, self.index, codev, x as usize, "/split_dim"@),
                        resplit_group(raw@.name, self.index, codev, x as usize, "/concat"@),
                    ]
                    &&& belongs_to(sp, raw@.name)
                    &&& attr_lookup(sp.attr, "T"@) == dtype_spec(raw@)
                    &&& attr_lookup(sp.attr, "num_split"@) == Some(AttrV::Int(per_to as i64))
                    &&& input_size_at(sp.attr, 1) == Some(split_size as i64)
                } by {
                    if x < i2 {
                        assert(target@.pb[base + 2 * g + 2 * x + 1] == before[base + 2 * g + 2 * x
                            + 1]);
                    } else {
                        assert(target@.pb[base + 2 * g + 2 * x + 1] == spv);
                    }
                }
            }
            let ghost rprev = r@;
            let mut j: usize = 0;
            while j < per_to
                invariant
                    j <= per_to,
                    i2 < g,
                    i2 * per_to + per_to <= to@.ndev(),
                    r@.len() == i2 * per_to + j,
                    rprev.len() == i2 * per_to,
                    r@.take(rprev.len() as int) == rprev,
                    split_name@ == resplit_group(
                        raw@.name,
                        self.index,
                        codev,
                        i2 as usize,
                        "/split"@,
                    ),
                    forall|y: int|
                        0 <= y < j ==> (#[trigger] r@[i2 * pt + y])@ == port_ref_spec(
                            split_name@,
                            y as nat,
                        ),
                decreases per_to - j,
            {
                r.push(port_ref(&split_name, j));
                proof {
                    assert(r@.take(rprev.len() as int) =~= rprev);
                }
                j = j + 1;
            }
            proof {
                assert forall|x: int, y: int| 0 <= x < i2 + 1 && 0 <= y < pt implies (
                #[trigger] r@[x * pt + y])@ == port_ref_spec(
                    resplit_group(raw@.name, self.index, codev, x as usize, "/split"@),
                    y as nat,
                ) by {
                    if x < i2 {
                        assert(0 <= x * pt + y < rprev.len()) by (nonlinear_arith)
                            requires
                                0 <= x < i2,
                                0 <= y < pt,
                                rprev.len() == i2 * pt,
                                pt >= 1,
                        ;
                        assert(r@[x * pt + y] == r@.take(rprev.len() as int)[x * pt + y]);
                        assert(r@[x * pt + y] == rprev[x * pt + y]);
                    }
                }
            }
            i2 = i2 + 1;
        }
        proof {
            assert(r@.len() == g * per_to);
            let pb1 = target@.pb;
            assert(pb1.take(base) =~= old(target)@.pb);
            assert forall|x: int| 0 <= x < g implies axis_const_ok(
                #[trigger] pb1[base + 2 * x],
                resplit_group(raw@.name, self.index, codev, x as usize, "/concat_axis"@),
                dv[from@.devices[x * pf] as int],
                raw@.name,
            ) by {
                assert(pb1[base + 2 * x] == pb1.take(mid.len() as int)[base + 2 * x]);
                assert(pb1[base + 2 * x] == mid[base + 2 * x]);
            }
            assert forall|x: int| 0 <= x < g implies {
                let cc = #[trigger] pb1[base + 2 * x + 1];
                &&& cc.op == "ConcatV2"@
                &&& cc.name == resplit_group(raw@.name, self.index, codev, x as usize, "/concat"@)
                &&& cc.device == dv[from@.devices[x * pf] as int]
                &&& cc.input == lv.subrange(x * pf, x * pf + pf) + seq![
                    resplit_group(raw@.name, self.index, codev, x as usize, "/concat_axis"@),
                ]
                &&& belongs_to(cc, raw@.name)
                &&& attr_lookup(cc.attr, "N"@) == Some(AttrV::Int(per_from as i64))
                &&& attr_lookup(cc.attr, "T"@) == dtype_spec(raw@)
                &&& attr_lookup(cc.attr, "Tidx"@) == Some(AttrV::DType(DT_INT32))
                &&& forall|k: int|
                    0 <= k < pf ==> input_size_at(cc.attr, k) == Some(per_size as i64)
            } by {
                assert(pb1[base + 2 * x + 1] == pb1.take(mid.len() as int)[base + 2 * x + 1]);
                assert(pb1[base + 2 * x + 1] == mid[base + 2 * x + 1]);
            }
            assert forall|x: int, y: int| 0 <= x < g && 0 <= y < pt implies
                #[trigger] r.deep_view()[x * pt + y] == port_ref_spec(
                resplit_group(raw@.name, self.index, codev, x as usize, "/split"@),
                y as nat,
            ) by {
                assert(0 <= x * pt + y < r@.len()) by (nonlinear_arith)
                    requires
                        0 <= x < g,
                        0 <= y < pt,
                        r@.len() == g * pt,
                        pt >= 1,
                ;
                assert(r.deep_view()[x * pt + y] == r@[x * pt + y]@);
            }
            assert(resplit_post(
                old(target)@.pb,
                target@.pb,
                r.deep_view(),
                raw@,
                self.index,
                lv,
                from@,
                to@,
                dv,
            ));
        }
        r
    }
}

// ---------------------------------------------------------------------------
// Ring all-reduce
// ---------------------------------------------------------------------------

/// `"<name>/<port>_<code>/aux_ring<mid>_<i><tail>"`: a member of the ring
/// construction for device `i`.
pub open spec fn ring_name(
    name: Seq<char>,
    port: usize,
    code: Seq<char>,
    group: Seq<char>,
    i: usize,
    tail: Seq<char>,
) -> Seq<char> {
    aux_name_idx_spec(name, port, code, group, i) + tail
}

/// `"..._<i>_<r>"`: a ring operator of device `i` in round `r`.
pub open spec fn ring_round_name(
    name: Seq<char>,
    port: usize,
    code: Seq<char>,
    group: Seq<char>,
    i: usize,
    r: usize,
) -> Seq<char> {
    aux_name_idx_spec(name, port, code, group, i) + seq!['_'] + dec_seq(r as nat)
}

/// A flatten-shape `Const`: the one-element 32-bit tensor `[-1]`.
pub open spec fn flat_const_ok(
    op: OpDefV,
    name: Seq<char>,
    device: Seq<char>,
    owner: Seq<char>,
) -> bool {
    &&& op.op == "Const"@
    &&& op.name == name
    &&& op.device == device
    &&& op.input.len() == 0
    &&& belongs_to(op, owner)
    &&& attr_lookup(op.attr, "dtype"@) == Some(AttrV::DType(DT_INT32))
    &&& attr_lookup(op.attr, "value"@) == Some(
        AttrV::TensorVal(
            TensorValueV { dtype: DT_INT32, shape: seq![1i64], int_val: seq![-1i64] },
        ),
    )
}

/// The chunk the reduce-scatter of round `r` replaces on device `i`.
pub open spec fn ring_add_slot(r: int, i: int, n: nat) -> int {
    (r + i) % (n as int)
}

/// The chunk the all-gather of round `r` replaces on device `i`.
pub open spec fn ring_gather_slot(r: int, i: int, n: nat) -> int {
    (i + r + n - 1) % (n as int)
}

/// Chunk `x` of device `i` after `rr` complete reduce-scatter rounds:
/// output `x` of device `i`'s `Split`, with each passed round's slot
/// replaced by that round's `Add`.
pub open spec fn ring_rslot(
    name: Seq<char>,
    port: usize,
    code: Seq<char>,
    n: nat,
    rr: nat,
    i: int,
    x: int,
) -> Seq<char>
    decreases rr,
{
    if rr == 0 {
        port_ref_spec(ring_name(name, port, code, "/aux_ring/split"@, i as usize, "/split"@), x as nat)
    } else if x == ring_add_slot(rr - 1, i, n) {
        ring_round_name(name, port, code, "/aux_ring/add"@, i as usize, (rr - 1) as usize)
    } else {
        ring_rslot(name, port, code, n, (rr - 1) as nat, i, x)
    }
}

/// Chunk `x` of device `i` after all reduce-scatter rounds and `gr`
/// complete all-gather rounds: each passed gather round's slot is replaced
/// by that round's `Identity` copy.
pub open spec fn ring_gslot(
    name: Seq<char>,
    port: usize,
    code: Seq<char>,
    n: nat,
    gr: nat,
    i: int,
    x: int,
) -> Seq<char>
    decreases gr,
{
    if gr == 0 {
        ring_rslot(name, port, code, n, (n - 1) as nat, i, x)
    } else if x == ring_gather_slot(gr - 1, i, n) {
        ring_round_name(name, port, code, "/aux_ring/identity"@, i as usize, (gr - 1) as usize)
    } else {
        ring_gslot(name, port, code, n, (gr - 1) as nat, i, x)
    }
}

/// For a fixed round, distinct devices replace distinct chunks.
pub proof fn lemma_slot_inj(r: int, i1: int, i2: int, n: nat)
    requires
        n > 0,
        0 <= i1 < n,
        0 <= i2 < n,
        (r + i1) % (n as int) == (r + i2) % (n as int),
    ensures
        i1 == i2,
{
    vstd::arithmetic::div_mod::lemma_fundamental_div_mod(r + i1, n as int);
    vstd::arithmetic::div_mod::lemma_fundamental_div_mod(r + i2, n as int);
    let q1 = (r + i1) / (n as int);
    let q2 = (r + i2) / (n as int);
    assert(i1 - i2 == (n as int) * (q1 - q2)) by (nonlinear_arith)
        requires
            r + i1 == (n as int) * q1 + (r + i1) % (n as int),
            r + i2 == (n as int) * q2 + (r + i2) % (n as int),
            (r + i1) % (n as int) == (r + i2) % (n as int),
    ;
    assert(i1 == i2) by (nonlinear_arith)
        requires
            i1 - i2 == (n as int) * (q1 - q2),
            0 <= i1 < n,
            0 <= i2 < n,
    ;
}

/// The reduce-scatter `Add` of round `rd` on device `i`: it sums the
/// round's chunk of device `i` and the same chunk of the next device
/// around the ring.
pub open spec fn ring_add_ok(
    op: OpDefV,
    name: Seq<char>,
    port: usize,
    code: Seq<char>,
    n: nat,
    devices: Seq<Seq<char>>,
    fdevs: Seq<usize>,
    dt: Option<AttrV>,
    psz: i64,
    rd: int,
    i: int,
) -> bool {
    &&& op.op == "Add"@
    &&& op.name == ring_round_name(name, port, code, "/aux_ring/add"@, i as usize, rd as usize)
    &&& op.device == devices[fdevs[i] as int]
    &&& op.input == seq![
        ring_rslot(name, port, code, n, rd as nat, i, ring_add_slot(rd, i, n)),
        ring_rslot(
            name,
            port,
            code,
            n,
            rd as nat,
            (i + 1) % (n as int),
            ring_add_slot(rd, i, n),
        ),
    ]
    &&& belongs_to(op, name)
    &&& attr_lookup(op.attr, "T"@) == dt
    &&& input_size_at(op.attr, 0) == Some(psz)
    &&& input_size_at(op.attr, 1) == Some(psz)
}

/// The all-gather `Identity` of round `rd` on device `i`: it copies the
/// round's chunk from the next device around the ring.
pub open spec fn ring_id_ok(
    op: OpDefV,
    name: Seq<char>,
    port: usize,
    code: Seq<char>,
    n: nat,
    devices: Seq<Seq<char>>,
    fdevs: Seq<usize>,
    dt: Option<AttrV>,
    psz: i64,
    rd: int,
    i: int,
) -> bool {
    &&& op.op == "Identity"@
    &&& op.name == ring_round_name(name, port, code, "/aux_ring/identity"@, i as usize, rd as usize)
    &&& op.device == devices[fdevs[i] as int]
    &&& op.input == seq![
        ring_gslot(
            name,
            port,
            code,
            n,
            rd as nat,
            (i + 1) % (n as int),
            ring_gather_slot(rd, i, n),
        ),
    ]
    &&& belongs_to(op, name)
    &&& attr_lookup(op.attr, "T"@) == dt
    &&& input_size_at(op.attr, 0) == Some(psz)
}

/// What `all_reduce_ring` emits and returns, given the producer's names
/// `list`, phase by phase: per device a `Shape`, a flatten `Const` and
/// `Reshape`, a chunking `Const` and `Split`; then `n-1` reduce-scatter
/// rounds of `Add` and `n-1` all-gather rounds of `Identity` around the
/// ring, wired through the evolving chunk table; finally per device a
/// `ConcatV2` of its chunks and a `Reshape` back to the recorded shape,
/// whose names are the result.
pub open spec fn ring_post(
    pb0: Seq<OpDefV>,
    pb1: Seq<OpDefV>,
    r: Seq<Seq<char>>,
    raw: OpDefV,
    port: usize,
    list: Seq<Seq<char>>,
    from: FormV,
    to: FormV,
    devices: Seq<Seq<char>>,
) -> bool {
    let n = from.ndev() as int;
    let code = form_code(to);
    let name = raw.name;
    let b = pb0.len() as int;
    let psize = ((size_spec(raw, port as int) as u64) / (from.ndev() as u64)) as i64;
    &&& pb1.len() == pb0.len() + 2 * n * n + 6 * n
    &&& pb1.take(b) == pb0
    &&& r.len() == to.ndev()
    &&& (forall|i: int|
        0 <= i < n ==> #[trigger] r[i] == aux_name_idx_spec(name, port, code, "/aux_ring/reshape"@, i as usize))
    &&& (forall|i: int|
        0 <= i < n ==> {
            let sh = #[trigger] pb1[b + i];
            &&& sh.op == "Shape"@
            &&& sh.name == aux_name_idx_spec(name, port, code, "/aux_ring/shape"@, i as usize)
            &&& sh.device == devices[from.devices[i] as int]
            &&& sh.input == seq![list[i]]
            &&& belongs_to(sh, name)
            &&& attr_lookup(sh.attr, "T"@) == dtype_spec(raw)
            &&& input_size_at(sh.attr, 0) == Some(psize)
        })
    &&& (forall|i: int|
        0 <= i < n ==> flat_const_ok(
            #[trigger] pb1[b + n + 2 * i],
            ring_name(name, port, code, "/aux_ring/flat"@, i as usize, "/shape"@),
            devices[from.devices[i] as int],
            name,
        ))
    &&& (forall|i: int|
        0 <= i < n ==> {
            let fl = #[trigger] pb1[b + n + 2 * i + 1];
            &&& fl.op == "Reshape"@
            &&& fl.name == ring_name(name, port, code, "/aux_ring/flat"@, i as usize, "/flat"@)
            &&& fl.device == devices[from.devices[i] as int]
            &&& fl.input == seq![list[i], ring_name(name, port, code, "/aux_ring/flat"@, i as usize, "/shape"@)]
            &&& belongs_to(fl, name)
            &&& attr_lookup(fl.attr, "T"@) == dtype_spec(raw)
            &&& input_size_at(fl.attr, 0) == Some(psize)
        })
    &&& (forall|i: int|
        0 <= i < n ==> axis_const_ok(
            #[trigger] pb1[b + 3 * n + 2 * i],
            ring_name(name, port, code, "/aux_ring/split"@, i as usize, "/dim"@),
            devices[from.devices[i] as int],
            name,
        ))
    &&& (forall|i: int|
        0 <= i < n ==> {
            let sp = #[trigger] pb1[b + 3 * n + 2 * i + 1];
            &&& sp.op == "Split"@
            &&& sp.name == ring_name(name, port, code, "/aux_ring/split"@, i as usize, "/split"@)
            &&& sp.device == devices[from.devices[i] as int]
            &&& sp.input == seq![
                ring_name(name, port, code, "/aux_ring/split"@, i as usize, "/dim"@),
                ring_name(name, port, code, "/aux_ring/flat"@, i as usize, "/flat"@),
            ]
            &&& belongs_to(sp, name)
            &&& attr_lookup(sp.attr, "T"@) == dtype_spec(raw)
            &&& attr_lookup(sp.attr, "num_split"@) == Some(AttrV::Int(from.ndev() as i64))
            &&& input_size_at(sp.attr, 1) == Some(psize)
        })
    &&& (forall|rd: int, i: int|
        0 <= rd < n - 1 && 0 <= i < n ==> ring_add_ok(
            #[trigger] pb1[b + 5 * n + rd * n + i],
            name,
            port,
            code,
            from.ndev(),
            devices,
            from.devices,
            dtype_spec(raw),
            psize,
            rd,
            i,
        ))
    &&& (forall|rd: int, i: int|
        0 <= rd < n - 1 && 0 <= i < n ==> ring_id_ok(
            #[trigger] pb1[b + 5 * n + (n - 1) * n + rd * n + i],
            name,
            port,
            code,
            from.ndev(),
            devices,
            from.devices,
            dtype_spec(raw),
            psize,
            rd,
            i,
        ))
    &&& (forall|i: int|
        0 <= i < n ==> axis_const_ok(
            #[trigger] pb1[b + 5 * n + 2 * ((n - 1) * n) + 2 * i],
            ring_name(name, port, code, "/aux_ring/concat"@, i as usize, "/axis"@),
            devices[from.devices[i] as int],
            name,
        ))
    &&& (forall|i: int|
        0 <= i < n ==> {
            let cc = #[trigger] pb1[b + 5 * n + 2 * ((n - 1) * n) + 2 * i + 1];
            &&& cc.op == "ConcatV2"@
            &&& cc.name == ring_name(name, port, code, "/aux_ring/concat"@, i as usize, "/concat"@)
            &&& cc.device == devices[from.devices[i] as int]
            &&& cc.input == Seq::new(from.ndev(), |x: int| ring_gslot(
                name,
                port,
                code,
                from.ndev(),
                (n - 1) as nat,
                i,
                x,
            )) + seq![ring_name(name, port, code, "/aux_ring/concat"@, i as usize, "/axis"@)]
            &&& belongs_to(cc, name)
            &&& attr_lookup(cc.attr, "N"@) == Some(AttrV::Int(from.ndev() as i64))
            &&& attr_lookup(cc.attr, "T"@) == dtype_spec(raw)
            &&& attr_lookup(cc.attr, "Tidx"@) == Some(AttrV::DType(DT_INT32))
            &&& forall|k: int| 0 <= k < n ==> input_size_at(cc.attr, k) == Some(psize)
        })
    &&& (forall|i: int|
        0 <= i < n ==> {
            let rs = #[trigger] pb1[b + 7 * n + 2 * ((n - 1) * n) + i];
            &&& rs.op == "Reshape"@
            &&& rs.name == aux_name_idx_spec(name, port, code, "/aux_ring/reshape"@, i as usize)
            &&& rs.device == devices[from.devices[i] as int]
            &&& rs.input == seq![
                ring_name(name, port, code, "/aux_ring/concat"@, i as usize, "/concat"@),
                aux_name_idx_spec(name, port, code, "/aux_ring/shape"@, i as usize),
            ]
            &&& belongs_to(rs, name)
            &&& attr_lookup(rs.attr, "T"@) == dtype_spec(raw)
            &&& input_size_at(rs.attr, 0) == Some(psize)
        })
}

/// A named, placed auxiliary operator carrying the producer's data type.
fn typed_aux(raw: &OpDef, kind: &str, name: String, device: String) -> (n: OpDef)
    requires
        dtype_spec(raw@) is Some,
    ensures
        n@.name == name@,
        n@.op == kind@,
        n@.device == device@,
        n.input@.len() == 0,
        n@.input == Seq::<Seq<char>>::empty(),
        belongs_to(n@, raw@.name),
        attr_lookup(n@.attr, "T"@) == dtype_spec(raw@),
{
    let mut n = make_aux(raw, kind);
    n.name = name;
    n.device = device;
    let ghost a0 = n@.attr;
    attr_set(&mut n.attr, "T", get_dtype(raw));
    proof {
        crate::attr::lemma_keys_distinct();
        let dt = dtype_spec(raw@).unwrap();
        lemma_store_lookup_same(a0, "T"@, dt);
        lemma_store_lookup_other(a0, "T"@, dt, "_tge_belong_to"@);
        assert(n@.input =~= Seq::<Seq<char>>::empty());
    }
    n
}

/// `set_input_size`, with every other attribute left alone.
fn sized_input(node: &mut OpDef, index: usize, size: u64)
    requires
        index < usize::MAX,
    ensures
        final(node)@.name == old(node)@.name,
        final(node)@.op == old(node)@.op,
        final(node)@.device == old(node)@.device,
        final(node)@.input == old(node)@.input,
        input_size_at(final(node)@.attr, index as int) == Some(size as i64),
        forall|k2: int|
            0 <= k2 && k2 != index && input_size_at(old(node)@.attr, k2) is Some ==> input_size_at(
                final(node)@.attr,
                k2,
            ) == input_size_at(old(node)@.attr, k2),
        forall|key: Seq<char>|
            key != "_tge_input_sizes"@ ==> attr_lookup(final(node)@.attr, key) == attr_lookup(
                old(node)@.attr,
                key,
            ),
{
    let ghost a0 = node@.attr;
    set_input_size(node, index, size);
    proof {
        let skey = "_tge_input_sizes"@;
        let cur = match attr_lookup(a0, skey) {
            Some(AttrV::IntList(l)) => l,
            _ => Seq::<i64>::empty(),
        };
        let grown = if cur.len() > index as int {
            cur
        } else {
            cur + Seq::new((index + 1 - cur.len()) as nat, |_j: int| 0i64)
        };
        let stored = grown.update(index as int, size as i64);
        lemma_store_lookup_same(a0, skey, AttrV::IntList(stored));
        assert forall|k2: int|
            0 <= k2 && k2 != index && input_size_at(a0, k2) is Some implies input_size_at(
            node@.attr,
            k2,
        ) == input_size_at(a0, k2) by {
            assert(stored[k2] == cur[k2]);
        }
        assert forall|key: Seq<char>| key != skey implies attr_lookup(node@.attr, key)
            == attr_lookup(a0, key) by {
            lemma_store_lookup_other(a0, skey, AttrV::IntList(stored), key);
        }
    }
}

/// Replaces entry `j` of row `i` of a table of names.
fn set2(m: &mut Vec<Vec<String>>, i: usize, j: usize, v: String)
    requires
        i < old(m)@.len(),
        j < old(m)@[i as int]@.len(),
    ensures
        final(m)@.len() == old(m)@.len(),
        forall|x: int| 0 <= x < old(m)@.len() && x != i ==> final(m)@[x] == old(m)@[x],
        final(m)@[i as int]@ == old(m)@[i as int]@.update(j as int, v),
{
    let row = vstd::std_specs::vec::vec_index_mut(m, i);
    let slot = vstd::std_specs::vec::vec_index_mut(row, j);
    *slot = v;
}

impl Tensor {
    /// Part to full over the same device set, by a ring collective: per
    /// device, the replica's shape is recorded, the replica is flattened and
    /// chunked; the chunks are reduced around the ring, gathered back around
    /// the ring, concatenated and reshaped.  The result is one reshape per
    /// device, each holding the full sum.
    #[verifier::rlimit(100)]
    #[verifier::spinoff_prover]
    pub fn all_reduce_ring(
        &self,
        raw: &OpDef,
        list: &Vec<String>,
        from: &Form,
        to: &Form,
        target: &mut Target,
    ) -> (r: Vec<String>)
        requires
            from@.valid(),
            to@.valid(),
            from@.is_part(),
            to@.is_full(),
            from@.devices == to@.devices,
            list@.len() == from@.ndev(),
            forall|i: int| 0 <= i < from@.ndev() ==> from@.devices[i] < old(target)@.devices.len(),
            dtype_spec(raw@) is Some,
            size_pre(raw@, self.index as int),
            from@.ndev() <= i64::MAX,
            from@.ndev() <= usize::MAX / 3,
        ensures
            r@.len() == to@.ndev(),
            ring_post(
                old(target)@.pb,
                final(target)@.pb,
                r.deep_view(),
                raw@,
                self.index,
                list.deep_view(),
                from@,
                to@,
                old(target)@.devices,
            ),
            old(target)@.pb == final(target)@.pb.take(old(target)@.pb.len() as int),
            forall|k: int|
                old(target)@.pb.len() <= k < final(target)@.pb.len() ==> belongs_to(
                    #[trigger] final(target)@.pb[k],
                    raw@.name,
                ),
            final(target)@.devices == old(target)@.devices,
            final(target)@.links == old(target)@.links,
            final(target)@.paths == old(target)@.paths,
    {
        let n = from.devices.len();
        proof {
            vstd::arithmetic::div_mod::lemma_fundamental_div_mod(usize::MAX as int, 3);
            assert(3 * n <= usize::MAX);
        }
        let code = to.code();
        let size = self.get_size(raw);
        let psize = size / (n as u64);
        let ghost base = old(target)@.pb.len() as int;
        let ghost owner = raw@.name;
        let ghost codev = form_code(to@);
        let ghost nn = from@.ndev();
        let ghost dv = old(target)@.devices;
        let ghost lv = list.deep_view();
        let ghost psz = psize as i64;

        // 1. record the shapes
        let mut shapes: Vec<String> = Vec::new();
        let mut i: usize = 0;
        while i < n
            invariant
                i <= n,
                shapes@.len() == i,
                target@.pb.len() == base + i,
                old(target)@.pb == target@.pb.take(base),
                forall|k: int|
                    base <= k < target@.pb.len() ==> belongs_to(#[trigger] target@.pb[k], owner),
                forall|x: int|
                    0 <= x < i ==> (#[trigger] shapes@[x])@ == aux_name_idx_spec(
                        owner,
                        self.index,
                        codev,
                        "/aux_ring/shape"@,
                        x as usize,
                    ),
                forall|x: int|
                    0 <= x < i ==> {
                        let sh = #[trigger] target@.pb[base + x];
                        &&& sh.op == "Shape"@
                        &&& sh.name == aux_name_idx_spec(
                            owner,
                            self.index,
                            codev,
                            "/aux_ring/shape"@,
                            x as usize,
                        )
                        &&& sh.device == dv[from@.devices[x] as int]
                        &&& sh.input == seq![lv[x]]
                        &&& belongs_to(sh, owner)
                        &&& attr_lookup(sh.attr, "T"@) == dtype_spec(raw@)
                        &&& input_size_at(sh.attr, 0) == Some(psz)
                    },
                target@.devices == old(target)@.devices,
                target@.links == old(target)@.links,
                target@.paths == old(target)@.paths,
            decreases n - i,
        {
            let name = aux_name_idx(&raw.name, self.index, &code, "/aux_ring/shape", i);
            let mut shape = typed_aux(raw, "Shape", name.clone(), target.device(from.devices[i]));
            shape.input.push(list[i].clone());
            proof {
                assert(shape@.input =~= seq![lv[i as int]]);
            }
            sized_input(&mut shape, 0, psize);
            proof {
                crate::attr::lemma_keys_distinct();
            }
            let ghost shv = shape@;
            let ghost before = target@.pb;
            target.push_op(shape);
            shapes.push(name);
            proof {
                assert(target@.pb.take(base) =~= before.take(base));
                assert forall|k: int| base <= k < target@.pb.len() implies belongs_to(
                    #[trigger] target@.pb[k],
                    owner,
                ) by {
                    if k < target@.pb.len() - 1 {
                        assert(target@.pb[k] == before[k]);
                    }
                }
                assert forall|x: int| 0 <= x < i + 1 implies {
                    let sh = #[trigger] target@.pb[base + x];
                    &&& sh.op == "Shape"@
                    &&& sh.name == aux_name_idx_spec(
                        owner,
                        self.index,
                        codev,
                        "/aux_ring/shape"@,
                        x as usize,
                    )
                    &&& sh.device == dv[from@.devices[x] as int]
                    &&& sh.input == seq![lv[x]]
                    &&& belongs_to(sh, owner)
                    &&& attr_lookup(sh.attr, "T"@) == dtype_spec(raw@)
                    &&& input_size_at(sh.attr, 0) == Some(psz)
                } by {
                    if x < i {
                        assert(target@.pb[base + x] == before[base + x]);
                    } else {
                        assert(target@.pb[base + x] == shv);
                    }
                }
            }
            i = i + 1;
        }

        // 2. flatten each replica
        let ghost mid1 = target@.pb;
        let mut flats: Vec<String> = Vec::new();
        let mut i2: usize = 0;
        while i2 < n
            invariant
                i2 <= n,
                flats@.len() == i2,
                mid1.len() == base + n,
                target@.pb.len() == base + n + 2 * i2,
                mid1 == target@.pb.take(mid1.len() as int),
                old(target)@.pb == target@.pb.take(base),
                forall|k: int|
                    base <= k < target@.pb.len() ==> belongs_to(#[trigger] target@.pb[k], owner),
                forall|x: int|
                    0 <= x < i2 ==> (#[trigger] flats@[x])@ == ring_name(
                        owner,
                        self.index,
                        codev,
                        "/aux_ring/flat"@,
                        x as usize,
                        "/flat"@,
                    ),
                forall|x: int|
                    0 <= x < i2 ==> flat_const_ok(
                        #[trigger] target@.pb[base + n + 2 * x],
                        ring_name(owner, self.index, codev, "/aux_ring/flat"@, x as usize, "/shape"@),
                        dv[from@.devices[x] as int],
                        owner,
                    ),
                forall|x: int|
                    0 <= x < i2 ==> {
                        let fl = #[trigger] target@.pb[base + n + 2 * x + 1];
                        &&& fl.op == "Reshape"@
                        &&& fl.name == ring_name(owner, self.index, codev, "/aux_ring/flat"@, x as usize, "/flat"@)
                        &&& fl.device == dv[from@.devices[x] as int]
                        &&& fl.input == seq![
                            lv[x],
                            ring_name(owner, self.index, codev, "/aux_ring/flat"@, x as usize, "/shape"@),
                        ]
                        &&& belongs_to(fl, owner)
                        &&& attr_lookup(fl.attr, "T"@) == dtype_spec(raw@)
                        &&& input_size_at(fl.attr, 0) == Some(psz)
                    },
                target@.devices == old(target)@.devices,
                target@.links == old(target)@.links,
                target@.paths == old(target)@.paths,
            decreases n - i2,
        {
            let mut cname = aux_name_idx(&raw.name, self.index, &code, "/aux_ring/flat", i2);
            cname.append("/shape");
            let mut fname = aux_name_idx(&raw.name, self.index, &code, "/aux_ring/flat", i2);
            fname.append("/flat");
            let device = target.device(from.devices[i2]);
            let mut dims: Vec<i64> = Vec::new();
            dims.push(1);
            proof {
                assert(dims@ =~= seq![1i64]);
            }
            let cshape = int_flat_const(raw, cname.clone(), device.clone(), dims);
            let mut flat = typed_aux(raw, "Reshape", fname.clone(), device);
            flat.input.push(list[i2].clone());
            flat.input.push(cname);
            proof {
                assert(flat@.input =~= seq![
                    lv[i2 as int],
                    ring_name(owner, self.index, codev, "/aux_ring/flat"@, i2 as usize, "/shape"@),
                ]);
            }
            sized_input(&mut flat, 0, psize);
            proof {
                crate::attr::lemma_keys_distinct();
            }
            let ghost csv = cshape@;
            let ghost flv = flat@;
            let ghost before = target@.pb;
            target.push_op(cshape);
            target.push_op(flat);
            flats.push(fname);
            proof {
                assert(target@.pb.take(base) =~= before.take(base));
                assert(target@.pb.take(mid1.len() as int) =~= before.take(mid1.len() as int));
                assert forall|k: int| base <= k < target@.pb.len() implies belongs_to(
                    #[trigger] target@.pb[k],
                    owner,
                ) by {
                    if k < target@.pb.len() - 2 {
                        assert(target@.pb[k] == before[k]);
                    }
                }
                assert forall|x: int| 0 <= x < i2 + 1 implies flat_const_ok(
                    #[trigger] target@.pb[base + n + 2 * x],
                    ring_name(owner, self.index, codev, "/aux_ring/flat"@, x as usize, "/shape"@),
                    dv[from@.devices[x] as int],
                    owner,
                ) by {
                    if x < i2 {
                        assert(target@.pb[base + n + 2 * x] == before[base + n + 2 * x]);
                    } else {
                        assert(target@.pb[base + n + 2 * x] == csv);
                    }
                }
                assert forall|x: int| 0 <= x < i2 + 1 implies {
                    let fl = #[trigger] target@.pb[base + n + 2 * x + 1];
                    &&& fl.op == "Reshape"@
                    &&& fl.name == ring_name(owner, self.index, codev, "/aux_ring/flat"@, x as usize, "/flat"@)
                    &&& fl.device == dv[from@.devices[x] as int]
                    &&& fl.input == seq![
                        lv[x],
                        ring_name(owner, self.index, codev, "/aux_ring/flat"@, x as usize, "/shape"@),
                    ]
                    &&& belongs_to(fl, owner)
                    &&& attr_lookup(fl.attr, "T"@) == dtype_spec(raw@)
                    &&& input_size_at(fl.attr, 0) == Some(psz)
                } by {
                    if x < i2 {
                        assert(target@.pb[base + n + 2 * x + 1] == before[base + n + 2 * x + 1]);
                    } else {
                        assert(target@.pb[base + n + 2 * x + 1] == flv);
                    }
                }
            }
            i2 = i2 + 1;
        }

        // 3. chunk each flattened replica into n pieces
        let ghost mid2 = target@.pb;
        let mut chunks: Vec<Vec<String>> = Vec::new();
        let mut i3: usize = 0;
        while i3 < n
            invariant
                i3 <= n,
                flats@.len() == n,
                chunks@.len() == i3,
                forall|x: int| 0 <= x < i3 ==> (#[trigger] chunks@[x])@.len() == n,
                forall|x: int, y: int|
                    0 <= x < i3 && 0 <= y < n ==> (#[trigger] chunks@[x]@[y])@ == ring_rslot(
                        owner,
                        self.index,
                        codev,
                        nn,
                        0,
                        x,
                        y,
                    ),
                forall|x: int|
                    0 <= x < n ==> (#[trigger] flats@[x])@ == ring_name(
                        owner,
                        self.index,
                        codev,
                        "/aux_ring/flat"@,
                        x as usize,
                        "/flat"@,
                    ),
                mid2.len() == base + 3 * n,
                target@.pb.len() == base + 3 * n + 2 * i3,
                mid2 == target@.pb.take(mid2.len() as int),
                old(target)@.pb == target@.pb.take(base),
                forall|k: int|
                    base <= k < target@.pb.len() ==> belongs_to(#[trigger] target@.pb[k], owner),
                forall|x: int|
                    0 <= x < i3 ==> axis_const_ok(
                        #[trigger] target@.pb[base + 3 * n + 2 * x],
                        ring_name(owner, self.index, codev, "/aux_ring/split"@, x as usize, "/dim"@),
                        dv[from@.devices[x] as int],
                        owner,
                    ),
                forall|x: int|
                    0 <= x < i3 ==> {
                        let sp = #[trigger] target@.pb[base + 3 * n + 2 * x + 1];
                        &&& sp.op == "Split"@
                        &&& sp.name == ring_name(owner, self.index, codev, "/aux_ring/split"@, x as usize, "/split"@)
                        &&& sp.device == dv[from@.devices[x] as int]
                        &&& sp.input == seq![
                            ring_name(owner, self.index, codev, "/aux_ring/split"@, x as usize, "/dim"@),
                            ring_name(owner, self.index, codev, "/aux_ring/flat"@, x as usize, "/flat"@),
                        ]
                        &&& belongs_to(sp, owner)
                        &&& attr_lookup(sp.attr, "T"@) == dtype_spec(raw@)
                        &&& attr_lookup(sp.attr, "num_split"@) == Some(AttrV::Int(nn as i64))
                        &&& input_size_at(sp.attr, 1) == Some(psz)
                    },
                target@.devices == old(target)@.devices,
                target@.links == old(target)@.links,
                target@.paths == old(target)@.paths,
            decreases n - i3,
        {
            let mut dname = aux_name_idx(&raw.name, self.index, &code, "/aux_ring/split", i3);
            dname.append("/dim");
            let mut sname = aux_name_idx(&raw.name, self.index, &code, "/aux_ring/split", i3);
            sname.append("/split");
            let device = target.device(from.devices[i3]);
            let dim = int_const(raw, dname.clone(), device.clone(), Vec::new(), 0);
            let mut split = typed_aux(raw, "Split", sname.clone(), device);
            split.input.push(dname);
            split.input.push(flats[i3].clone());
            proof {
                assert(split@.input =~= seq![
                    ring_name(owner, self.index, codev, "/aux_ring/split"@, i3 as usize, "/dim"@),
                    ring_name(owner, self.index, codev, "/aux_ring/flat"@, i3 as usize, "/flat"@),
                ]);
            }
            let ghost a0 = split@.attr;
            attr_set(&mut split.attr, "num_split", AttrValue::Int(#[verifier::truncate] (n as i64)));
            proof {
                crate::attr::lemma_keys_distinct();
                let ns = AttrV::Int(nn as i64);
                lemma_store_lookup_same(a0, "num_split"@, ns);
                lemma_store_lookup_other(a0, "num_split"@, ns, "T"@);
                lemma_store_lookup_other(a0, "num_split"@, ns, "_tge_belong_to"@);
            }
            sized_input(&mut split, 1, psize);
            proof {
                crate::attr::lemma_keys_distinct();
            }
            let ghost dmv = dim@;
            let ghost spv = split@;
            let ghost before = target@.pb;
            target.push_op(dim);
            target.push_op(split);
            proof {
                assert(target@.pb.take(base) =~= before.take(base));
                assert(target@.pb.take(mid2.len() as int) =~= before.take(mid2.len() as int));
                assert forall|k: int| base <= k < target@.pb.len() implies belongs_to(
                    #[trigger] target@.pb[k],
                    owner,
                ) by {
                    if k < target@.pb.len() - 2 {
                        assert(target@.pb[k] == before[k]);
                    }
                }
                assert forall|x: int| 0 <= x < i3 + 1 implies axis_const_ok(
                    #[trigger] target@.pb[base + 3 * n + 2 * x],
                    ring_name(owner, self.index, codev, "/aux_ring/split"@, x as usize, "/dim"@),
                    dv[from@.devices[x] as int],
                    owner,
                ) by {
                    if x < i3 {
                        assert(target@.pb[base + 3 * n + 2 * x] == before[base + 3 * n + 2 * x]);
                    } else {
                        assert(target@.pb[base + 3 * n + 2 * x] == dmv);
                    }
                }
                assert forall|x: int| 0 <= x < i3 + 1 implies {
                    let sp = #[trigger] target@.pb[base + 3 * n + 2 * x + 1];
                    &&& sp.op == "Split"@
                    &&& sp.name == ring_name(owner, self.index, codev, "/aux_ring/split"@, x as usize, "/split"@)
                    &&& sp.device == dv[from@.devices[x] as int]
                    &&& sp.input == seq![
                        ring_name(owner, self.index, codev, "/aux_ring/split"@, x as usize, "/dim"@),
                        ring_name(owner, self.index, codev, "/aux_ring/flat"@, x as usize, "/flat"@),
                    ]
                    &&& belongs_to(sp, owner)
                    &&& attr_lookup(sp.attr, "T"@) == dtype_spec(raw@)
                    &&& attr_lookup(sp.attr, "num_split"@) == Some(AttrV::Int(nn as i64))
                    &&& input_size_at(sp.attr, 1) == Some(psz)
                } by {
                    if x < i3 {
                        assert(target@.pb[base + 3 * n + 2 * x + 1] == before[base + 3 * n + 2 * x
                            + 1]);
                    } else {
                        assert(target@.pb[base + 3 * n + 2 * x + 1] == spv);
                    }
                }
            }
            let mut row: Vec<String> = Vec::new();
            let mut x: usize = 0;
            while x < n
                invariant
                    x <= n,
                    i3 < n,
                    sname@ == ring_name(
                        owner,
                        self.index,
                        codev,
                        "/aux_ring/split"@,
                        i3 as usize,
                        "/split"@,
                    ),
                    row@.len() == x,
                    forall|y: int|
                        0 <= y < x ==> (#[trigger] row@[y])@ == port_ref_spec(sname@, y as nat),
                decreases n - x,
            {
                row.push(port_ref(&sname, x));
                x = x + 1;
            }
            chunks.push(row);
            i3 = i3 + 1;
        }

        // 4. reduce-scatter: n - 1 rounds of additions around the ring
        let ghost mid3 = target@.pb;
        let mut round: usize = 0;
        while round + 1 < n
            invariant
                round < n || round == 0,
                chunks@.len() == n,
                forall|x: int| 0 <= x < n ==> (#[trigger] chunks@[x])@.len() == n,
                forall|x: int, y: int|
                    0 <= x < n && 0 <= y < n ==> (#[trigger] chunks@[x]@[y])@ == ring_rslot(
                        owner,
                        self.index,
                        codev,
                        nn,
                        round as nat,
                        x,
                        y,
                    ),
                mid3.len() == base + 5 * n,
                target@.pb.len() == base + 5 * n + n * round,
                mid3 == target@.pb.take(mid3.len() as int),
                old(target)@.pb == target@.pb.take(base),
                forall|k: int|
                    base <= k < target@.pb.len() ==> belongs_to(#[trigger] target@.pb[k], owner),
                forall|rd: int, x: int|
                    0 <= rd < round && 0 <= x < n ==> ring_add_ok(
                        #[trigger] target@.pb[base + 5 * n + rd * n + x],
                        owner,
                        self.index,
                        codev,
                        nn,
                        dv,
                        from@.devices,
                        dtype_spec(raw@),
                        psz,
                        rd,
                        x,
                    ),
                target@.devices == old(target)@.devices,
                target@.links == old(target)@.links,
                target@.paths == old(target)@.paths,
            decreases n - round,
        {
            let mut i4: usize = 0;
            while i4 < n
                invariant
                    i4 <= n,
                    round + 1 < n,
                    chunks@.len() == n,
                    forall|x: int| 0 <= x < n ==> (#[trigger] chunks@[x])@.len() == n,
                    forall|x: int, y: int|
                        0 <= x < n && 0 <= y < n ==> (#[trigger] chunks@[x]@[y])@ == (if x < i4
                            && y == ring_add_slot(round as int, x, nn) {
                            ring_round_name(
                                owner,
                                self.index,
                                codev,
                                "/aux_ring/add"@,
                                x as usize,
                                round as usize,
                            )
                        } else {
                            ring_rslot(owner, self.index, codev, nn, round as nat, x, y)
                        }),
                    mid3.len() == base + 5 * n,
                    target@.pb.len() == base + 5 * n + n * round + i4,
                    mid3 == target@.pb.take(mid3.len() as int),
                    old(target)@.pb == target@.pb.take(base),
                    forall|k: int|
                        base <= k < target@.pb.len() ==> belongs_to(
                            #[trigger] target@.pb[k],
                            owner,
                        ),
                    forall|rd: int, x: int|
                        (0 <= rd < round && 0 <= x < n) || (rd == round && 0 <= x < i4)
                            ==> ring_add_ok(
                            #[trigger] target@.pb[base + 5 * n + rd * n + x],
                            owner,
                            self.index,
                            codev,
                            nn,
                            dv,
                            from@.devices,
                            dtype_spec(raw@),
                            psz,
                            rd,
                            x,
                        ),
                    target@.devices == old(target)@.devices,
                    target@.links == old(target)@.links,
                    target@.paths == old(target)@.paths,
                decreases n - i4,
            {
                let mut aname = aux_name_idx(&raw.name, self.index, &code, "/aux_ring/add", i4);
                aname.append("_");
                let rd2 = dec_string(round);
                aname.append(rd2.as_str());
                proof {
                    reveal_strlit("_");
                    assert("_"@ =~= seq!['_']);
                    assert(aname@ == ring_round_name(
                        owner,
                        self.index,
                        codev,
                        "/aux_ring/add"@,
                        i4 as usize,
                        round as usize,
                    ));
                }
                let device = target.device(from.devices[i4]);
                let slot = (round + i4) % n;
                proof {
                    assert(slot == ring_add_slot(round as int, i4 as int, nn));
                    assert(slot < n);
                }
                let mut add = typed_aux(raw, "Add", aname.clone(), device);
                add.input.push(chunks[i4][slot].clone());
                add.input.push(chunks[(i4 + 1) % n][slot].clone());
                proof {
                    let r2 = (i4 as int + 1) % (n as int);
                    assert(chunks@[i4 as int]@[slot as int]@ == ring_rslot(
                        owner,
                        self.index,
                        codev,
                        nn,
                        round as nat,
                        i4 as int,
                        slot as int,
                    ));
                    if r2 < i4 {
                        if ring_add_slot(round as int, r2, nn) == slot as int {
                            lemma_slot_inj(round as int, r2, i4 as int, nn);
                        }
                        assert(ring_add_slot(round as int, r2, nn) != slot as int);
                    }
                    assert(chunks@[r2]@[slot as int]@ == ring_rslot(
                        owner,
                        self.index,
                        codev,
                        nn,
                        round as nat,
                        r2,
                        slot as int,
                    ));
                    assert(add@.input =~= seq![
                        ring_rslot(
                            owner,
                            self.index,
                            codev,
                            nn,
                            round as nat,
                            i4 as int,
                            ring_add_slot(round as int, i4 as int, nn),
                        ),
                        ring_rslot(
                            owner,
                            self.index,
                            codev,
                            nn,
                            round as nat,
                            r2,
                            ring_add_slot(round as int, i4 as int, nn),
                        ),
                    ]);
                }
                sized_input(&mut add, 0, psize);
                sized_input(&mut add, 1, psize);
                proof {
                    crate::attr::lemma_keys_distinct();
                }
                let ghost adv = add@;
                let ghost before = target@.pb;
                target.push_op(add);
                set2(&mut chunks, i4, slot, aname);
                proof {
                    assert(target@.pb.take(base) =~= before.take(base));
                    assert(target@.pb.take(mid3.len() as int) =~= before.take(mid3.len() as int));
                    assert forall|k: int| base <= k < target@.pb.len() implies belongs_to(
                        #[trigger] target@.pb[k],
                        owner,
                    ) by {
                        if k < target@.pb.len() - 1 {
                            assert(target@.pb[k] == before[k]);
                        }
                    }
                    assert(ring_add_ok(
                        adv,
                        owner,
                        self.index,
                        codev,
                        nn,
                        dv,
                        from@.devices,
                        dtype_spec(raw@),
                        psz,
                        round as int,
                        i4 as int,
                    ));
                    assert forall|rd: int, x: int|
                        (0 <= rd < round && 0 <= x < n) || (rd == round && 0 <= x < i4 + 1) implies
                        ring_add_ok(
                        #[trigger] target@.pb[base + 5 * n + rd * n + x],
                        owner,
                        self.index,
                        codev,
                        nn,
                        dv,
                        from@.devices,
                        dtype_spec(raw@),
                        psz,
                        rd,
                        x,
                    ) by {
                        if rd * n + x < round * n + i4 {
                            assert(base + 5 * n + rd * n + x < before.len()) by (nonlinear_arith)
                                requires
                                    rd * n + x < round * n + i4,
                                    before.len() == base + 5 * n + n * round + i4,
                            ;
                            assert(target@.pb[base + 5 * n + rd * n + x] == before[base + 5 * n + rd
                                * n + x]);
                        } else {
                            assert(rd == round && x == i4) by (nonlinear_arith)
                                requires
                                    (0 <= rd < round && 0 <= x < n) || (rd == round && 0 <= x < i4
                                        + 1),
                                    !(rd * n + x < round * n + i4),
                                    0 <= x < n,
                            ;
                            assert(base + 5 * n + rd * n + x == before.len()) by (nonlinear_arith)
                                requires
                                    rd == round,
                                    x == i4,
                                    before.len() == base + 5 * n + n * round + i4,
                            ;
                            assert(target@.pb[base + 5 * n + rd * n + x] == adv);
                        }
                    }
                    assert forall|x: int, y: int| 0 <= x < n && 0 <= y < n implies (
                    #[trigger] chunks@[x]@[y])@ == (if x < i4 + 1 && y == ring_add_slot(
                        round as int,
                        x,
                        nn,
                    ) {
                        ring_round_name(
                            owner,
                            self.index,
                            codev,
                            "/aux_ring/add"@,
                            x as usize,
                            round as usize,
                        )
                    } else {
                        ring_rslot(owner, self.index, codev, nn, round as nat, x, y)
                    }) by {
                    }
                }
                i4 = i4 + 1;
            }
            proof {
                assert(n * (round + 1) == n * round + n) by (nonlinear_arith);
                assert forall|x: int, y: int| 0 <= x < n && 0 <= y < n implies (
                #[trigger] chunks@[x]@[y])@ == ring_rslot(
                    owner,
                    self.index,
                    codev,
                    nn,
                    (round + 1) as nat,
                    x,
                    y,
                ) by {
                }
            }
            round = round + 1;
        }
        proof {
            if n > 1 {
                assert(round == n - 1);
            }
            assert forall|x: int, y: int| 0 <= x < n && 0 <= y < n implies (
            #[trigger] chunks@[x]@[y])@ == ring_gslot(
                owner,
                self.index,
                codev,
                nn,
                0,
                x,
                y,
            ) by {
            }
        }

        // 5. all-gather: n - 1 rounds of copies around the ring
        let ghost mid4 = target@.pb;
        let mut round2: usize = 0;
        while round2 + 1 < n
            invariant
                round2 < n || round2 == 0,
                chunks@.len() == n,
                forall|x: int| 0 <= x < n ==> (#[trigger] chunks@[x])@.len() == n,
                forall|x: int, y: int|
                    0 <= x < n && 0 <= y < n ==> (#[trigger] chunks@[x]@[y])@ == ring_gslot(
                        owner,
                        self.index,
                        codev,
                        nn,
                        round2 as nat,
                        x,
                        y,
                    ),
                mid4.len() == base + 5 * n + (if n > 0 {
                    n * ((n - 1) as int)
                } else {
                    0int
                }),
                target@.pb.len() == mid4.len() + n * round2,
                mid4 == target@.pb.take(mid4.len() as int),
                old(target)@.pb == target@.pb.take(base),
                forall|k: int|
                    base <= k < target@.pb.len() ==> belongs_to(#[trigger] target@.pb[k], owner),
                forall|rd: int, x: int|
                    0 <= rd < round2 && 0 <= x < n ==> ring_id_ok(
                        #[trigger] target@.pb[mid4.len() + rd * n + x],
                        owner,
                        self.index,
                        codev,
                        nn,
                        dv,
                        from@.devices,
                        dtype_spec(raw@),
                        psz,
                        rd,
                        x,
                    ),
                target@.devices == old(target)@.devices,
                target@.links == old(target)@.links,
                target@.paths == old(target)@.paths,
            decreases n - round2,
        {
            let mut i5: usize = 0;
            while i5 < n
                invariant
                    i5 <= n,
                    round2 + 1 < n,
                    chunks@.len() == n,
                    forall|x: int| 0 <= x < n ==> (#[trigger] chunks@[x])@.len() == n,
                    forall|x: int, y: int|
                        0 <= x < n && 0 <= y < n ==> (#[trigger] chunks@[x]@[y])@ == (if x < i5
                            && y == ring_gather_slot(round2 as int, x, nn) {
                            ring_round_name(
                                owner,
                                self.index,
                                codev,
                                "/aux_ring/identity"@,
                                x as usize,
                                round2 as usize,
                            )
                        } else {
                            ring_gslot(owner, self.index, codev, nn, round2 as nat, x, y)
                        }),
                    mid4.len() == base + 5 * n + n * ((n - 1) as int),
                    target@.pb.len() == mid4.len() + n * round2 + i5,
                    mid4 == target@.pb.take(mid4.len() as int),
                    old(target)@.pb == target@.pb.take(base),
                    forall|k: int|
                        base <= k < target@.pb.len() ==> belongs_to(
                            #[trigger] target@.pb[k],
                            owner,
                        ),
                    forall|rd: int, x: int|
                        (0 <= rd < round2 && 0 <= x < n) || (rd == round2 && 0 <= x < i5)
                            ==> ring_id_ok(
                            #[trigger] target@.pb[mid4.len() + rd * n + x],
                            owner,
                            self.index,
                            codev,
                            nn,
                            dv,
                            from@.devices,
                            dtype_spec(raw@),
                            psz,
                            rd,
                            x,
                        ),
                    target@.devices == old(target)@.devices,
                    target@.links == old(target)@.links,
                    target@.paths == old(target)@.paths,
                decreases n - i5,
            {
                let mut iname = aux_name_idx(
                    &raw.name,
                    self.index,
                    &code,
                    "/aux_ring/identity",
                    i5,
                );
                iname.append("_");
                let rd2 = dec_string(round2);
                iname.append(rd2.as_str());
                proof {
                    reveal_strlit("_");
                    assert("_"@ =~= seq!['_']);
                    assert(iname@ == ring_round_name(
                        owner,
                        self.index,
                        codev,
                        "/aux_ring/identity"@,
                        i5 as usize,
                        round2 as usize,
                    ));
                }
                let device = target.device(from.devices[i5]);
                let slot = (i5 + round2 + n - 1) % n;
                proof {
                    assert(slot == ring_gather_slot(round2 as int, i5 as int, nn));
                    assert(slot < n);
                }
                let mut identity = typed_aux(raw, "Identity", iname.clone(), device);
                identity.input.push(chunks[(i5 + 1) % n][slot].clone());
                proof {
                    let r2 = (i5 as int + 1) % (n as int);
                    if r2 < i5 {
                        if ring_gather_slot(round2 as int, r2, nn) == slot as int {
                            lemma_slot_inj(round2 as int + nn - 1, r2, i5 as int, nn);
                        }
                        assert(ring_gather_slot(round2 as int, r2, nn) != slot as int);
                    }
                    assert(chunks@[r2]@[slot as int]@ == ring_gslot(
                        owner,
                        self.index,
                        codev,
                        nn,
                        round2 as nat,
                        r2,
                        slot as int,
                    ));
                    assert(identity@.input =~= seq![
                        ring_gslot(
                            owner,
                            self.index,
                            codev,
                            nn,
                            round2 as nat,
                            r2,
                            ring_gather_slot(round2 as int, i5 as int, nn),
                        ),
                    ]);
                }
                sized_input(&mut identity, 0, psize);
                proof {
                    crate::attr::lemma_keys_distinct();
                }
                let ghost idv = identity@;
                let ghost before = target@.pb;
                target.push_op(identity);
                set2(&mut chunks, i5, slot, iname);
                proof {
                    assert(target@.pb.take(base) =~= before.take(base));
                    assert(target@.pb.take(mid4.len() as int) =~= before.take(mid4.len() as int));
                    assert forall|k: int| base <= k < target@.pb.len() implies belongs_to(
                        #[trigger] target@.pb[k],
                        owner,
                    ) by {
                        if k < target@.pb.len() - 1 {
                            assert(target@.pb[k] == before[k]);
                        }
                    }
                    assert(ring_id_ok(
                        idv,
                        owner,
                        self.index,
                        codev,
                        nn,
                        dv,
                        from@.devices,
                        dtype_spec(raw@),
                        psz,
                        round2 as int,
                        i5 as int,
                    ));
                    assert forall|rd: int, x: int|
                        (0 <= rd < round2 && 0 <= x < n) || (rd == round2 && 0 <= x < i5 + 1)
                        implies ring_id_ok(
                        #[trigger] target@.pb[mid4.len() + rd * n + x],
                        owner,
                        self.index,
                        codev,
                        nn,
                        dv,
                        from@.devices,
                        dtype_spec(raw@),
                        psz,
                        rd,
                        x,
                    ) by {
                        if rd * n + x < round2 * n + i5 {
                            assert(mid4.len() + rd * n + x < before.len()) by (nonlinear_arith)
                                requires
                                    rd * n + x < round2 * n + i5,
                                    before.len() == mid4.len() + n * round2 + i5,
                            ;
                            assert(target@.pb[mid4.len() + rd * n + x] == before[mid4.len() + rd * n
                                + x]);
                        } else {
                            assert(rd == round2 && x == i5) by (nonlinear_arith)
                                requires
                                    (0 <= rd < round2 && 0 <= x < n) || (rd == round2 && 0 <= x
                                        < i5 + 1),
                                    !(rd * n + x < round2 * n + i5),
                                    0 <= x < n,
                            ;
                            assert(mid4.len() + rd * n + x == before.len()) by (nonlinear_arith)
                                requires
                                    rd == round2,
                                    x == i5,
                                    before.len() == mid4.len() + n * round2 + i5,
                            ;
                            assert(target@.pb[mid4.len() + rd * n + x] == idv);
                        }
                    }
                    assert forall|x: int, y: int| 0 <= x < n && 0 <= y < n implies (
                    #[trigger] chunks@[x]@[y])@ == (if x < i5 + 1 && y == ring_gather_slot(
                        round2 as int,
                        x,
                        nn,
                    ) {
                        ring_round_name(
                            owner,
                            self.index,
                            codev,
                            "/aux_ring/identity"@,
                            x as usize,
                            round2 as usize,
                        )
                    } else {
                        ring_gslot(owner, self.index, codev, nn, round2 as nat, x, y)
                    }) by {
                    }
                }
                i5 = i5 + 1;
            }
            proof {
                assert(n * (round2 + 1) == n * round2 + n) by (nonlinear_arith);
                assert forall|x: int, y: int| 0 <= x < n && 0 <= y < n implies (
                #[trigger] chunks@[x]@[y])@ == ring_gslot(
                    owner,
                    self.index,
                    codev,
                    nn,
                    (round2 + 1) as nat,
                    x,
                    y,
                ) by {
                }
            }
            round2 = round2 + 1;
        }
        proof {
            assert(n >= 1);
            assert(target@.pb.len() == base + 5 * n + 2 * (n * ((n - 1) as int))) by (
            nonlinear_arith)
                requires
                    n >= 1,
                    target@.pb.len() == mid4.len() + n * ((n - 1) as int),
                    mid4.len() == base + 5 * n + n * ((n - 1) as int),
            ;
            if n > 1 {
                assert(round2 == n - 1);
            }
        }

        // 6. concatenate each device's chunks
        let ghost mid5 = target@.pb;
        let mut concated: Vec<String> = Vec::new();
        let mut i6: usize = 0;
        while i6 < n
            invariant
                i6 <= n,
                concated@.len() == i6,
                forall|x: int|
                    0 <= x < i6 ==> (#[trigger] concated@[x])@ == ring_name(
                        owner,
                        self.index,
                        codev,
                        "/aux_ring/concat"@,
                        x as usize,
                        "/concat"@,
                    ),
                chunks@.len() == n,
                forall|x: int| 0 <= x < n ==> (#[trigger] chunks@[x])@.len() == n,
                forall|x: int, y: int|
                    0 <= x < n && 0 <= y < n ==> (#[trigger] chunks@[x]@[y])@ == ring_gslot(
                        owner,
                        self.index,
                        codev,
                        nn,
                        (nn - 1) as nat,
                        x,
                        y,
                    ),
                mid5.len() == base + 5 * n + 2 * (n * ((n - 1) as int)),
                target@.pb.len() == mid5.len() + 2 * i6,
                mid5 == target@.pb.take(mid5.len() as int),
                old(target)@.pb == target@.pb.take(base),
                forall|k: int|
                    base <= k < target@.pb.len() ==> belongs_to(#[trigger] target@.pb[k], owner),
                forall|x: int|
                    0 <= x < i6 ==> axis_const_ok(
                        #[trigger] target@.pb[mid5.len() + 2 * x],
                        ring_name(owner, self.index, codev, "/aux_ring/concat"@, x as usize, "/axis"@),
                        dv[from@.devices[x] as int],
                        owner,
                    ),
                forall|x: int|
                    0 <= x < i6 ==> {
                        let cc = #[trigger] target@.pb[mid5.len() + 2 * x + 1];
                        &&& cc.op == "ConcatV2"@
                        &&& cc.name == ring_name(owner, self.index, codev, "/aux_ring/concat"@, x as usize, "/concat"@)
                        &&& cc.device == dv[from@.devices[x] as int]
                        &&& cc.input == Seq::new(nn, |y: int| ring_gslot(
                            owner,
                            self.index,
                            codev,
                            nn,
                            (nn - 1) as nat,
                            x,
                            y,
                        )) + seq![
                            ring_name(owner, self.index, codev, "/aux_ring/concat"@, x as usize, "/axis"@),
                        ]
                        &&& belongs_to(cc, owner)
                        &&& attr_lookup(cc.attr, "N"@) == Some(AttrV::Int(nn as i64))
                        &&& attr_lookup(cc.attr, "T"@) == dtype_spec(raw@)
                        &&& attr_lookup(cc.attr, "Tidx"@) == Some(AttrV::DType(DT_INT32))
                        &&& forall|k: int| 0 <= k < n ==> input_size_at(cc.attr, k) == Some(psz)
                    },
                target@.devices == old(target)@.devices,
                target@.links == old(target)@.links,
                target@.paths == old(target)@.paths,
            decreases n - i6,
        {
            let mut xname = aux_name_idx(&raw.name, self.index, &code, "/aux_ring/concat", i6);
            xname.append("/axis");
            let mut ccname = aux_name_idx(&raw.name, self.index, &code, "/aux_ring/concat", i6);
            ccname.append("/concat");
            let device = target.device(from.devices[i6]);
            let axis = int_const(raw, xname.clone(), device.clone(), Vec::new(), 0);
            let mut concat = typed_aux(raw, "ConcatV2", ccname.clone(), device);
            let mut x: usize = 0;
            let ghost cattr = concat@.attr;
            let ghost cname2 = concat@.name;
            let ghost cdev = concat@.device;
            while x < n
                invariant
                    x <= n,
                    i6 < n,
                    chunks@.len() == n,
                    forall|y: int| 0 <= y < n ==> (#[trigger] chunks@[y])@.len() == n,
                    forall|x2: int, y: int|
                        0 <= x2 < n && 0 <= y < n ==> (#[trigger] chunks@[x2]@[y])@ == ring_gslot(
                            owner,
                            self.index,
                            codev,
                            nn,
                            (nn - 1) as nat,
                            x2,
                            y,
                        ),
                    concat.input@.len() == x,
                    concat@.attr == cattr,
                    concat@.name == cname2,
                    concat@.device == cdev,
                    concat@.op == "ConcatV2"@,
                    belongs_to(concat@, owner),
                    attr_lookup(concat@.attr, "T"@) == dtype_spec(raw@),
                    forall|y: int|
                        0 <= y < x ==> (#[trigger] concat.input@[y])@ == ring_gslot(
                            owner,
                            self.index,
                            codev,
                            nn,
                            (nn - 1) as nat,
                            i6 as int,
                            y,
                        ),
                decreases n - x,
            {
                concat.input.push(chunks[i6][x].clone());
                x = x + 1;
            }
            concat.input.push(xname);
            proof {
                assert forall|y: int| 0 <= y < n + 1 implies (#[trigger] concat@.input[y]) == (if y
                    < n {
                    ring_gslot(owner, self.index, codev, nn, (nn - 1) as nat, i6 as int, y)
                } else {
                    ring_name(owner, self.index, codev, "/aux_ring/concat"@, i6 as usize, "/axis"@)
                }) by {
                    assert(concat@.input[y] == concat.input@[y]@);
                }
                assert(concat@.input =~= Seq::new(nn, |y: int| ring_gslot(
                    owner,
                    self.index,
                    codev,
                    nn,
                    (nn - 1) as nat,
                    i6 as int,
                    y,
                )) + seq![
                    ring_name(owner, self.index, codev, "/aux_ring/concat"@, i6 as usize, "/axis"@),
                ]);
            }
            let ghost a0 = concat@.attr;
            attr_set(&mut concat.attr, "N", AttrValue::Int(#[verifier::truncate] (n as i64)));
            let ghost a1 = concat@.attr;
            attr_set(&mut concat.attr, "Tidx", AttrValue::DType(DT_INT32));
            proof {
                crate::attr::lemma_keys_distinct();
                let nv2 = AttrV::Int(nn as i64);
                let tx = AttrV::DType(DT_INT32);
                lemma_store_lookup_same(a0, "N"@, nv2);
                lemma_store_lookup_other(a0, "N"@, nv2, "T"@);
                lemma_store_lookup_other(a0, "N"@, nv2, "_tge_belong_to"@);
                lemma_store_lookup_same(a1, "Tidx"@, tx);
                lemma_store_lookup_other(a1, "Tidx"@, tx, "N"@);
                lemma_store_lookup_other(a1, "Tidx"@, tx, "T"@);
                lemma_store_lookup_other(a1, "Tidx"@, tx, "_tge_belong_to"@);
            }
            set_uniform_sizes(&mut concat, n, psize);
            proof {
                crate::attr::lemma_keys_distinct();
                assert(belongs_to(concat@, owner));
            }
            let ghost axv = axis@;
            let ghost ccv = concat@;
            let ghost before = target@.pb;
            target.push_op(axis);
            target.push_op(concat);
            concated.push(ccname);
            proof {
                assert(target@.pb.take(base) =~= before.take(base));
                assert(target@.pb.take(mid5.len() as int) =~= before.take(mid5.len() as int));
                assert forall|k: int| base <= k < target@.pb.len() implies belongs_to(
                    #[trigger] target@.pb[k],
                    owner,
                ) by {
                    if k < target@.pb.len() - 2 {
                        assert(target@.pb[k] == before[k]);
                    }
                }
                assert forall|x2: int| 0 <= x2 < i6 + 1 implies axis_const_ok(
                    #[trigger] target@.pb[mid5.len() + 2 * x2],
                    ring_name(owner, self.index, codev, "/aux_ring/concat"@, x2 as usize, "/axis"@),
                    dv[from@.devices[x2] as int],
                    owner,
                ) by {
                    if x2 < i6 {
                        assert(target@.pb[mid5.len() + 2 * x2] == before[mid5.len() + 2 * x2]);
                    } else {
                        assert(target@.pb[mid5.len() + 2 * x2] == axv);
                    }
                }
                assert forall|x2: int| 0 <= x2 < i6 + 1 implies {
                    let cc = #[trigger] target@.pb[mid5.len() + 2 * x2 + 1];
                    &&& cc.op == "ConcatV2"@
                    &&& cc.name == ring_name(owner, self.index, codev, "/aux_ring/concat"@, x2 as usize, "/concat"@)
                    &&& cc.device == dv[from@.devices[x2] as int]
                    &&& cc.input == Seq::new(nn, |y: int| ring_gslot(
                        owner,
                        self.index,
                        codev,
                        nn,
                        (nn - 1) as nat,
                        x2,
                        y,
                    )) + seq![
                        ring_name(owner, self.index, codev, "/aux_ring/concat"@, x2 as usize, "/axis"@),
                    ]
                    &&& belongs_to(cc, owner)
                    &&& attr_lookup(cc.attr, "N"@) == Some(AttrV::Int(nn as i64))
                    &&& attr_lookup(cc.attr, "T"@) == dtype_spec(raw@)
                    &&& attr_lookup(cc.attr, "Tidx"@) == Some(AttrV::DType(DT_INT32))
                    &&& forall|k: int| 0 <= k < n ==> input_size_at(cc.attr, k) == Some(psz)
                } by {
                    if x2 < i6 {
                        assert(target@.pb[mid5.len() + 2 * x2 + 1] == before[mid5.len() + 2 * x2
                            + 1]);
                    } else {
                        assert(target@.pb[mid5.len() + 2 * x2 + 1] == ccv);
                    }
                }
            }
            i6 = i6 + 1;
        }

        // 7. restore the recorded shapes
        let ghost mid6 = target@.pb;
        let mut r: Vec<String> = Vec::new();
        let mut i7: usize = 0;
        while i7 < n
            invariant
                i7 <= n,
                r@.len() == i7,
                concated@.len() == n,
                shapes@.len() == n,
                forall|x: int|
                    0 <= x < n ==> (#[trigger] concated@[x])@ == ring_name(
                        owner,
                        self.index,
                        codev,
                        "/aux_ring/concat"@,
                        x as usize,
                        "/concat"@,
                    ),
                forall|x: int|
                    0 <= x < n ==> (#[trigger] shapes@[x])@ == aux_name_idx_spec(
                        owner,
                        self.index,
                        codev,
                        "/aux_ring/shape"@,
                        x as usize,
                    ),
                mid6.len() == base + 7 * n + 2 * (n * ((n - 1) as int)),
                target@.pb.len() == mid6.len() + i7,
                mid6 == target@.pb.take(mid6.len() as int),
                old(target)@.pb == target@.pb.take(base),
                forall|k: int|
                    base <= k < target@.pb.len() ==> belongs_to(#[trigger] target@.pb[k], owner),
                forall|x: int|
                    0 <= x < i7 ==> (#[trigger] r@[x])@ == aux_name_idx_spec(
                        owner,
                        self.index,
                        codev,
                        "/aux_ring/reshape"@,
                        x as usize,
                    ),
                forall|x: int|
                    0 <= x < i7 ==> {
                        let rs = #[trigger] target@.pb[mid6.len() + x];
                        &&& rs.op == "Reshape"@
                        &&& rs.name == aux_name_idx_spec(
                            owner,
                            self.index,
                            codev,
                            "/aux_ring/reshape"@,
                            x as usize,
                        )
                        &&& rs.device == dv[from@.devices[x] as int]
                        &&& rs.input == seq![
                            ring_name(owner, self.index, codev, "/aux_ring/concat"@, x as usize, "/concat"@),
                            aux_name_idx_spec(owner, self.index, codev, "/aux_ring/shape"@, x as usize),
                        ]
                        &&& belongs_to(rs, owner)
                        &&& attr_lookup(rs.attr, "T"@) == dtype_spec(raw@)
                        &&& input_size_at(rs.attr, 0) == Some(psz)
                    },
                target@.devices == old(target)@.devices,
                target@.links == old(target)@.links,
                target@.paths == old(target)@.paths,
            decreases n - i7,
        {
            let rname = aux_name_idx(&raw.name, self.index, &code, "/aux_ring/reshape", i7);
            let device = target.device(from.devices[i7]);
            let mut reshape = typed_aux(raw, "Reshape", rname.clone(), device);
            reshape.input.push(concated[i7].clone());
            reshape.input.push(shapes[i7].clone());
            proof {
                assert(reshape@.input =~= seq![
                    ring_name(owner, self.index, codev, "/aux_ring/concat"@, i7 as usize, "/concat"@),
                    aux_name_idx_spec(owner, self.index, codev, "/aux_ring/shape"@, i7 as usize),
                ]);
            }
            sized_input(&mut reshape, 0, psize);
            proof {
                crate::attr::lemma_keys_distinct();
            }
            let ghost rsv = reshape@;
            let ghost before = target@.pb;
            target.push_op(reshape);
            r.push(rname);
            proof {
                assert(target@.pb.take(base) =~= before.take(base));
                assert(target@.pb.take(mid6.len() as int) =~= before.take(mid6.len() as int));
                assert forall|k: int| base <= k < target@.pb.len() implies belongs_to(
                    #[trigger] target@.pb[k],
                    owner,
                ) by {
                    if k < target@.pb.len() - 1 {
                        assert(target@.pb[k] == before[k]);
                    }
                }
                assert forall|x: int| 0 <= x < i7 + 1 implies {
                    let rs = #[trigger] target@.pb[mid6.len() + x];
                    &&& rs.op == "Reshape"@
                    &&& rs.name == aux_name_idx_spec(
                        owner,
                        self.index,
                        codev,
                        "/aux_ring/reshape"@,
                        x as usize,
                    )
                    &&& rs.device == dv[from@.devices[x] as int]
                    &&& rs.input == seq![
                        ring_name(owner, self.index, codev, "/aux_ring/concat"@, x as usize, "/concat"@),
                        aux_name_idx_spec(owner, self.index, codev, "/aux_ring/shape"@, x as usize),
                    ]
                    &&& belongs_to(rs, owner)
                    &&& attr_lookup(rs.attr, "T"@) == dtype_spec(raw@)
                    &&& input_size_at(rs.attr, 0) == Some(psz)
                } by {
                    if x < i7 {
                        assert(target@.pb[mid6.len() + x] == before[mid6.len() + x]);
                    } else {
                        assert(target@.pb[mid6.len() + x] == rsv);
                    }
                }
            }
            i7 = i7 + 1;
        }
        proof {
            let pb1 = target@.pb;
            assert(pb1.len() == base + 2 * (n as int) * (n as int) + 6 * n) by (nonlinear_arith)
                requires
                    n >= 1,
                    pb1.len() == base + 7 * n + 2 * (n * ((n - 1) as int)) + n,
            ;
            assert(pb1.take(base) =~= old(target)@.pb);
            let b = base;
            assert(((n - 1) as int) == (n as int) - 1);
            assert(n * ((n - 1) as int) == ((n as int) - 1) * n) by (nonlinear_arith)
                requires
                    ((n - 1) as int) == (n as int) - 1,
            ;
            assert(mid6 == pb1.take(mid6.len() as int));
            assert forall|i: int| 0 <= i < n implies {
                let sh = #[trigger] pb1[b + i];
                &&& sh.op == "Shape"@
                &&& sh.name == aux_name_idx_spec(owner, self.index, codev, "/aux_ring/shape"@, i as usize)
                &&& sh.device == dv[from@.devices[i] as int]
                &&& sh.input == seq![lv[i]]
                &&& belongs_to(sh, owner)
                &&& attr_lookup(sh.attr, "T"@) == dtype_spec(raw@)
                &&& input_size_at(sh.attr, 0) == Some(psz)
            } by {
                assert(pb1[b + i] == pb1.take(mid6.len() as int)[b + i]);
                assert(mid6[b + i] == mid6.take(mid5.len() as int)[b + i]);
                assert(mid5[b + i] == mid5.take(mid4.len() as int)[b + i]);
                assert(mid4[b + i] == mid4.take(mid3.len() as int)[b + i]);
                assert(mid3[b + i] == mid3.take(mid2.len() as int)[b + i]);
                assert(mid2[b + i] == mid2.take(mid1.len() as int)[b + i]);
                assert(pb1[b + i] == mid1[b + i]);
            }
            assert forall|i: int| 0 <= i < n implies flat_const_ok(
                #[trigger] pb1[b + n + 2 * i],
                ring_name(owner, self.index, codev, "/aux_ring/flat"@, i as usize, "/shape"@),
                dv[from@.devices[i] as int],
                owner,
            ) by {
                assert(pb1[b + n + 2 * i] == pb1.take(mid6.len() as int)[b + n + 2 * i]);
                assert(mid6[b + n + 2 * i] == mid6.take(mid5.len() as int)[b + n + 2 * i]);
                assert(mid5[b + n + 2 * i] == mid5.take(mid4.len() as int)[b + n + 2 * i]);
                assert(mid4[b + n + 2 * i] == mid4.take(mid3.len() as int)[b + n + 2 * i]);
                assert(mid3[b + n + 2 * i] == mid3.take(mid2.len() as int)[b + n + 2 * i]);
                assert(pb1[b + n + 2 * i] == mid2[b + n + 2 * i]);
            }
            assert forall|i: int| 0 <= i < n implies ({
                let fl = #[trigger] pb1[b + n + 2 * i + 1];
                &&& fl.op == "Reshape"@
                &&& fl.name == ring_name(owner, self.index, codev, "/aux_ring/flat"@, i as usize, "/flat"@)
                &&& fl.device == dv[from@.devices[i] as int]
                &&& fl.input == seq![
                    lv[i],
                    ring_name(owner, self.index, codev, "/aux_ring/flat"@, i as usize, "/shape"@),
                ]
                &&& belongs_to(fl, owner)
                &&& attr_lookup(fl.attr, "T"@) == dtype_spec(raw@)
                &&& input_size_at(fl.attr, 0) == Some(psz)
            }) by {
                assert(pb1[b + n + 2 * i + 1] == pb1.take(mid6.len() as int)[b + n + 2 * i + 1]);
                assert(mid6[b + n + 2 * i + 1] == mid6.take(mid5.len() as int)[b + n + 2 * i + 1]);
                assert(mid5[b + n + 2 * i + 1] == mid5.take(mid4.len() as int)[b + n + 2 * i + 1]);
                assert(mid4[b + n + 2 * i + 1] == mid4.take(mid3.len() as int)[b + n + 2 * i + 1]);
                assert(mid3[b + n + 2 * i + 1] == mid3.take(mid2.len() as int)[b + n + 2 * i + 1]);
                assert(pb1[b + n + 2 * i + 1] == mid2[b + n + 2 * i + 1]);
            }
            assert forall|i: int| 0 <= i < n implies axis_const_ok(
                #[trigger] pb1[b + 3 * n + 2 * i],
                ring_name(owner, self.index, codev, "/aux_ring/split"@, i as usize, "/dim"@),
                dv[from@.devices[i] as int],
                owner,
            ) by {
                assert(pb1[b + 3 * n + 2 * i] == pb1.take(mid6.len() as int)[b + 3 * n + 2 * i]);
                assert(mid6[b + 3 * n + 2 * i] == mid6.take(mid5.len() as int)[b + 3 * n + 2 * i]);
                assert(mid5[b + 3 * n + 2 * i] == mid5.take(mid4.len() as int)[b + 3 * n + 2 * i]);
                assert(mid4[b + 3 * n + 2 * i] == mid4.take(mid3.len() as int)[b + 3 * n + 2 * i]);
                assert(pb1[b + 3 * n + 2 * i] == mid3[b + 3 * n + 2 * i]);
            }
            assert forall|i: int| 0 <= i < n implies ({
                let sp = #[trigger] pb1[b + 3 * n + 2 * i + 1];
                &&& sp.op == "Split"@
                &&& sp.name == ring_name(owner, self.index, codev, "/aux_ring/split"@, i as usize, "/split"@)
                &&& sp.device == dv[from@.devices[i] as int]
                &&& sp.input == seq![
                    ring_name(owner, self.index, codev, "/aux_ring/split"@, i as usize, "/dim"@),
                    ring_name(owner, self.index, codev, "/aux_ring/flat"@, i as usize, "/flat"@),
                ]
                &&& belongs_to(sp, owner)
                &&& attr_lookup(sp.attr, "T"@) == dtype_spec(raw@)
                &&& attr_lookup(sp.attr, "num_split"@) == Some(AttrV::Int(nn as i64))
                &&& input_size_at(sp.attr, 1) == Some(psz)
            }) by {
                assert(pb1[b + 3 * n + 2 * i + 1] == pb1.take(mid6.len() as int)[b + 3 * n + 2 * i
                    + 1]);
                assert(mid6[b + 3 * n + 2 * i + 1] == mid6.take(mid5.len() as int)[b + 3 * n + 2
                    * i + 1]);
                assert(mid5[b + 3 * n + 2 * i + 1] == mid5.take(mid4.len() as int)[b + 3 * n + 2
                    * i + 1]);
                assert(mid4[b + 3 * n + 2 * i + 1] == mid4.take(mid3.len() as int)[b + 3 * n + 2
                    * i + 1]);
                assert(pb1[b + 3 * n + 2 * i + 1] == mid3[b + 3 * n + 2 * i + 1]);
            }
            assert forall|rd: int, i: int| 0 <= rd < (n as int) - 1 && 0 <= i < n implies
                ring_add_ok(
                #[trigger] pb1[b + 5 * n + rd * n + i],
                owner,
                self.index,
                codev,
                nn,
                dv,
                from@.devices,
                dtype_spec(raw@),
                psz,
                rd,
                i,
            ) by {
                assert(b + 5 * n + rd * n + i < mid4.len()) by (nonlinear_arith)
                    requires
                        0 <= rd < (n as int) - 1,
                        0 <= i < n,
                        mid4.len() == base + 5 * n + n * ((n - 1) as int),
                        b == base,
                ;
                assert(pb1[b + 5 * n + rd * n + i] == pb1.take(mid6.len() as int)[b + 5 * n + rd
                    * n + i]);
                assert(mid6[b + 5 * n + rd * n + i] == mid6.take(mid5.len() as int)[b + 5 * n + rd
                    * n + i]);
                assert(mid5[b + 5 * n + rd * n + i] == mid5.take(mid4.len() as int)[b + 5 * n + rd
                    * n + i]);
                assert(pb1[b + 5 * n + rd * n + i] == mid4[b + 5 * n + rd * n + i]);
            }
            assert forall|rd: int, i: int| 0 <= rd < (n as int) - 1 && 0 <= i < n implies
                ring_id_ok(
                #[trigger] pb1[b + 5 * n + ((n as int) - 1) * n + rd * n + i],
                owner,
                self.index,
                codev,
                nn,
                dv,
                from@.devices,
                dtype_spec(raw@),
                psz,
                rd,
                i,
            ) by {
                assert(b + 5 * n + ((n as int) - 1) * n + rd * n + i < mid5.len()) by (
                nonlinear_arith)
                    requires
                        0 <= rd < (n as int) - 1,
                        0 <= i < n,
                        mid5.len() == base + 5 * n + 2 * (n * ((n - 1) as int)),
                        b == base,
                ;
                assert(pb1[b + 5 * n + ((n as int) - 1) * n + rd * n + i] == pb1.take(
                    mid6.len() as int,
                )[b + 5 * n + ((n as int) - 1) * n + rd * n + i]);
                assert(mid6[b + 5 * n + ((n as int) - 1) * n + rd * n + i] == mid6.take(
                    mid5.len() as int,
                )[b + 5 * n + ((n as int) - 1) * n + rd * n + i]);
                assert(pb1[b + 5 * n + ((n as int) - 1) * n + rd * n + i] == mid5[b + 5 * n + ((
                n as int) - 1) * n + rd * n + i]);
                assert(((n - 1) as int) == (n as int) - 1);
                assert(n * ((n - 1) as int) == ((n as int) - 1) * n) by (nonlinear_arith)
                    requires
                        ((n - 1) as int) == (n as int) - 1,
                ;
                assert(mid4.len() + rd * n + i == b + 5 * n + ((n as int) - 1) * n + rd * n + i);
            }
            assert forall|i: int| 0 <= i < n implies axis_const_ok(
                #[trigger] pb1[b + 5 * n + 2 * (((n as int) - 1) * n) + 2 * i],
                ring_name(owner, self.index, codev, "/aux_ring/concat"@, i as usize, "/axis"@),
                dv[from@.devices[i] as int],
                owner,
            ) by {
                assert(mid5.len() + 2 * i == b + 5 * n + 2 * (((n as int) - 1) * n) + 2 * i);
                assert(pb1[mid5.len() + 2 * i] == pb1.take(mid6.len() as int)[mid5.len() + 2 * i]);
                assert(pb1[mid5.len() + 2 * i] == mid6[mid5.len() + 2 * i]);
            }
            assert forall|i: int| 0 <= i < n implies ({
                let cc = #[trigger] pb1[b + 5 * n + 2 * (((n as int) - 1) * n) + 2 * i + 1];
                &&& cc.op == "ConcatV2"@
                &&& cc.name == ring_name(owner, self.index, codev, "/aux_ring/concat"@, i as usize, "/concat"@)
                &&& cc.device == dv[from@.devices[i] as int]
                &&& cc.input == Seq::new(nn, |y: int| ring_gslot(
                    owner,
                    self.index,
                    codev,
                    nn,
                    (nn - 1) as nat,
                    i,
                    y,
                )) + seq![
                    ring_name(owner, self.index, codev, "/aux_ring/concat"@, i as usize, "/axis"@),
                ]
                &&& belongs_to(cc, owner)
                &&& attr_lookup(cc.attr, "N"@) == Some(AttrV::Int(nn as i64))
                &&& attr_lookup(cc.attr, "T"@) == dtype_spec(raw@)
                &&& attr_lookup(cc.attr, "Tidx"@) == Some(AttrV::DType(DT_INT32))
                &&& forall|k: int| 0 <= k < n ==> input_size_at(cc.attr, k) == Some(psz)
            }) by {
                assert(mid5.len() + 2 * i + 1 == b + 5 * n + 2 * (((n as int) - 1) * n) + 2 * i
                    + 1);
                assert(pb1[mid5.len() + 2 * i + 1] == pb1.take(mid6.len() as int)[mid5.len() + 2
                    * i + 1]);
                assert(pb1[mid5.len() + 2 * i + 1] == mid6[mid5.len() + 2 * i + 1]);
            }
            assert forall|i: int| 0 <= i < n implies {
                let rs = #[trigger] pb1[b + 7 * n + 2 * (((n as int) - 1) * n) + i];
                &&& rs.op == "Reshape"@
                &&& rs.name == aux_name_idx_spec(
                    owner,
                    self.index,
                    codev,
                    "/aux_ring/reshape"@,
                    i as usize,
                )
                &&& rs.device == dv[from@.devices[i] as int]
                &&& rs.input == seq![
                    ring_name(owner, self.index, codev, "/aux_ring/concat"@, i as usize, "/concat"@),
                    aux_name_idx_spec(owner, self.index, codev, "/aux_ring/shape"@, i as usize),
                ]
                &&& belongs_to(rs, owner)
                &&& attr_lookup(rs.attr, "T"@) == dtype_spec(raw@)
                &&& input_size_at(rs.attr, 0) == Some(psz)
            } by {
                assert(mid6.len() + i == b + 7 * n + 2 * (((n as int) - 1) * n) + i);
            }
            assert(forall|x: int| 0 <= x < n ==> #[trigger] r.deep_view()[x] == r@[x]@);
            assert(r.deep_view().len() == to@.ndev());
            assert(ring_post(
                old(target)@.pb,
                pb1,
                r.deep_view(),
                raw@,
                self.index,
                lv,
                from@,
                to@,
                dv,
            ));
        }
        r
    }
}

} // verus!
