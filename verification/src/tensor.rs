//! One tensor per (operator, output port) pair: its shape and size as read
//! from the operator's attributes, and the cache of realized names under
//! each requested form.
use vstd::prelude::*;
use crate::attr::{attr_get, attr_lookup, dtype_spec, AttrV, AttrValue, OpDef, OpDefV};
use crate::form::{Form, FormKind, FormV};
use crate::names::{dec_seq, dec_string, port_ref, port_ref_spec, replica_name, replica_name_spec};

verus! {

/// A tensor: output `index` of some operator, with its form cache.
pub struct Tensor {
    /// The output port this tensor is produced on.
    pub index: usize,
    /// Realized names under each form requested so far; entries are only
    /// ever appended, never removed or replaced.
    pub forms: Vec<(Form, Vec<String>)>,
}

pub ghost struct TensorV {
    pub index: usize,
    pub forms: Seq<(FormV, Seq<Seq<char>>)>,
}

impl View for Tensor {
    type V = TensorV;

    open spec fn view(&self) -> TensorV {
        TensorV {
            index: self.index,
            forms: Seq::new(self.forms@.len(), |i: int| (self.forms@[i].0@, self.forms@[i].1.deep_view())),
        }
    }
}

// ---------------------------------------------------------------------------
// Shape and size
// ---------------------------------------------------------------------------

/// The dimension list recorded for output `port` in `_output_shapes`.
pub open spec fn shape_dims(op: OpDefV, port: int) -> Option<Seq<i64>> {
    match attr_lookup(op.attr, "_output_shapes"@) {
        Some(AttrV::ShapeList(l)) => if 0 <= port < l.len() {
            Some(l[port])
        } else {
            None
        },
        _ => None,
    }
}

/// Whether the operator records a shape for output `port`.
pub open spec fn shape_ok(op: OpDefV, port: int) -> bool {
    shape_dims(op, port) is Some
}

/// A dimension list as a shape; any unknown (negative or oversized)
/// dimension makes the whole shape count as empty.
pub open spec fn dims_to_shape(dims: Seq<i64>) -> Seq<usize> {
    if forall|i: int| 0 <= i < dims.len() ==> 0 <= #[trigger] dims[i] <= usize::MAX {
        Seq::new(dims.len(), |i: int| dims[i] as usize)
    } else {
        Seq::empty()
    }
}

/// The shape of output `port` of `op`.
pub open spec fn shape_spec(op: OpDefV, port: int) -> Seq<usize> {
    dims_to_shape(shape_dims(op, port).unwrap())
}

/// Product of the dimensions of a shape.
pub open spec fn shape_prod(s: Seq<usize>) -> nat
    decreases s.len(),
{
    if s.len() == 0 {
        1
    } else {
        shape_prod(s.drop_last()) * (s.last() as nat)
    }
}

/// The advisory byte size of output `port`: product of dimensions times
/// four bytes per element.
pub open spec fn size_spec(op: OpDefV, port: int) -> nat {
    shape_prod(shape_spec(op, port)) * 4
}

/// The size computation stays within `u64` at every step.
pub open spec fn size_pre(op: OpDefV, port: int) -> bool {
    &&& shape_ok(op, port)
    &&& forall|i: int|
        0 <= i <= shape_spec(op, port).len() ==> #[trigger] shape_prod(
            shape_spec(op, port).take(i),
        ) * 4 <= u64::MAX
}

impl Tensor {
    /// A fresh tensor for output `index`, with an empty form cache.
    pub fn new(index: usize) -> (t: Tensor)
        ensures
            t@ == (TensorV { index, forms: Seq::empty() }),
    {
        let t = Tensor { index, forms: Vec::new() };
        proof {
            assert(t@.forms =~= Seq::<(FormV, Seq<Seq<char>>)>::empty());
            assert(t@ == (TensorV { index, forms: Seq::<(FormV, Seq<Seq<char>>)>::empty() }));
        }
        t
    }

    /// The reference under which the single-device original exposes this
    /// tensor: the bare name on port 0, `"name:k"` otherwise.
    pub fn original_name(&self, raw: &OpDef) -> (r: String)
        ensures
            r@ == if self.index == 0 {
                raw@.name
            } else {
                port_ref_spec(raw@.name, self.index as nat)
            },
    {
        if self.index == 0 {
            raw.name.clone()
        } else {
            port_ref(&raw.name, self.index)
        }
    }

    /// Reads this output's shape from the operator's `_output_shapes`.
    pub fn get_shape(&self, raw: &OpDef) -> (r: Vec<usize>)
        requires
            shape_ok(raw@, self.index as int),
        ensures
            r@ == shape_spec(raw@, self.index as int),
    {
        let dims: &Vec<i64> = match attr_get(&raw.attr, "_output_shapes") {
            Some(AttrValue::ShapeList(l)) => &l[self.index],
            _ => {
                return Vec::new();
            },
        };
        proof {
            assert(dims@ == shape_dims(raw@, self.index as int).unwrap());
        }
        let mut r: Vec<usize> = Vec::new();
        let mut i: usize = 0;
        while i < dims.len()
            invariant
                i <= dims@.len(),
                dims@ == shape_dims(raw@, self.index as int).unwrap(),
                forall|j: int| 0 <= j < i ==> 0 <= #[trigger] dims@[j] <= usize::MAX,
                r@ == Seq::new(i as nat, |j: int| dims@[j] as usize),
            decreases dims@.len() - i,
        {
            let d = dims[i];
            if d < 0 {
                return Vec::new();
            }
            let du = d as u64;
            if du > usize::MAX as u64 {
                return Vec::new();
            }
            r.push(du as usize);
            proof {
                assert(r@ =~= Seq::new((i + 1) as nat, |j: int| dims@[j] as usize));
            }
            i = i + 1;
        }
        proof {
            assert(r@ =~= shape_spec(raw@, self.index as int));
        }
        r
    }

    /// The advisory byte size of this output: product of dimensions times
    /// four bytes per element.
    pub fn get_size(&self, raw: &OpDef) -> (r: u64)
        requires
            size_pre(raw@, self.index as int),
        ensures
            r == size_spec(raw@, self.index as int),
    {
        let shape = self.get_shape(raw);
        let ghost sv = shape_spec(raw@, self.index as int);
        let mut p: u64 = 1;
        let mut i: usize = 0;
        proof {
            assert(sv.take(0) =~= Seq::<usize>::empty());
        }
        while i < shape.len()
            invariant
                i <= shape@.len(),
                shape@ == sv,
                p == shape_prod(sv.take(i as int)),
            decreases shape@.len() - i,
        {
            proof {
                assert(sv.take(i + 1).drop_last() =~= sv.take(i as int));
                assert(sv.take(i + 1).last() == sv[i as int]);
                assert(shape_prod(sv.take(i + 1)) * 4 <= u64::MAX);
            }
            p = p * (shape[i] as u64);
            i = i + 1;
        }
        proof {
            assert(sv.take(sv.len() as int) =~= sv);
        }
        p * 4
    }
}

// ---------------------------------------------------------------------------
// The form cache
// ---------------------------------------------------------------------------

/// First-match lookup in a form cache.
pub open spec fn cache_lookup(forms: Seq<(FormV, Seq<Seq<char>>)>, f: FormV) -> Option<
    Seq<Seq<char>>,
>
    decreases forms.len(),
{
    if forms.len() == 0 {
        None
    } else if forms[0].0 == f {
        Some(forms[0].1)
    } else {
        cache_lookup(forms.skip(1), f)
    }
}

/// Every cached entry lists exactly one name per device of its form.
pub open spec fn cache_wf(t: TensorV) -> bool {
    forall|j: int| 0 <= j < t.forms.len() ==> (#[trigger] t.forms[j]).1.len() == t.forms[j].0.ndev()
}

/// A cache extension preserves every earlier lookup.
pub proof fn lemma_cache_lookup_prefix(
    a: Seq<(FormV, Seq<Seq<char>>)>,
    b: Seq<(FormV, Seq<Seq<char>>)>,
    f: FormV,
)
    requires
        cache_lookup(a, f) is Some,
    ensures
        cache_lookup(a + b, f) == cache_lookup(a, f),
    decreases a.len(),
{
    if a.len() > 0 {
        assert((a + b)[0] == a[0]);
        if a[0].0 == f {
        } else {
            assert((a + b).skip(1) =~= a.skip(1) + b);
            lemma_cache_lookup_prefix(a.skip(1), b, f);
        }
    }
}

/// A miss on the whole cache stays a miss on any prefix; an appended entry
/// is then the one found.
pub proof fn lemma_cache_lookup_push(
    a: Seq<(FormV, Seq<Seq<char>>)>,
    f: FormV,
    names: Seq<Seq<char>>,
)
    requires
        cache_lookup(a, f) is None,
    ensures
        cache_lookup(a + seq![(f, names)], f) == Some(names),
    decreases a.len(),
{
    let b = seq![(f, names)];
    if a.len() == 0 {
        assert(a + b =~= b);
    } else {
        assert((a + b)[0] == a[0]);
        assert((a + b).skip(1) =~= a.skip(1) + b);
        lemma_cache_lookup_push(a.skip(1), f, names);
    }
}

/// An appended entry under a different form leaves other lookups alone.
pub proof fn lemma_cache_lookup_push_other(
    a: Seq<(FormV, Seq<Seq<char>>)>,
    f: FormV,
    names: Seq<Seq<char>>,
    g: FormV,
)
    requires
        g != f,
    ensures
        cache_lookup(a + seq![(f, names)], g) == cache_lookup(a, g),
    decreases a.len(),
{
    let b = seq![(f, names)];
    if a.len() == 0 {
        assert(a + b =~= b);
        assert(cache_lookup(b, g) == cache_lookup(b.skip(1), g));
        assert(b.skip(1) =~= Seq::<(FormV, Seq<Seq<char>>)>::empty());
    } else {
        assert((a + b)[0] == a[0]);
        assert((a + b).skip(1) =~= a.skip(1) + b);
        lemma_cache_lookup_push_other(a.skip(1), f, names, g);
    }
}

/// In a well-formed cache, a found list has one name per device.
pub proof fn lemma_cache_lookup_len(forms: Seq<(FormV, Seq<Seq<char>>)>, f: FormV)
    requires
        forall|j: int| 0 <= j < forms.len() ==> (#[trigger] forms[j]).1.len() == forms[j].0.ndev(),
        cache_lookup(forms, f) is Some,
    ensures
        cache_lookup(forms, f).unwrap().len() == f.ndev(),
    decreases forms.len(),
{
    if forms[0].0 == f {
        assert(forms[0].1.len() == forms[0].0.ndev());
    } else {
        assert forall|j: int| 0 <= j < forms.skip(1).len() implies (#[trigger] forms.skip(1)[j]).1.len()
            == forms.skip(1)[j].0.ndev() by {
            assert(forms.skip(1)[j] == forms[j + 1]);
        }
        lemma_cache_lookup_len(forms.skip(1), f);
    }
}

impl Tensor {
    /// Looks this tensor up under `form` in its cache.
    pub fn cache_get(&self, form: &Form) -> (r: Option<&Vec<String>>)
        ensures
            match r {
                Some(v) => cache_lookup(self@.forms, form@) == Some(v.deep_view()),
                None => cache_lookup(self@.forms, form@) is None,
            },
    {
        let ghost cv = self@.forms;
        proof {
            assert(cv.skip(0) =~= cv);
        }
        let mut i: usize = 0;
        while i < self.forms.len()
            invariant
                i <= self.forms@.len(),
                cv == self@.forms,
                cache_lookup(cv, form@) == cache_lookup(cv.skip(i as int), form@),
            decreases self.forms@.len() - i,
        {
            let hit = &self.forms[i].0 == form;
            proof {
                assert(cv.skip(i as int)[0] == cv[i as int]);
                assert(cv.skip(i as int).skip(1) =~= cv.skip(i + 1));
            }
            if hit {
                return Some(&self.forms[i].1);
            }
            i = i + 1;
        }
        proof {
            assert(cv.skip(cv.len() as int) =~= Seq::<(FormV, Seq<Seq<char>>)>::empty());
        }
        None
    }
}

// ---------------------------------------------------------------------------
// The tensor's own names
// ---------------------------------------------------------------------------

/// The per-replica original output names `"<name>/replica_<i>:<port>"`.
pub open spec fn own_names_spec(name: Seq<char>, port: usize, n: nat) -> Seq<Seq<char>> {
    Seq::new(n, |i: int| port_ref_spec(replica_name_spec(name, i as nat), port as nat))
}

impl Tensor {
    /// Builds the identity list for this tensor under its node's own form.
    pub fn own_names(&self, raw: &OpDef, n: usize) -> (r: Vec<String>)
        ensures
            r.deep_view() == own_names_spec(raw@.name, self.index, n as nat),
            r@.len() == n,
    {
        let mut r: Vec<String> = Vec::new();
        let mut i: usize = 0;
        while i < n
            invariant
                i <= n,
                r@.len() == i,
                forall|j: int| 0 <= j < i ==> (#[trigger] r@[j])@ == port_ref_spec(
                    replica_name_spec(raw@.name, j as nat),
                    self.index as nat,
                ),
            decreases n - i,
        {
            let base = replica_name(&raw.name, i);
            r.push(port_ref(&base, self.index));
            i = i + 1;
        }
        proof {
            assert(r.deep_view() =~= own_names_spec(raw@.name, self.index, n as nat));
        }
        r
    }
}

impl Tensor {
    /// The tensor's names in the requested form (the central cache entry
    /// point).  A cached form is returned as it was first computed, with
    /// nothing emitted; the tensor's own form costs nothing but the
    /// identity list; any other form is materialized by the matching
    /// transition builder and the result is cached.  Cache entries are only
    /// ever added, never removed or replaced.
    #[verifier::rlimit(100)]
    #[verifier::spinoff_prover]
    pub fn as_form(
        &mut self,
        raw: &OpDef,
        node_form: &crate::form::Form,
        form: &crate::form::Form,
        target: &mut crate::graph::Target,
    ) -> (names: Vec<String>)
        requires
            cache_wf(old(self)@),
            node_form@.valid(),
            form@.valid(),
            forall|i: int|
                0 <= i < node_form@.ndev() ==> node_form@.devices[i] < old(
                    target,
                )@.devices.len(),
            forall|i: int| 0 <= i < form@.ndev() ==> form@.devices[i] < old(target)@.devices.len(),
            form@ != node_form@ ==> dtype_spec(raw@) is Some && size_pre(
                raw@,
                old(self)@.index as int,
            ),
            node_form@.ndev() <= i64::MAX,
            form@.ndev() <= i64::MAX,
            node_form@.ndev() < usize::MAX,
        ensures
            names@.len() == form@.ndev(),
            cache_wf(final(self)@),
            final(self)@.index == old(self)@.index,
            cache_lookup(final(self)@.forms, form@) == Some(names.deep_view()),
            forall|f: FormV|
                cache_lookup(old(self)@.forms, f) is Some ==> cache_lookup(
                    final(self)@.forms,
                    f,
                ) == cache_lookup(old(self)@.forms, f),
            cache_lookup(old(self)@.forms, form@) is Some ==> *final(target) == *old(target)
                && Some(names.deep_view()) == cache_lookup(old(self)@.forms, form@)
                && final(self)@ == old(self)@,
            (cache_lookup(old(self)@.forms, form@) is None && form@ == node_form@)
                ==> *final(target) == *old(target) && names.deep_view() == own_names_spec(
                raw@.name,
                old(self)@.index,
                form@.ndev(),
            ),
            cache_lookup(old(self)@.forms, form@) is None ==> cache_lookup(
                final(self)@.forms,
                node_form@,
            ) is Some && cache_lookup(final(self)@.forms, node_form@).unwrap().len()
                == node_form@.ndev(),
            (cache_lookup(old(self)@.forms, form@) is None && cache_lookup(
                old(self)@.forms,
                node_form@,
            ) is None) ==> cache_lookup(final(self)@.forms, node_form@) == Some(
                own_names_spec(raw@.name, old(self)@.index, node_form@.ndev()),
            ),
            (cache_lookup(old(self)@.forms, form@) is None && form@ != node_form@) ==> ({
                let own = cache_lookup(final(self)@.forms, node_form@).unwrap();
                match (form@.kind, node_form@.kind) {
                    (FormKind::Full, FormKind::Full) => *final(target) == *old(target)
                        && crate::transition::broadcast_post(
                        names.deep_view(),
                        own,
                        node_form@,
                        form@,
                    ),
                    (FormKind::Part, FormKind::Full) => crate::transition::split_post(
                        old(target)@.pb,
                        final(target)@.pb,
                        names.deep_view(),
                        raw@,
                        old(self)@.index,
                        own,
                        node_form@,
                        form@,
                        old(target)@.devices,
                    ),
                    (FormKind::Full, FormKind::Part) => crate::transition::cat_post(
                        old(target)@.pb,
                        final(target)@.pb,
                        names.deep_view(),
                        raw@,
                        old(self)@.index,
                        own,
                        node_form@,
                        form@,
                        old(target)@.devices,
                    ),
                    (FormKind::Part, FormKind::Part) => crate::transition::resplit_post(
                        old(target)@.pb,
                        final(target)@.pb,
                        names.deep_view(),
                        raw@,
                        old(self)@.index,
                        own,
                        node_form@,
                        form@,
                        old(target)@.devices,
                    ),
                }
            }),
            old(target)@.pb == final(target)@.pb.take(old(target)@.pb.len() as int),
            final(target)@.pb.len() >= old(target)@.pb.len(),
            forall|k: int|
                old(target)@.pb.len() <= k < final(target)@.pb.len() ==> crate::transition::belongs_to(
                    #[trigger] final(target)@.pb[k],
                    raw@.name,
                ),
            final(target)@.devices == old(target)@.devices,
            final(target)@.links == old(target)@.links,
            final(target)@.paths == old(target)@.paths,
    {
        let hit = match self.cache_get(form) {
            Some(v) => Some(crate::names::clone_strings(v)),
            None => None,
        };
        if let Some(v) = hit {
            proof {
                lemma_cache_lookup_len(old(self)@.forms, form@);
                assert(old(target)@.pb =~= target@.pb.take(old(target)@.pb.len() as int));
            }
            return v;
        }
        let n0 = node_form.ndev();
        let ghost forms0 = self@.forms;
        let own = match self.cache_get(node_form) {
            Some(v) => {
                proof {
                    lemma_cache_lookup_len(old(self)@.forms, node_form@);
                }
                crate::names::clone_strings(v)
            },
            None => {
                let v = self.own_names(raw, n0);
                self.forms.push((node_form.clone(), crate::names::clone_strings(&v)));
                proof {
                    assert(self@.forms =~= forms0 + seq![(node_form@, v.deep_view())]);
                    lemma_cache_lookup_push(forms0, node_form@, v.deep_view());
                    assert forall|f: FormV| cache_lookup(forms0, f) is Some implies cache_lookup(
                        self@.forms,
                        f,
                    ) == cache_lookup(forms0, f) by {
                        lemma_cache_lookup_prefix(forms0, seq![(node_form@, v.deep_view())], f);
                    }
                }
                v
            },
        };
        let ghost forms1 = self@.forms;
        if form == node_form {
            proof {
                assert(cache_lookup(self@.forms, form@) == Some(own.deep_view()));
                assert(old(target)@.pb =~= target@.pb.take(old(target)@.pb.len() as int));
            }
            return own;
        }
        let names = match (form.kind, node_form.kind) {
            (FormKind::Full, FormKind::Full) => self.replicate_broadcast(&own, node_form, form),
            (FormKind::Part, FormKind::Full) => self.replicate_split(
                raw,
                &own,
                node_form,
                form,
                target,
            ),
            (FormKind::Full, FormKind::Part) => self.aggregate_cat(
                raw,
                &own,
                node_form,
                form,
                target,
            ),
            (FormKind::Part, FormKind::Part) => self.resplit(raw, &own, node_form, form, target),
        };
        proof {
            assert(old(target)@.pb =~= target@.pb.take(old(target)@.pb.len() as int));
        }
        self.forms.push((form.clone(), crate::names::clone_strings(&names)));
        proof {
            assert(self@.forms =~= forms1 + seq![(form@, names.deep_view())]);
            if cache_lookup(forms0, node_form@) is None {
                lemma_cache_lookup_push_other(forms0, node_form@, own.deep_view(), form@);
            }
            assert(cache_lookup(forms1, form@) is None);
            lemma_cache_lookup_push(forms1, form@, names.deep_view());
            assert forall|f: FormV| cache_lookup(forms0, f) is Some implies cache_lookup(
                self@.forms,
                f,
            ) == cache_lookup(forms0, f) by {
                lemma_cache_lookup_prefix(forms1, seq![(form@, names.deep_view())], f);
            }
            assert(cache_lookup(forms1, node_form@) == Some(own.deep_view()));
            lemma_cache_lookup_push_other(forms1, form@, names.deep_view(), node_form@);
            assert(cache_lookup(self@.forms, node_form@) == Some(own.deep_view()));
        }
        names
    }
}

} // verus!
