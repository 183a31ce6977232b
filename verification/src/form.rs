//! The form of a tensor: full replication or axis-0 partition over an
//! ordered, possibly repeating list of device indices, together with its
//! textual code (`"full_0_1"`, `"part_2_2"`) and the code's parser.
use vstd::prelude::*;
use crate::names::{
    all_digits, dec_seq, dec_string, dec_val, digits_prefix_len, is_digit, parse_dec, scan_digits,
    str_eq, lemma_dec_seq_digits, lemma_dec_val_dec_seq, lemma_digits_prefix_len,
    lemma_digits_prefix_of_concat,
};

verus! {

#[derive(Clone, Copy, Debug, PartialEq, Eq, Structural)]
pub enum FormKind {
    Full,
    Part,
}

/// A distribution of a tensor over devices.  `devices` is ordered and may
/// repeat an index (several replicas co-located on one device).
#[derive(Debug)]
pub struct Form {
    pub kind: FormKind,
    pub devices: Vec<usize>,
}

impl Clone for Form {
    fn clone(&self) -> (r: Form)
        ensures
            r@ == self@,
    {
        Form { kind: self.kind, devices: crate::names::clone_usizes(&self.devices) }
    }
}

pub ghost struct FormV {
    pub kind: FormKind,
    pub devices: Seq<usize>,
}

impl View for Form {
    type V = FormV;

    open spec fn view(&self) -> FormV {
        FormV { kind: self.kind, devices: self.devices@ }
    }
}

impl FormV {
    pub open spec fn ndev(self) -> nat {
        self.devices.len()
    }

    pub open spec fn valid(self) -> bool {
        self.devices.len() > 0
    }

    pub open spec fn is_full(self) -> bool {
        self.kind == FormKind::Full
    }

    pub open spec fn is_part(self) -> bool {
        self.kind == FormKind::Part
    }
}

impl PartialEq for Form {
    fn eq(&self, other: &Form) -> (r: bool) {
        if self.kind != other.kind {
            return false;
        }
        if self.devices.len() != other.devices.len() {
            return false;
        }
        let mut i: usize = 0;
        while i < self.devices.len()
            invariant
                i <= self.devices.len(),
                self.devices.len() == other.devices.len(),
                forall|j: int| 0 <= j < i ==> self.devices@[j] == other.devices@[j],
            decreases self.devices.len() - i,
        {
            if self.devices[i] != other.devices[i] {
                return false;
            }
            i = i + 1;
        }
        proof {
            assert(self.devices@ =~= other.devices@);
        }
        true
    }
}

impl vstd::std_specs::cmp::PartialEqSpecImpl for Form {
    open spec fn obeys_eq_spec() -> bool {
        true
    }

    open spec fn eq_spec(&self, other: &Form) -> bool {
        self@ == other@
    }
}

// ---------------------------------------------------------------------------
// The form code
// ---------------------------------------------------------------------------

pub open spec fn kind_code(k: FormKind) -> Seq<char> {
    match k {
        FormKind::Full => seq!['f', 'u', 'l', 'l'],
        FormKind::Part => seq!['p', 'a', 'r', 't'],
    }
}

/// `"_<dev>"` repeated, one group per device.
pub open spec fn devices_code(devs: Seq<usize>) -> Seq<char>
    decreases devs.len(),
{
    if devs.len() == 0 {
        Seq::empty()
    } else {
        seq!['_'] + dec_seq(devs[0] as nat) + devices_code(devs.skip(1))
    }
}

/// The serialized form: kind word, then one `"_<dev>"` group per device.
pub open spec fn form_code(f: FormV) -> Seq<char> {
    kind_code(f.kind) + devices_code(f.devices)
}

pub proof fn lemma_devices_code_concat(a: Seq<usize>, b: Seq<usize>)
    ensures
        devices_code(a + b) == devices_code(a) + devices_code(b),
    decreases a.len(),
{
    if a.len() == 0 {
        assert(a + b =~= b);
        assert(devices_code(a) + devices_code(b) =~= devices_code(b));
    } else {
        assert((a + b).skip(1) =~= a.skip(1) + b);
        lemma_devices_code_concat(a.skip(1), b);
        assert((a + b)[0] == a[0]);
        assert(devices_code(a + b) =~= devices_code(a) + devices_code(b));
    }
}

// ---------------------------------------------------------------------------
// Parsing a form code
// ---------------------------------------------------------------------------

/// Parses the `"_<dev>"` groups of a form code.
pub open spec fn parse_devs(s: Seq<char>) -> Option<Seq<usize>>
    decreases s.len(),
{
    if s.len() == 0 {
        Some(Seq::empty())
    } else if s[0] != '_' {
        None
    } else {
        let rest = s.skip(1);
        let scan = digits_prefix_len(rest) as int;
        let j = if scan <= rest.len() {
            scan
        } else {
            rest.len() as int
        };
        if j == 0 {
            None
        } else if dec_val(rest.take(j)) > usize::MAX {
            None
        } else {
            match parse_devs(rest.skip(j)) {
                Option::None => None,
                Option::Some(d) => Some(seq![dec_val(rest.take(j)) as usize] + d),
            }
        }
    }
}

/// Parses a whole form code; `None` on anything that no form serializes to.
pub open spec fn parse_form_code(s: Seq<char>) -> Option<FormV> {
    if s.len() >= 4 && s.take(4) == kind_code(FormKind::Full) {
        match parse_devs(s.skip(4)) {
            Option::None => None,
            Option::Some(d) => Some(FormV { kind: FormKind::Full, devices: d }),
        }
    } else if s.len() >= 4 && s.take(4) == kind_code(FormKind::Part) {
        match parse_devs(s.skip(4)) {
            Option::None => None,
            Option::Some(d) => Some(FormV { kind: FormKind::Part, devices: d }),
        }
    } else {
        None
    }
}

pub open spec fn valid_form_code(s: Seq<char>) -> bool {
    parse_form_code(s) is Some
}

pub proof fn lemma_parse_devs_roundtrip(devs: Seq<usize>)
    ensures
        parse_devs(devices_code(devs)) == Some(devs),
    decreases devs.len(),
{
    if devs.len() > 0 {
        let d0 = devs[0] as nat;
        let s = devices_code(devs);
        let tail = devices_code(devs.skip(1));
        lemma_dec_seq_digits(d0);
        lemma_dec_val_dec_seq(d0);
        assert(s[0] == '_');
        let rest = s.skip(1);
        assert(rest =~= dec_seq(d0) + tail);
        if tail.len() > 0 {
            assert(tail[0] == '_');
            assert(!is_digit('_'));
        }
        lemma_digits_prefix_of_concat(dec_seq(d0), tail);
        let j = dec_seq(d0).len() as int;
        assert(rest.take(j) =~= dec_seq(d0));
        assert(rest.skip(j) =~= tail);
        lemma_parse_devs_roundtrip(devs.skip(1));
        assert(seq![devs[0]] + devs.skip(1) =~= devs);
    }
}

/// The round trip: decoding the code of any form yields that form back.
pub proof fn lemma_form_code_roundtrip(f: FormV)
    ensures
        parse_form_code(form_code(f)) == Some(f),
{
    let s = form_code(f);
    assert(s.take(4) =~= kind_code(f.kind));
    assert(s.skip(4) =~= devices_code(f.devices));
    assert(kind_code(FormKind::Full)[0] != kind_code(FormKind::Part)[0]);
    lemma_parse_devs_roundtrip(f.devices);
    assert(FormV { kind: f.kind, devices: f.devices } == f);
}

// ---------------------------------------------------------------------------
// Methods
// ---------------------------------------------------------------------------

impl Form {
    pub fn is_full(&self) -> (r: bool)
        ensures
            r == self@.is_full(),
    {
        self.kind == FormKind::Full
    }

    pub fn is_part(&self) -> (r: bool)
        ensures
            r == self@.is_part(),
    {
        self.kind == FormKind::Part
    }

    pub fn ndev(&self) -> (n: usize)
        ensures
            n == self@.ndev(),
    {
        self.devices.len()
    }

    /// A form is usable once its device list is non-empty.
    pub fn valid(&self) -> (r: bool)
        ensures
            r == self@.valid(),
    {
        self.devices.len() > 0
    }

    /// Serializes the form as its code.
    pub fn code(&self) -> (s: String)
        ensures
            s@ == form_code(self@),
    {
        proof {
            reveal_strlit("full");
            reveal_strlit("part");
            reveal_strlit("_");
        }
        let mut s = if self.kind == FormKind::Full {
            String::from_str("full")
        } else {
            String::from_str("part")
        };
        proof {
            assert(s@ =~= kind_code(self.kind));
            assert(self.devices@.take(0) =~= Seq::<usize>::empty());
        }
        let mut i: usize = 0;
        while i < self.devices.len()
            invariant
                i <= self.devices.len(),
                s@ == kind_code(self.kind) + devices_code(self.devices@.take(i as int)),
            decreases self.devices.len() - i,
        {
            s.append("_");
            let d = dec_string(self.devices[i]);
            s.append(d.as_str());
            proof {
                let pre = self.devices@.take(i as int);
                let one = seq![self.devices@[i as int]];
                assert(self.devices@.take(i + 1) =~= pre + one);
                lemma_devices_code_concat(pre, one);
                assert(one.skip(1) =~= Seq::<usize>::empty());
                assert(devices_code(one) =~= seq!['_'] + dec_seq(one[0] as nat));
                assert(s@ =~= kind_code(self.kind) + devices_code(self.devices@.take(i + 1)));
            }
            i = i + 1;
        }
        proof {
            assert(self.devices@.take(self.devices@.len() as int) =~= self.devices@);
        }
        s
    }

    /// Deserializes a form code.  The code must be one that some form
    /// serializes to; `parse_form_code` says exactly which strings those are.
    pub fn from_code(code: &str) -> (f: Form)
        requires
            valid_form_code(code@),
        ensures
            Some(f@) == parse_form_code(code@),
    {
        proof {
            reveal_strlit("full");
        }
        let ghost parsed = parse_form_code(code@).unwrap();
        let len = code.unicode_len();
        let head = code.substring_char(0, 4);
        let kind = if str_eq(head, "full") {
            FormKind::Full
        } else {
            FormKind::Part
        };
        proof {
            assert("full"@ =~= kind_code(FormKind::Full));
            assert(head@ =~= code@.take(4));
            assert(kind == parsed.kind);
        }
        let mut devices: Vec<usize> = Vec::new();
        let mut pos: usize = 4;
        proof {
            assert(code@.skip(4) =~= code@.skip(4));
            assert(parsed.devices.skip(0) =~= parsed.devices);
            assert(devices@ =~= parsed.devices.take(0));
        }
        while pos < len
            invariant
                4 <= pos <= len,
                len == code@.len(),
                valid_form_code(code@),
                parsed == parse_form_code(code@).unwrap(),
                parse_devs(code@.skip(pos as int)) == Some(parsed.devices.skip(devices@.len() as int)),
                devices@.len() <= parsed.devices.len(),
                devices@ == parsed.devices.take(devices@.len() as int),
            decreases len - pos,
        {
            let ghost k = devices@.len() as int;
            let ghost rem = code@.skip(pos as int);
            let ghost tail = parsed.devices.skip(k);
            proof {
                assert(rem.len() > 0);
                lemma_digits_prefix_len(rem.skip(1));
                assert(rem.skip(1) =~= code@.skip(pos + 1));
            }
            let to = scan_digits(code, pos + 1);
            proof {
                assert(to > pos + 1) by {
                    if digits_prefix_len(rem.skip(1)) == 0 {
                        assert(parse_devs(rem) is None);
                    }
                }
            }
            let seg = code.substring_char(pos + 1, to);
            proof {
                let j = (to - pos - 1) as int;
                assert(seg@ =~= rem.skip(1).take(j));
                lemma_digits_prefix_len(rem.skip(1));
                assert(all_digits(seg@)) by {
                    assert(forall|x: int| 0 <= x < j ==> #[trigger] seg@[x] == rem.skip(1)[x]);
                }
                assert(dec_val(seg@) <= usize::MAX);
                assert(tail == Some(parse_devs(rem)).unwrap().unwrap());
                assert(tail.len() > 0);
                assert(tail[0] == dec_val(seg@) as usize);
                assert(rem.skip(1).skip(j) =~= code@.skip(to as int));
                assert(parse_devs(code@.skip(to as int)) == Some(tail.skip(1)));
                assert(tail.skip(1) =~= parsed.devices.skip(k + 1));
            }
            let d = parse_dec(seg);
            devices.push(d);
            proof {
                assert(parsed.devices[k] == d);
                assert(devices@ =~= parsed.devices.take(k + 1));
            }
            pos = to;
        }
        proof {
            assert(code@.skip(len as int) =~= Seq::<char>::empty());
            assert(parsed.devices.skip(devices@.len() as int) =~= Seq::<usize>::empty());
            assert(devices@.len() == parsed.devices.len());
            assert(devices@ =~= parsed.devices);
        }
        let f = Form { kind, devices };
        proof {
            assert(f@ == parsed);
        }
        f
    }
}

} // verus!
