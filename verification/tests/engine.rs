use tge::attr::{AttrValue, OpDef, DT_INT32};
use tge::form::{Form, FormKind};
use tge::graph::{parse_input, Graph, Target};

fn op(name: &str, kind: &str, inputs: &[&str]) -> OpDef {
    OpDef {
        name: String::from(name),
        op: String::from(kind),
        input: inputs.iter().map(|s| String::from(*s)).collect(),
        device: String::new(),
        attr: vec![
            (
                String::from("_output_shapes"),
                AttrValue::ShapeList(vec![vec![4, 2]]),
            ),
            (String::from("T"), AttrValue::DType(DT_INT32)),
        ],
    }
}

fn target2() -> Target {
    Target::new(
        Vec::new(),
        vec![String::from("/gpu:0"), String::from("/gpu:1")],
        vec![1],
        vec![vec![0]],
    )
}

fn full(devs: &[usize]) -> Form {
    Form { kind: FormKind::Full, devices: devs.to_vec() }
}

fn part(devs: &[usize]) -> Form {
    Form { kind: FormKind::Part, devices: devs.to_vec() }
}

fn lookup<'a>(n: &'a OpDef, key: &str) -> Option<&'a AttrValue> {
    n.attr.iter().find(|(k, _)| k == key).map(|(_, v)| v)
}

#[test]
fn form_code_round_trip() {
    let f = part(&[0, 2, 2, 7]);
    assert_eq!(f.code(), "part_0_2_2_7");
    let g = Form::from_code(&f.code());
    assert_eq!(g, f);
    assert_eq!(Form::from_code("full").code(), "full");
    assert_eq!(Form::from_code("full_10").devices, vec![10]);
}

#[test]
fn input_reference_parsing() {
    assert_eq!(parse_input("a"), (String::from("a"), 0));
    assert_eq!(parse_input("a:3"), (String::from("a"), 3));
    assert_eq!(parse_input("long/name:12"), (String::from("long/name"), 12));
}

#[test]
fn pass_through_emits_no_auxiliaries() {
    let defs = vec![op("A", "Const", &[]), op("B", "Relu", &["A"])];
    let mut g = Graph::new(&defs).unwrap();
    g.nodes[0].put_on_devices(&vec![0]);
    g.nodes[1].put_on_devices(&vec![0]);
    let mut t = target2();
    g.compile(&mut t);
    let names: Vec<&str> = t.pb.iter().map(|n| n.name.as_str()).collect();
    assert_eq!(names, vec!["A/replica_0", "B/replica_0"]);
    assert_eq!(t.pb[1].input, vec![String::from("A/replica_0:0")]);
    assert_eq!(t.pb[0].device, "/gpu:0");
    match lookup(&t.pb[0], "_tge_origin") {
        Some(AttrValue::Bytes(s)) => assert_eq!(s, "A"),
        other => panic!("missing origin: {:?}", other),
    }
    match lookup(&t.pb[1], "_tge_form") {
        Some(AttrValue::Bytes(s)) => assert_eq!(s, "full_0"),
        other => panic!("missing form: {:?}", other),
    }
    match lookup(&t.pb[1], "_tge_input_sizes") {
        Some(AttrValue::IntList(l)) => assert_eq!(l, &vec![32]),
        other => panic!("missing sizes: {:?}", other),
    }
}

#[test]
fn broadcast_reuses_replica_zero() {
    let defs = vec![op("A", "Const", &[]), op("B", "Relu", &["A"])];
    let mut g = Graph::new(&defs).unwrap();
    g.nodes[0].put_on_devices(&vec![0]);
    g.nodes[1].put_on_devices(&vec![0, 1]);
    let mut t = target2();
    g.compile(&mut t);
    let names: Vec<&str> = t.pb.iter().map(|n| n.name.as_str()).collect();
    assert_eq!(names, vec!["A/replica_0", "B/replica_0", "B/replica_1"]);
    assert_eq!(t.pb[1].input, vec![String::from("A/replica_0:0")]);
    assert_eq!(t.pb[2].input, vec![String::from("A/replica_0:0")]);
}

#[test]
fn split_emits_const_and_split() {
    let defs = vec![op("A", "Const", &[]), op("B", "Relu", &["A"])];
    let mut g = Graph::new(&defs).unwrap();
    g.nodes[0].put_on_devices(&vec![0]);
    g.nodes[1].put_on_devices(&vec![0, 1]);
    g.nodes[1].inputs[0].2 = FormKind::Part;
    let mut t = target2();
    g.compile(&mut t);
    let names: Vec<&str> = t.pb.iter().map(|n| n.name.as_str()).collect();
    assert_eq!(
        names,
        vec![
            "A/replica_0",
            "A/0_part_0_1/aux_split/dim",
            "A/0_part_0_1/aux_split/split",
            "B/replica_0",
            "B/replica_1",
        ]
    );
    let split = &t.pb[2];
    assert_eq!(split.op, "Split");
    assert_eq!(split.device, "/gpu:0");
    assert_eq!(
        split.input,
        vec![
            String::from("A/0_part_0_1/aux_split/dim"),
            String::from("A/replica_0:0"),
        ]
    );
    match lookup(split, "num_split") {
        Some(AttrValue::Int(n)) => assert_eq!(*n, 2),
        other => panic!("missing num_split: {:?}", other),
    }
    assert_eq!(t.pb[3].input, vec![String::from("A/0_part_0_1/aux_split/split:0")]);
    assert_eq!(t.pb[4].input, vec![String::from("A/0_part_0_1/aux_split/split:1")]);
    // the input is requested partitioned over two devices: half the tensor
    match lookup(&t.pb[3], "_tge_input_sizes") {
        Some(AttrValue::IntList(l)) => assert_eq!(l, &vec![16]),
        other => panic!("missing sizes: {:?}", other),
    }
}

#[test]
fn concat_collects_partitions() {
    let defs = vec![op("A", "Const", &[]), op("B", "Relu", &["A"])];
    let mut g = Graph::new(&defs).unwrap();
    g.nodes[0].put_on_devices(&vec![0, 1]);
    g.nodes[0].form.kind = FormKind::Part;
    g.nodes[1].put_on_devices(&vec![0]);
    let mut t = target2();
    g.compile(&mut t);
    let names: Vec<&str> = t.pb.iter().map(|n| n.name.as_str()).collect();
    assert_eq!(
        names,
        vec![
            "A/replica_0",
            "A/replica_1",
            "A/0_full_0/aux_concat/axis",
            "A/0_full_0/aux_concat/concat",
            "B/replica_0",
        ]
    );
    let concat = &t.pb[3];
    assert_eq!(concat.op, "ConcatV2");
    assert_eq!(
        concat.input,
        vec![
            String::from("A/replica_0:0"),
            String::from("A/replica_1:0"),
            String::from("A/0_full_0/aux_concat/axis"),
        ]
    );
    assert_eq!(t.pb[4].input, vec![String::from("A/0_full_0/aux_concat/concat")]);
}

#[test]
fn control_dependencies_fan_out() {
    let defs = vec![op("A", "Const", &[]), op("B", "NoOp", &["^A"])];
    let mut g = Graph::new(&defs).unwrap();
    g.nodes[0].put_on_devices(&vec![0, 1]);
    g.nodes[1].put_on_devices(&vec![0]);
    let mut t = target2();
    g.compile(&mut t);
    assert_eq!(
        t.pb[2].input,
        vec![String::from("A/replica_0"), String::from("A/replica_1")]
    );
}

#[test]
fn resplit_four_to_two() {
    let raw = op("A", "Const", &[]);
    let tensor = tge::tensor::Tensor::new(0);
    let from = part(&[0, 1, 0, 1]);
    let to = part(&[0, 1]);
    let list: Vec<String> = (0..4).map(|i| format!("A/replica_{}:0", i)).collect();
    let mut t = target2();
    let refs = tensor.resplit(&raw, &list, &from, &to, &mut t);
    assert_eq!(refs.len(), 2);
    // gcd(4, 2) = 2: two concats and two splits, each with its constant
    assert_eq!(t.pb.len(), 8);
    let kinds: Vec<&str> = t.pb.iter().map(|n| n.op.as_str()).collect();
    assert_eq!(
        kinds,
        vec!["Const", "ConcatV2", "Const", "ConcatV2", "Const", "Split", "Const", "Split"]
    );
    assert_eq!(refs[0], "A/0_part_0_1/aux_resplit_0/split:0");
    assert_eq!(refs[1], "A/0_part_0_1/aux_resplit_1/split:0");
    assert_eq!(
        t.pb[1].input,
        vec![
            String::from("A/replica_0:0"),
            String::from("A/replica_1:0"),
            String::from("A/0_part_0_1/aux_resplit_0/concat_axis"),
        ]
    );
}

#[test]
fn sum_aggregation_single_addn() {
    let raw = op("A", "Const", &[]);
    let tensor = tge::tensor::Tensor::new(0);
    let from = part(&[0, 1]);
    let to = full(&[0]);
    let list = vec![String::from("A/replica_0:0"), String::from("A/replica_1:0")];
    let mut t = target2();
    let refs = tensor.aggregate_sum(&raw, &list, &from, &to, &mut t);
    assert_eq!(refs, vec![String::from("A/0_full_0/aux_sum")]);
    assert_eq!(t.pb.len(), 1);
    assert_eq!(t.pb[0].op, "AddN");
    assert_eq!(t.pb[0].input, list);
}

#[test]
fn nccl_all_reduce_shares_name() {
    let raw = op("A", "Const", &[]);
    let tensor = tge::tensor::Tensor::new(0);
    let from = part(&[0, 1]);
    let to = full(&[0, 1]);
    let list = vec![String::from("A/replica_0:0"), String::from("A/replica_1:0")];
    let mut t = target2();
    let refs = tensor.all_reduce_nccl(&raw, &list, &from, &to, &mut t);
    assert_eq!(refs.len(), 2);
    assert_eq!(t.pb.len(), 2);
    assert_eq!(t.pb[0].op, "NcclAllReduce");
    assert_eq!(t.pb[0].name, "A/0_full_0_1/aux_nccl_0");
    assert_eq!(t.pb[0].input, vec![String::from("A/replica_0:0")]);
    assert_eq!(t.pb[1].device, "/gpu:1");
    match lookup(&t.pb[0], "shared_name") {
        Some(AttrValue::Bytes(s)) => assert_eq!(s, "A"),
        other => panic!("missing shared_name: {:?}", other),
    }
}

#[test]
fn ring_all_reduce_two_devices() {
    let raw = op("A", "Const", &[]);
    let tensor = tge::tensor::Tensor::new(0);
    let from = part(&[0, 1]);
    let to = full(&[0, 1]);
    let list = vec![String::from("A/replica_0:0"), String::from("A/replica_1:0")];
    let mut t = target2();
    let refs = tensor.all_reduce_ring(&raw, &list, &from, &to, &mut t);
    assert_eq!(refs.len(), 2);
    assert_eq!(t.pb.len(), 2 * 2 * 2 + 6 * 2);
    assert_eq!(refs[0], "A/0_full_0_1/aux_ring/reshape_0");
    assert_eq!(refs[1], "A/0_full_0_1/aux_ring/reshape_1");
    let kinds: Vec<&str> = t.pb.iter().map(|n| n.op.as_str()).collect();
    assert_eq!(kinds.iter().filter(|k| **k == "Shape").count(), 2);
    assert_eq!(kinds.iter().filter(|k| **k == "Reshape").count(), 4);
    assert_eq!(kinds.iter().filter(|k| **k == "Add").count(), 2);
    assert_eq!(kinds.iter().filter(|k| **k == "Identity").count(), 2);
    assert_eq!(kinds.iter().filter(|k| **k == "ConcatV2").count(), 2);
}
