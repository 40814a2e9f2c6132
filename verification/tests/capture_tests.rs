use witness::field::Uint256;
use witness::generate::{get_constants, get_input_hash_map, get_witness_to_signal};
use witness::graph::{evaluate, Node, Operation};
use witness::trace::{create_vec, create_vec_u32, project_signals, undefined, FrElement, TraceStore};
use witness::WitnessError;

fn u(x: u64) -> Uint256 {
    Uint256 { w0: x, w1: 0, w2: 0, w3: 0 }
}

fn p_minus(x: u64) -> Uint256 {
    Uint256 {
        w0: 0x43e1f593f0000001 - x,
        w1: 0x2833e84879b97091,
        w2: 0xb85045b68181585d,
        w3: 0x30644e72e131a029,
    }
}

#[test]
fn test_capture_constant_folding() {
    let mut s = TraceStore::new();
    let a = s.constant(u(3));
    let b = s.constant(u(5));
    let c = s.Fr_mul(a, b).unwrap();
    // The product of two constants is folded and flagged constant.
    assert_eq!(s.get_values()[c.0], u(15));
    assert_eq!(s.Fr_toInt(c), 15);
    let g = s.get_graph();
    assert_eq!(g[c.0], Node::Op(Operation::Mul, a.0, b.0));
}

#[test]
fn test_capture_fold_division_by_zero() {
    let mut s = TraceStore::new();
    let a = s.constant(u(3));
    let z = s.constant(u(0));
    assert_eq!(s.Fr_div(a, z).unwrap_err(), WitnessError::DivisionByZero);
    // The failed fold appends nothing.
    assert_eq!(s.get_graph().len(), 2);
}

#[test]
fn test_capture_dynamic_value_not_folded() {
    let mut s = TraceStore::new();
    let a = s.constant(u(3));
    let i = s.input(1, u(4));
    let c = s.Fr_add(a, i).unwrap();
    // A node with a dynamic operand caches zero and stays dynamic.
    assert_eq!(s.get_values()[c.0], u(0));
    let g = s.get_graph();
    let values = evaluate(&g, &vec![u(1), u(4)], &vec![c.0]).unwrap();
    assert_eq!(values, vec![u(7)]);
}

#[test]
fn test_capture_select_protocol() {
    let mut s = TraceStore::new();
    let one = s.constant(u(1));
    let cond = s.input(1, u(0));
    let tv = s.constant(u(10));
    let fv = s.constant(u(20));
    // The predicate is dynamic: querying it arms the branch bookkeeping.
    let taken = s.Fr_isTrue(cond).unwrap();
    assert!(!taken);
    // Both paths run; each ends in a merge call. The second emits the
    // select node.
    let first = s.Fr_copy(undefined(), tv);
    assert_eq!(first, tv);
    let merged = s.Fr_copy(first, fv);
    let g = s.get_graph();
    assert_eq!(g[merged.0], Node::Select(cond.0, tv.0, fv.0));
    // Replaying the captured log picks a path by the live predicate value.
    let w_true = evaluate(&g, &vec![u(1), u(1)], &vec![merged.0]).unwrap();
    assert_eq!(w_true, vec![u(10)]);
    let w_false = evaluate(&g, &vec![u(1), u(0)], &vec![merged.0]).unwrap();
    assert_eq!(w_false, vec![u(20)]);
    let _ = one;
}

#[test]
fn test_capture_nested_branch_unsupported() {
    let mut s = TraceStore::new();
    let c1 = s.input(1, u(1));
    let c2 = s.input(2, u(0));
    s.Fr_isTrue(c1).unwrap();
    assert_eq!(s.Fr_isTrue(c2).unwrap_err(), WitnessError::UnsupportedBranch);
}

#[test]
fn test_capture_is_true_constant() {
    let mut s = TraceStore::new();
    let z = s.constant(u(0));
    let nz = s.constant(u(2));
    assert!(!s.Fr_isTrue(z).unwrap());
    assert!(s.Fr_isTrue(nz).unwrap());
    // Constant predicates never arm the branch bookkeeping.
    let copied = s.Fr_copy(undefined(), nz);
    assert_eq!(copied, nz);
}

#[test]
fn test_capture_to_int_overflow_defaults_to_zero() {
    let mut s = TraceStore::new();
    let big = s.constant(Uint256 { w0: 1, w1: 1, w2: 0, w3: 0 });
    assert_eq!(s.Fr_toInt(big), 0);
}

#[test]
fn test_capture_unary_operations() {
    let mut s = TraceStore::new();
    let a = s.constant(u(5));
    let n = s.Fr_neg(a);
    assert_eq!(s.get_values()[n.0], p_minus(5));
    let z = s.constant(u(0));
    let nz = s.Fr_bnot(z);
    assert_eq!(
        s.get_values()[nz.0],
        Uint256 { w0: u64::MAX, w1: u64::MAX, w2: u64::MAX, w3: u64::MAX }
    );
}

#[test]
fn test_create_vec_helpers() {
    let v = create_vec(3);
    assert_eq!(v.len(), 3);
    assert_eq!(v[0], FrElement(usize::MAX));
    assert_eq!(v[2], undefined());
    let w = create_vec_u32(4);
    assert_eq!(w, vec![0u32, 0, 0, 0]);
}

#[test]
fn test_get_input_hash_map() {
    let mut bytes: Vec<u8> = Vec::new();
    for v in [1u64, 2, 3, 4, 5, 6] {
        bytes.extend_from_slice(&v.to_le_bytes());
    }
    let infos = get_input_hash_map(&bytes, 2).unwrap();
    assert_eq!(infos.len(), 2);
    assert_eq!(infos[0].hash, 1);
    assert_eq!(infos[0].signalid, 2);
    assert_eq!(infos[0].signalsize, 3);
    assert_eq!(infos[1].hash, 4);
    assert_eq!(
        get_input_hash_map(&bytes, 3).unwrap_err(),
        WitnessError::Format
    );
}

#[test]
fn test_get_witness_to_signal() {
    let mut bytes: Vec<u8> = vec![0xAA; 8];
    bytes.extend_from_slice(&7u64.to_le_bytes());
    bytes.extend_from_slice(&9u64.to_le_bytes());
    let sigs = get_witness_to_signal(&bytes, 8, 2).unwrap();
    assert_eq!(sigs, vec![7, 9]);
    assert_eq!(
        get_witness_to_signal(&bytes, 8, 3).unwrap_err(),
        WitnessError::Format
    );
}

#[test]
fn test_get_constants_small_values() {
    // Two direct entries: 7 and -5.
    let mut bytes: Vec<u8> = Vec::new();
    bytes.extend_from_slice(&7i32.to_le_bytes());
    bytes.extend_from_slice(&0u32.to_le_bytes());
    bytes.extend_from_slice(&[0u8; 32]);
    bytes.extend_from_slice(&(-5i32).to_le_bytes());
    bytes.extend_from_slice(&0u32.to_le_bytes());
    bytes.extend_from_slice(&[0u8; 32]);
    let mut s = TraceStore::new();
    let handles = get_constants(&bytes, 0, 2, &mut s).unwrap();
    assert_eq!(handles.len(), 2);
    assert_eq!(s.get_values()[handles[0].0], u(7));
    assert_eq!(s.get_values()[handles[1].0], p_minus(5));
}

#[test]
fn test_get_constants_montgomery() {
    // A Montgomery-form entry holding 2^256 mod P decodes to one.
    let mut bytes: Vec<u8> = Vec::new();
    bytes.extend_from_slice(&0i32.to_le_bytes());
    bytes.extend_from_slice(&0x80000000u32.to_le_bytes());
    for w in [
        0xac96341c4ffffffbu64,
        0x36fc76959f60cd29,
        0x666ea36f7879462e,
        0x0e0a77c19a07df2f,
    ] {
        bytes.extend_from_slice(&w.to_le_bytes());
    }
    let mut s = TraceStore::new();
    let handles = get_constants(&bytes, 0, 1, &mut s).unwrap();
    assert_eq!(s.get_values()[handles[0].0], u(1));
    // A truncated pool is rejected.
    let mut s2 = TraceStore::new();
    assert_eq!(
        get_constants(&bytes, 0, 2, &mut s2).unwrap_err(),
        WitnessError::Format
    );
}

#[test]
fn test_get_iosignals() {
    // Two templates: index 1 with one two-dimension signal description,
    // index 0 with an empty list.
    let mut bytes: Vec<u8> = Vec::new();
    bytes.extend_from_slice(&1u32.to_le_bytes());
    bytes.extend_from_slice(&0u32.to_le_bytes());
    // List for index 1: one description at offset 9 with one extra length.
    bytes.extend_from_slice(&1u32.to_le_bytes());
    bytes.extend_from_slice(&9u32.to_le_bytes());
    bytes.extend_from_slice(&1u32.to_le_bytes());
    bytes.extend_from_slice(&4u32.to_le_bytes());
    // List for index 0: empty.
    bytes.extend_from_slice(&0u32.to_le_bytes());
    let map = witness::generate::get_iosignals(&bytes, 0, 2, 3).unwrap();
    assert_eq!(map.len(), 3);
    assert_eq!(map[1].defs.len(), 1);
    assert_eq!(map[1].defs[0].code, 0);
    assert_eq!(map[1].defs[0].offset, 9);
    assert_eq!(map[1].defs[0].lengths, vec![0, 4]);
    assert_eq!(map[0].defs.len(), 0);
    assert_eq!(map[2].defs.len(), 0);
    // The empty block yields the empty map.
    let none = witness::generate::get_iosignals(&bytes, 0, 0, 3).unwrap();
    assert_eq!(none.len(), 0);
    // A truncated block is rejected.
    assert_eq!(
        witness::generate::get_iosignals(&bytes, 0, 3, 3).unwrap_err(),
        WitnessError::Format
    );
}

#[test]
fn test_generate_position_array() {
    let pos = witness::trace::generate_position_array(
        "x".to_string(),
        vec![3, 4],
        2,
        7,
    );
    // 7 under dimensions [3, 4]: 7 % 4 = 3, then 1 % 3 = 1.
    assert_eq!(pos, "[1][3]x");
    let single = witness::trace::generate_position_array("".to_string(), vec![10], 1, 205 % 10);
    assert_eq!(single, "[5]");
    let multi_digit = witness::trace::generate_position_array("".to_string(), vec![1000], 1, 123);
    assert_eq!(multi_digit, "[123]");
}

#[test]
fn test_project_signals() {
    let handles = vec![FrElement(4), FrElement(7), FrElement(9)];
    let projected = project_signals(&vec![2, 0], &handles).unwrap();
    assert_eq!(projected, vec![9, 4]);
    assert_eq!(
        project_signals(&vec![3], &handles).unwrap_err(),
        WitnessError::InputOutOfRange
    );
}

#[test]
fn test_capture_to_replay_pipeline() {
    // Capture a multiplier the way a circuit driver would, then prune,
    // persist, reload and replay it.
    let mut s = TraceStore::new();
    let one = s.constant(u(1));
    let a = s.input(1, u(0));
    let b = s.input(2, u(0));
    let unused = s.Fr_add(a, b).unwrap();
    let c = s.Fr_mul(a, b).unwrap();
    let _ = unused;
    let handles = vec![one, c, a];
    let mut nodes = s.get_graph();
    let mut signals = project_signals(&vec![0, 1, 2], &handles).unwrap();
    witness::opt::optimize(&mut nodes, &mut signals);
    // The unused sum is pruned.
    assert_eq!(nodes.len(), 4);
    let input_mapping = vec![
        witness::HashSignalInfo { hash: witness::fnv1a("a"), signalid: 1, signalsize: 1 },
        witness::HashSignalInfo { hash: witness::fnv1a("b"), signalid: 2, signalsize: 1 },
    ];
    let bytes = witness::codec::serialize_graph(&nodes, &signals, &input_mapping);
    let graph = witness::init_graph(&bytes).unwrap();
    let inputs = vec![
        ("a".to_string(), vec![u(3)]),
        ("b".to_string(), vec![u(5)]),
    ];
    let w = witness::calculate_witness(&inputs, &graph).unwrap();
    assert_eq!(w, vec![u(1), u(15), u(3)]);
}

#[test]
fn test_calculate_witness_rsa_sizing() {
    // The fixed sizing allocates a 97-slot buffer whatever the graph says.
    let nodes = vec![
        Node::Constant(u(1)),
        Node::Input(1),
        Node::Input(96),
        Node::Op(Operation::Add, 1, 2),
    ];
    let signals = vec![0, 3];
    let input_mapping = vec![
        witness::HashSignalInfo { hash: witness::fnv1a("x"), signalid: 1, signalsize: 1 },
        witness::HashSignalInfo { hash: witness::fnv1a("y"), signalid: 96, signalsize: 1 },
    ];
    let graph = witness::Graph { nodes, signals, input_mapping };
    let inputs = vec![
        ("x".to_string(), vec![u(20)]),
        ("y".to_string(), vec![u(22)]),
    ];
    let w = witness::calculate_witness_rsa(&inputs, &graph).unwrap();
    assert_eq!(w, vec![u(1), u(42)]);
}
