use witness::codec::{deserialize_graph, serialize_graph};
use witness::field::Uint256;
use witness::graph::{apply_op, apply_single_op, evaluate, Node, Operation};
use witness::opt::optimize;
use witness::{
    calculate_witness, fnv1a, get_input_mapping, get_inputs_buffer, get_inputs_size,
    get_inputs_size_rsa, init_graph, populate_inputs, Graph, HashSignalInfo, WitnessError,
};

fn u(x: u64) -> Uint256 {
    Uint256 { w0: x, w1: 0, w2: 0, w3: 0 }
}

fn p_minus(x: u64) -> Uint256 {
    // The modulus minus x, for small x.
    Uint256 {
        w0: 0x43e1f593f0000001 - x,
        w1: 0x2833e84879b97091,
        w2: 0xb85045b68181585d,
        w3: 0x30644e72e131a029,
    }
}

/// The graph a multiplier circuit captures: witness slots [1, a*b, a],
/// inputs a and b at buffer slots 1 and 2.
fn multiplier2_graph() -> Graph {
    let nodes = vec![
        Node::Constant(u(1)),
        Node::Input(1),
        Node::Input(2),
        Node::Op(Operation::Mul, 1, 2),
    ];
    let signals = vec![0, 3, 1];
    let input_mapping = vec![
        HashSignalInfo { hash: fnv1a("a"), signalid: 1, signalsize: 1 },
        HashSignalInfo { hash: fnv1a("b"), signalid: 2, signalsize: 1 },
    ];
    Graph { nodes, signals, input_mapping }
}

#[test]
fn test_multiplier2_calc_witness() {
    let graph = multiplier2_graph();
    let bytes = serialize_graph(&graph.nodes, &graph.signals, &graph.input_mapping);
    let loaded = init_graph(&bytes).unwrap();
    let inputs = vec![
        ("a".to_string(), vec![u(3)]),
        ("b".to_string(), vec![u(5)]),
    ];
    let w = calculate_witness(&inputs, &loaded).unwrap();
    assert_eq!(w, vec![u(1), u(15), u(3)]);
}

#[test]
fn test_iszero_calc_witness() {
    // An is-zero circuit: out = 1 - in * (in != 0 ? 1/in : 0).
    let nodes = vec![
        Node::Constant(u(1)),
        Node::Input(1),
        Node::Constant(u(0)),
        Node::Op(Operation::Neq, 1, 2),
        Node::Op(Operation::Div, 0, 1),
        Node::Select(3, 4, 2),
        Node::Op(Operation::Mul, 1, 5),
        Node::Op(Operation::Sub, 0, 6),
    ];
    let signals = vec![0, 7, 1];
    let input_mapping = vec![HashSignalInfo { hash: fnv1a("in"), signalid: 1, signalsize: 1 }];
    let graph = Graph { nodes, signals, input_mapping };
    let bytes = serialize_graph(&graph.nodes, &graph.signals, &graph.input_mapping);
    let loaded = init_graph(&bytes).unwrap();
    let inputs = vec![("in".to_string(), vec![u(2)])];
    let w = calculate_witness(&inputs, &loaded).unwrap();
    assert_eq!(w, vec![u(1), u(0), u(2)]);
}

#[test]
fn test_serialize_round_trip() {
    let graph = multiplier2_graph();
    let bytes = serialize_graph(&graph.nodes, &graph.signals, &graph.input_mapping);
    let (nodes, signals, infos) = deserialize_graph(&bytes).unwrap();
    assert_eq!(nodes, graph.nodes);
    assert_eq!(signals, graph.signals);
    assert_eq!(infos, graph.input_mapping);
}

#[test]
fn test_serialize_deterministic() {
    let graph = multiplier2_graph();
    let b1 = serialize_graph(&graph.nodes, &graph.signals, &graph.input_mapping);
    let b2 = serialize_graph(&graph.nodes, &graph.signals, &graph.input_mapping);
    assert_eq!(b1, b2);
}

#[test]
fn test_deserialize_rejects_truncated() {
    let graph = multiplier2_graph();
    let mut bytes = serialize_graph(&graph.nodes, &graph.signals, &graph.input_mapping);
    bytes.pop();
    assert_eq!(deserialize_graph(&bytes).unwrap_err(), WitnessError::Format);
    let short = vec![1u8, 2, 3];
    assert_eq!(deserialize_graph(&short).unwrap_err(), WitnessError::Format);
}

#[test]
fn test_deserialize_rejects_trailing() {
    let graph = multiplier2_graph();
    let mut bytes = serialize_graph(&graph.nodes, &graph.signals, &graph.input_mapping);
    bytes.push(0);
    assert_eq!(deserialize_graph(&bytes).unwrap_err(), WitnessError::Format);
}

#[test]
fn test_init_graph_rejects_backward_reference() {
    // A node whose operand handle is not strictly smaller than its own.
    let nodes = vec![Node::Constant(u(1)), Node::Op(Operation::Mul, 5, 0)];
    let signals = vec![0];
    let infos: Vec<HashSignalInfo> = Vec::new();
    let bytes = serialize_graph(&nodes, &signals, &infos);
    assert_eq!(init_graph(&bytes).unwrap_err(), WitnessError::Format);
}

#[test]
fn test_init_graph_rejects_signal_out_of_range() {
    let nodes = vec![Node::Constant(u(1))];
    let signals = vec![3];
    let infos: Vec<HashSignalInfo> = Vec::new();
    let bytes = serialize_graph(&nodes, &signals, &infos);
    assert_eq!(init_graph(&bytes).unwrap_err(), WitnessError::Format);
}

#[test]
fn test_evaluate_deterministic() {
    let graph = multiplier2_graph();
    let inputs = vec![u(1), u(3), u(5)];
    let w1 = evaluate(&graph.nodes, &inputs, &graph.signals).unwrap();
    let w2 = evaluate(&graph.nodes, &inputs, &graph.signals).unwrap();
    assert_eq!(w1, w2);
}

#[test]
fn test_optimize_prunes_and_preserves() {
    let mut nodes = vec![
        Node::Constant(u(1)),
        Node::Input(1),
        Node::Op(Operation::Mul, 0, 1),
        Node::Op(Operation::Add, 0, 1),
    ];
    let mut signals = vec![0, 2];
    let inputs = vec![u(1), u(9)];
    let before = evaluate(&nodes, &inputs, &signals).unwrap();
    optimize(&mut nodes, &mut signals);
    assert_eq!(nodes.len(), 3);
    let after = evaluate(&nodes, &inputs, &signals).unwrap();
    assert_eq!(before, after);
}

#[test]
fn test_field_wraparound() {
    // (P-1) * (P-1) mod P == 1.
    let pm1 = p_minus(1);
    assert_eq!(apply_op(Operation::Mul, &pm1, &pm1).unwrap(), u(1));
    // field_div(1, 1) == 1.
    assert_eq!(apply_op(Operation::Div, &u(1), &u(1)).unwrap(), u(1));
    // field_div(x, 0) fails for nonzero x.
    assert_eq!(
        apply_op(Operation::Div, &u(1), &u(0)).unwrap_err(),
        WitnessError::DivisionByZero
    );
    assert_eq!(
        apply_op(Operation::Div, &u(7), &u(0)).unwrap_err(),
        WitnessError::DivisionByZero
    );
    assert_eq!(
        apply_op(Operation::Div, &pm1, &u(0)).unwrap_err(),
        WitnessError::DivisionByZero
    );
}

#[test]
fn test_field_operations() {
    assert_eq!(apply_op(Operation::Add, &u(1), &u(2)).unwrap(), u(3));
    assert_eq!(apply_op(Operation::Add, &p_minus(1), &u(3)).unwrap(), u(2));
    assert_eq!(apply_op(Operation::Sub, &u(3), &u(5)).unwrap(), p_minus(2));
    assert_eq!(apply_op(Operation::Mul, &u(2), &u(3)).unwrap(), u(6));
    assert_eq!(apply_op(Operation::Div, &u(6), &u(2)).unwrap(), u(3));
    assert_eq!(apply_op(Operation::Pow, &u(2), &u(10)).unwrap(), u(1024));
    assert_eq!(apply_op(Operation::Idiv, &u(7), &u(2)).unwrap(), u(3));
    assert_eq!(apply_op(Operation::Mod, &u(7), &u(2)).unwrap(), u(1));
    assert_eq!(
        apply_op(Operation::Idiv, &u(7), &u(0)).unwrap_err(),
        WitnessError::DivisionByZero
    );
    assert_eq!(
        apply_op(Operation::Mod, &u(7), &u(0)).unwrap_err(),
        WitnessError::DivisionByZero
    );
}

#[test]
fn test_comparison_and_logic_operations() {
    assert_eq!(apply_op(Operation::Eq, &u(4), &u(4)).unwrap(), u(1));
    assert_eq!(apply_op(Operation::Eq, &u(4), &u(5)).unwrap(), u(0));
    assert_eq!(apply_op(Operation::Neq, &u(4), &u(5)).unwrap(), u(1));
    assert_eq!(apply_op(Operation::Lt, &u(4), &u(5)).unwrap(), u(1));
    assert_eq!(apply_op(Operation::Gt, &u(4), &u(5)).unwrap(), u(0));
    assert_eq!(apply_op(Operation::Leq, &u(5), &u(5)).unwrap(), u(1));
    assert_eq!(apply_op(Operation::Geq, &u(4), &u(5)).unwrap(), u(0));
    // Comparison acts on the integer representation, high words included.
    let big = Uint256 { w0: 0, w1: 0, w2: 0, w3: 1 };
    assert_eq!(apply_op(Operation::Lt, &u(5), &big).unwrap(), u(1));
    assert_eq!(apply_op(Operation::Land, &u(7), &u(1)).unwrap(), u(1));
    assert_eq!(apply_op(Operation::Land, &u(7), &u(0)).unwrap(), u(0));
    assert_eq!(apply_op(Operation::Lor, &u(0), &u(0)).unwrap(), u(0));
    assert_eq!(apply_op(Operation::Lor, &u(0), &u(2)).unwrap(), u(1));
}

#[test]
fn test_bitwise_and_shift_operations() {
    assert_eq!(apply_op(Operation::Band, &u(6), &u(3)).unwrap(), u(2));
    assert_eq!(apply_op(Operation::Bor, &u(6), &u(3)).unwrap(), u(7));
    assert_eq!(apply_op(Operation::Bxor, &u(6), &u(3)).unwrap(), u(5));
    assert_eq!(apply_op(Operation::Shl, &u(1), &u(4)).unwrap(), u(16));
    assert_eq!(apply_op(Operation::Shr, &u(16), &u(4)).unwrap(), u(1));
    // Shifting across a word boundary.
    assert_eq!(
        apply_op(Operation::Shl, &u(1), &u(64)).unwrap(),
        Uint256 { w0: 0, w1: 1, w2: 0, w3: 0 }
    );
    // A shift amount of 256 or more clears the value.
    assert_eq!(apply_op(Operation::Shr, &u(16), &u(256)).unwrap(), u(0));
    let not_zero = apply_single_op(Operation::Bnot, &u(0)).unwrap();
    assert_eq!(
        not_zero,
        Uint256 { w0: u64::MAX, w1: u64::MAX, w2: u64::MAX, w3: u64::MAX }
    );
    assert_eq!(apply_single_op(Operation::Neg, &u(5)).unwrap(), p_minus(5));
    assert_eq!(apply_single_op(Operation::Neg, &u(0)).unwrap(), u(0));
}

#[test]
fn test_fnv1a_known_value() {
    assert_eq!(fnv1a("a"), 0xaf63dc4c8601ec8c);
    assert_eq!(fnv1a(""), 0xcbf29ce484222325);
}

#[test]
fn test_get_inputs_size() {
    let graph = multiplier2_graph();
    assert_eq!(get_inputs_size(&graph), 3);
    assert_eq!(get_inputs_size_rsa(&graph), 97);
}

#[test]
fn test_get_inputs_buffer() {
    let buf = get_inputs_buffer(3);
    assert_eq!(buf, vec![u(1), u(0), u(0)]);
}

#[test]
fn test_get_input_mapping() {
    let graph = multiplier2_graph();
    let names = vec!["b".to_string(), "a".to_string()];
    let m = get_input_mapping(&names, &graph).unwrap();
    assert_eq!(m, vec![2, 1]);
    let missing = vec!["zz".to_string()];
    assert_eq!(
        get_input_mapping(&missing, &graph).unwrap_err(),
        WitnessError::UnknownInput
    );
}

#[test]
fn test_populate_inputs() {
    let mut buf = get_inputs_buffer(4);
    let list = vec![("a".to_string(), vec![u(7), u(8)])];
    let mapping = vec![1];
    populate_inputs(&list, &mapping, &mut buf).unwrap();
    assert_eq!(buf, vec![u(1), u(7), u(8), u(0)]);
    let bad_mapping = vec![3];
    assert_eq!(
        populate_inputs(&list, &bad_mapping, &mut buf).unwrap_err(),
        WitnessError::InputOutOfRange
    );
}

#[test]
fn test_calculate_witness_unknown_input() {
    let graph = multiplier2_graph();
    let inputs = vec![("zz".to_string(), vec![u(3)])];
    assert_eq!(
        calculate_witness(&inputs, &graph).unwrap_err(),
        WitnessError::UnknownInput
    );
}

#[test]
fn test_calculate_witness_input_out_of_range() {
    let mut graph = multiplier2_graph();
    graph.input_mapping[0].signalid = 100;
    let inputs = vec![
        ("a".to_string(), vec![u(3)]),
        ("b".to_string(), vec![u(5)]),
    ];
    assert_eq!(
        calculate_witness(&inputs, &graph).unwrap_err(),
        WitnessError::InputOutOfRange
    );
}

#[test]
fn test_evaluate_division_by_zero() {
    let nodes = vec![
        Node::Constant(u(1)),
        Node::Input(1),
        Node::Op(Operation::Div, 0, 1),
    ];
    let signals = vec![2];
    let inputs = vec![u(1), u(0)];
    assert_eq!(
        evaluate(&nodes, &inputs, &signals).unwrap_err(),
        WitnessError::DivisionByZero
    );
}

#[test]
fn test_evaluate_input_out_of_range() {
    let nodes = vec![Node::Input(9)];
    let signals = vec![0];
    let inputs = vec![u(1)];
    assert_eq!(
        evaluate(&nodes, &inputs, &signals).unwrap_err(),
        WitnessError::InputOutOfRange
    );
}

#[test]
fn test_bytes_to_circuit_inputs() {
    // 't' is 116 = 0b01110100: bits least significant first.
    let inputs = witness::bytes_to_circuit_inputs(&vec![116u8]);
    assert_eq!(inputs.len(), 1);
    assert_eq!(inputs[0].0, "in");
    let bits: Vec<u64> = inputs[0].1.iter().map(|v| v.w0).collect();
    assert_eq!(bits, vec![0, 0, 1, 0, 1, 1, 1, 0]);
}
