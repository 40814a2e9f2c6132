//! Graph data model and the replay evaluator: nodes, operations, their
//! mathematical value semantics, and a single forward pass computing a full
//! witness from an input buffer.

use vstd::prelude::*;
use vstd::calc;

use crate::WitnessError;
use crate::field::{
    Uint256, is_inverse, modulus, nat_to_u256, p_nat, pow2_256, pow_nat, lemma_u256_canonical,
    lemma_u256_nat_injective, u256_add_mod, u256_band, u256_band_spec, u256_bnot, u256_bnot_spec,
    u256_bor, u256_bor_spec, u256_bxor, u256_bxor_spec, u256_checked_div, u256_checked_rem,
    u256_inv_mod, u256_is_zero, u256_lt, u256_mul_mod, u256_nat, u256_one, u256_pow_mod,
    u256_shl, u256_shr, u256_sub, u256_zero,
};

verus! {

/// The closed set of primitive operations a captured circuit uses.
#[derive(Clone, Copy, Debug, PartialEq, Eq, Structural)]
pub enum Operation {
    Mul,
    Div,
    Add,
    Sub,
    Pow,
    Idiv,
    Mod,
    Eq,
    Neq,
    Lt,
    Gt,
    Leq,
    Geq,
    Land,
    Lor,
    Shl,
    Shr,
    Band,
    Bor,
    Bxor,
    Neg,
    Bnot,
}

/// One entry of the node log. Operand fields are handles: indices of earlier
/// entries.
#[derive(Clone, Copy, Debug, PartialEq, Eq, Structural)]
pub enum Node {
    Constant(Uint256),
    Input(usize),
    Op(Operation, usize, usize),
    SingleOp(Operation, usize),
    Select(usize, usize, usize),
}

pub open spec fn is_binary_op(op: Operation) -> bool {
    !(op is Neg || op is Bnot)
}

pub open spec fn is_unary_op(op: Operation) -> bool {
    op is Neg || op is Bnot
}

/// The negated residue: p - (x mod p), reduced into [0, p).
pub open spec fn neg_mod_p(x: nat) -> nat {
    ((p_nat() - (x % p_nat())) % (p_nat() as int)) as nat
}

pub open spec fn bool_u256(b: bool) -> Uint256 {
    if b {
        nat_to_u256(1)
    } else {
        nat_to_u256(0)
    }
}

/// The value of a binary operation, or None for a division-family operation
/// whose divisor has no meaning (zero, or a field divisor with no inverse).
pub open spec fn op_value(op: Operation, av: Uint256, bv: Uint256) -> Option<Uint256> {
    let x = u256_nat(av);
    let y = u256_nat(bv);
    match op {
        Operation::Add => Some(nat_to_u256((x + y) % p_nat())),
        Operation::Sub => Some(nat_to_u256((((x - y) % (p_nat() as int))) as nat)),
        Operation::Mul => Some(nat_to_u256((x * y) % p_nat())),
        Operation::Div => if exists|i: nat| is_inverse(y, i, p_nat()) {
            Some(nat_to_u256((x * choose|i: nat| is_inverse(y, i, p_nat())) % p_nat()))
        } else {
            None
        },
        Operation::Pow => Some(nat_to_u256(pow_nat(x, y) % p_nat())),
        Operation::Idiv => if y == 0 {
            None
        } else {
            Some(nat_to_u256(x / y))
        },
        Operation::Mod => if y == 0 {
            None
        } else {
            Some(nat_to_u256(x % y))
        },
        Operation::Eq => Some(bool_u256(x == y)),
        Operation::Neq => Some(bool_u256(x != y)),
        Operation::Lt => Some(bool_u256(x < y)),
        Operation::Gt => Some(bool_u256(x > y)),
        Operation::Leq => Some(bool_u256(x <= y)),
        Operation::Geq => Some(bool_u256(x >= y)),
        Operation::Land => Some(bool_u256(x != 0 && y != 0)),
        Operation::Lor => Some(bool_u256(x != 0 || y != 0)),
        Operation::Shl => if y >= 256 {
            Some(nat_to_u256(0))
        } else {
            Some(nat_to_u256((x * pow_nat(2, y)) % pow2_256()))
        },
        Operation::Shr => if y >= 256 {
            Some(nat_to_u256(0))
        } else {
            Some(nat_to_u256(x / pow_nat(2, y)))
        },
        Operation::Band => Some(u256_band_spec(av, bv)),
        Operation::Bor => Some(u256_bor_spec(av, bv)),
        Operation::Bxor => Some(u256_bxor_spec(av, bv)),
        Operation::Neg => None,
        Operation::Bnot => None,
    }
}

/// The value of a unary operation.
pub open spec fn single_op_value(op: Operation, av: Uint256) -> Option<Uint256> {
    let x = u256_nat(av);
    match op {
        Operation::Neg => Some(nat_to_u256(neg_mod_p(x))),
        Operation::Bnot => Some(u256_bnot_spec(av)),
        _ => None,
    }
}

/// Shape of one node at position i: operation arity is respected and every
/// operand handle points strictly earlier in the log.
pub open spec fn node_wf(n: Node, i: int) -> bool {
    match n {
        Node::Constant(_) => true,
        Node::Input(_) => true,
        Node::Op(op, a, b) => is_binary_op(op) && a < i && b < i,
        Node::SingleOp(op, a) => is_unary_op(op) && a < i,
        Node::Select(c, t, f) => c < i && t < i && f < i,
    }
}

/// The forward-reference invariant over a whole node log.
pub open spec fn nodes_wf(nodes: Seq<Node>) -> bool {
    forall|i: int| 0 <= i < nodes.len() ==> node_wf(#[trigger] nodes[i], i)
}

/// The value of the node at handle i, replayed against an input buffer; None
/// where a division-family operation fails or an input handle escapes the
/// buffer.
pub open spec fn val_at(nodes: Seq<Node>, inputs: Seq<Uint256>, i: int) -> Option<Uint256>
    decreases i,
{
    if i < 0 || i >= nodes.len() {
        None
    } else {
        match nodes[i] {
            Node::Constant(c) => Some(c),
            Node::Input(j) => if j < inputs.len() {
                Some(inputs[j as int])
            } else {
                None
            },
            Node::Op(op, a, b) => if a < i && b < i {
                match (val_at(nodes, inputs, a as int), val_at(nodes, inputs, b as int)) {
                    (Some(x), Some(y)) => op_value(op, x, y),
                    _ => None,
                }
            } else {
                None
            },
            Node::SingleOp(op, a) => if a < i {
                match val_at(nodes, inputs, a as int) {
                    Some(x) => single_op_value(op, x),
                    None => None,
                }
            } else {
                None
            },
            Node::Select(c, t, f) => if c < i && t < i && f < i {
                match (
                    val_at(nodes, inputs, c as int),
                    val_at(nodes, inputs, t as int),
                    val_at(nodes, inputs, f as int),
                ) {
                    (Some(cv), Some(tv), Some(fv)) => Some(
                        if u256_nat(cv) != 0 {
                            tv
                        } else {
                            fv
                        },
                    ),
                    _ => None,
                }
            } else {
                None
            },
        }
    }
}

/// The error class a failing node surfaces.
pub open spec fn err_kind(n: Node) -> WitnessError {
    match n {
        Node::Input(_) => WitnessError::InputOutOfRange,
        _ => WitnessError::DivisionByZero,
    }
}

/// The error of the first node among the first n whose value is undefined,
/// if any.
pub open spec fn first_err(nodes: Seq<Node>, inputs: Seq<Uint256>, n: int) -> Option<WitnessError>
    decreases n,
{
    if n <= 0 {
        None
    } else {
        match first_err(nodes, inputs, n - 1) {
            Some(e) => Some(e),
            None => if val_at(nodes, inputs, n - 1) is None {
                Some(err_kind(nodes[n - 1]))
            } else {
                None
            },
        }
    }
}

/// When no node fails, every node among the first n has a value.
pub proof fn lemma_first_err_none(nodes: Seq<Node>, inputs: Seq<Uint256>, n: int)
    requires
        first_err(nodes, inputs, n) is None,
    ensures
        forall|j: int| 0 <= j < n ==> val_at(nodes, inputs, j) is Some,
    decreases n,
{
    if n > 0 {
        lemma_first_err_none(nodes, inputs, n - 1);
    }
}

/// Once a node fails, the first error stays fixed for every longer prefix.
pub proof fn lemma_first_err_frozen(nodes: Seq<Node>, inputs: Seq<Uint256>, i: int, n: int)
    requires
        0 <= i < nodes.len(),
        first_err(nodes, inputs, i) is None,
        val_at(nodes, inputs, i) is None,
        i < n,
    ensures
        first_err(nodes, inputs, n) == Some(err_kind(nodes[i])),
    decreases n,
{
    if n - 1 > i {
        lemma_first_err_frozen(nodes, inputs, i, n - 1);
    }
}

/// The full witness a graph computes, assuming every node has a value.
pub open spec fn witness_of(nodes: Seq<Node>, inputs: Seq<Uint256>, signals: Seq<usize>) -> Seq<
    Uint256,
> {
    Seq::new(signals.len(), |k: int| val_at(nodes, inputs, signals[k] as int)->0)
}

/// What the evaluator returns: the first undefined node's error, or the
/// witness projected onto the signal list.
pub open spec fn evaluate_post(
    nodes: Seq<Node>,
    inputs: Seq<Uint256>,
    signals: Seq<usize>,
    r: Result<Vec<Uint256>, WitnessError>,
) -> bool {
    match first_err(nodes, inputs, nodes.len() as int) {
        Some(e) => r is Err && r->Err_0 == e,
        None => r is Ok && (r->Ok_0)@ == witness_of(nodes, inputs, signals),
    }
}

/// Determinism: any two results the evaluator's contract admits for one
/// graph and one input buffer are identical, outcome for outcome.
pub proof fn lemma_evaluate_deterministic(
    nodes: Seq<Node>,
    inputs: Seq<Uint256>,
    signals: Seq<usize>,
    r1: Result<Vec<Uint256>, WitnessError>,
    r2: Result<Vec<Uint256>, WitnessError>,
)
    requires
        evaluate_post(nodes, inputs, signals, r1),
        evaluate_post(nodes, inputs, signals, r2),
    ensures
        r1 is Ok <==> r2 is Ok,
        r1 is Ok ==> (r1->Ok_0)@ == (r2->Ok_0)@,
        r1 is Err ==> r1->Err_0 == r2->Err_0,
{
}

/// Applies a binary operation to two operand values.
pub fn apply_op(op: Operation, a: &Uint256, b: &Uint256) -> (r: Result<Uint256, WitnessError>)
    requires
        is_binary_op(op),
    ensures
        match op_value(op, *a, *b) {
            Some(v) => r == Ok::<Uint256, WitnessError>(v),
            None => r == Err::<Uint256, WitnessError>(WitnessError::DivisionByZero),
        },
{
    proof {
        lemma_u256_canonical(*a);
        lemma_u256_canonical(*b);
    }
    let m = modulus();
    match op {
        Operation::Add => {
            let v = u256_add_mod(a, b, &m);
            proof {
                lemma_u256_canonical(v);
            }
            Ok(v)
        },
        Operation::Sub => {
            let v = field_sub(a, b);
            proof {
                lemma_u256_canonical(v);
            }
            Ok(v)
        },
        Operation::Mul => {
            let v = u256_mul_mod(a, b, &m);
            proof {
                lemma_u256_canonical(v);
            }
            Ok(v)
        },
        Operation::Div => {
            match u256_inv_mod(b, &m) {
                Some(binv) => {
                    let v = u256_mul_mod(a, &binv, &m);
                    proof {
                        lemma_u256_canonical(v);
                        let y = u256_nat(*b);
                        let w = choose|i: nat| is_inverse(y, i, p_nat());
                        lemma_inverse_unique(y, u256_nat(binv), w, p_nat());
                    }
                    Ok(v)
                },
                None => Err(WitnessError::DivisionByZero),
            }
        },
        Operation::Pow => {
            let v = u256_pow_mod(a, b, &m);
            proof {
                lemma_u256_canonical(v);
            }
            Ok(v)
        },
        Operation::Idiv => {
            match u256_checked_div(a, b) {
                Some(v) => {
                    proof {
                        lemma_u256_canonical(v);
                    }
                    Ok(v)
                },
                None => Err(WitnessError::DivisionByZero),
            }
        },
        Operation::Mod => {
            match u256_checked_rem(a, b) {
                Some(v) => {
                    proof {
                        lemma_u256_canonical(v);
                    }
                    Ok(v)
                },
                None => Err(WitnessError::DivisionByZero),
            }
        },
        Operation::Eq => Ok(bool_elem(u256_equal(a, b))),
        Operation::Neq => Ok(bool_elem(!u256_equal(a, b))),
        Operation::Lt => Ok(bool_elem(u256_lt(a, b))),
        Operation::Gt => Ok(bool_elem(u256_lt(b, a))),
        Operation::Leq => Ok(bool_elem(!u256_lt(b, a))),
        Operation::Geq => Ok(bool_elem(!u256_lt(a, b))),
        Operation::Land => Ok(bool_elem(!u256_is_zero(a) && !u256_is_zero(b))),
        Operation::Lor => Ok(bool_elem(!u256_is_zero(a) || !u256_is_zero(b))),
        Operation::Shl => {
            if b.w1 != 0 || b.w2 != 0 || b.w3 != 0 || b.w0 >= 256 {
                proof {
                    lemma_zero_canonical();
                }
                Ok(u256_zero())
            } else {
                let v = u256_shl(a, b.w0);
                proof {
                    lemma_u256_canonical(v);
                }
                Ok(v)
            }
        },
        Operation::Shr => {
            if b.w1 != 0 || b.w2 != 0 || b.w3 != 0 || b.w0 >= 256 {
                proof {
                    lemma_zero_canonical();
                }
                Ok(u256_zero())
            } else {
                let v = u256_shr(a, b.w0);
                proof {
                    lemma_u256_canonical(v);
                }
                Ok(v)
            }
        },
        Operation::Band => Ok(u256_band(a, b)),
        Operation::Bor => Ok(u256_bor(a, b)),
        Operation::Bxor => Ok(u256_bxor(a, b)),
        Operation::Neg => Err(WitnessError::DivisionByZero),
        Operation::Bnot => Err(WitnessError::DivisionByZero),
    }
}

/// Applies a unary operation to its operand value.
pub fn apply_single_op(op: Operation, a: &Uint256) -> (r: Result<Uint256, WitnessError>)
    requires
        is_unary_op(op),
    ensures
        match single_op_value(op, *a) {
            Some(v) => r == Ok::<Uint256, WitnessError>(v),
            None => false,
        },
{
    match op {
        Operation::Neg => {
            let v = field_neg(a);
            proof {
                lemma_u256_canonical(v);
            }
            Ok(v)
        },
        Operation::Bnot => Ok(u256_bnot(a)),
        _ => Err(WitnessError::DivisionByZero),
    }
}

fn bool_elem(b: bool) -> (r: Uint256)
    ensures
        r == bool_u256(b),
{
    proof {
        lemma_zero_canonical();
        lemma_one_canonical();
    }
    if b {
        u256_one()
    } else {
        u256_zero()
    }
}

proof fn lemma_zero_canonical()
    ensures
        nat_to_u256(0) == (Uint256 { w0: 0, w1: 0, w2: 0, w3: 0 }),
{
    lemma_u256_canonical(Uint256 { w0: 0, w1: 0, w2: 0, w3: 0 });
}

proof fn lemma_one_canonical()
    ensures
        nat_to_u256(1) == (Uint256 { w0: 1, w1: 0, w2: 0, w3: 0 }),
{
    lemma_u256_canonical(Uint256 { w0: 1, w1: 0, w2: 0, w3: 0 });
}

fn u256_equal(a: &Uint256, b: &Uint256) -> (r: bool)
    ensures
        r == (u256_nat(*a) == u256_nat(*b)),
{
    proof {
        lemma_u256_nat_injective(*a, *b);
    }
    a.w0 == b.w0 && a.w1 == b.w1 && a.w2 == b.w2 && a.w3 == b.w3
}

/// Field subtraction: the difference reduced into [0, p).
fn field_sub(a: &Uint256, b: &Uint256) -> (r: Uint256)
    ensures
        u256_nat(r) == ((u256_nat(*a) - u256_nat(*b)) % (p_nat() as int)) as nat,
{
    let m = modulus();
    let neg_b = field_neg(b);
    let r = u256_add_mod(a, &neg_b, &m);
    proof {
        let x = u256_nat(*a) as int;
        let y = u256_nat(*b) as int;
        let p = p_nat() as int;
        lemma_mod_sub_to_add_neg(x, y, p);
    }
    r
}

/// Field negation: p - (x mod p), reduced.
fn field_neg(a: &Uint256) -> (r: Uint256)
    ensures
        u256_nat(r) == neg_mod_p(u256_nat(*a)),
{
    let m = modulus();
    let rem = match u256_checked_rem(a, &m) {
        Some(v) => v,
        None => u256_zero(),  // unreachable: the modulus is nonzero
    };
    let r = if u256_is_zero(&rem) {
        u256_zero()
    } else {
        u256_sub(&m, &rem)
    };
    proof {
        let x = u256_nat(*a);
        let p = p_nat();
        if x % p == 0 {
            vstd::arithmetic::div_mod::lemma_mod_self_0(p as int);
        } else {
            vstd::arithmetic::div_mod::lemma_small_mod((p - (x % p)) as nat, p);
        }
    }
    r
}

/// Adding the negated residue is subtraction, modulo p.
proof fn lemma_mod_sub_to_add_neg(x: int, y: int, p: int)
    requires
        p > 1,
        x >= 0,
        y >= 0,
    ensures
        (x + ((p - (y % p)) % p)) % p == (x - y) % p,
{
    let yr = y % p;
    vstd::arithmetic::div_mod::lemma_mod_bound(y, p);
    if yr == 0 {
        vstd::arithmetic::div_mod::lemma_mod_self_0(p);
        // x - y differs from x by a multiple of p.
        vstd::arithmetic::div_mod::lemma_sub_mod_noop_right(x, y, p);
        assert((x - y) % p == (x - yr) % p);
    } else {
        vstd::arithmetic::div_mod::lemma_small_mod((p - yr) as nat, p as nat);
        vstd::arithmetic::div_mod::lemma_sub_mod_noop_right(x, y, p);
        assert((x - y) % p == (x - yr) % p);
        vstd::arithmetic::div_mod::lemma_mod_add_multiples_vanish(x - yr, p);
        assert((x - yr) % p == (x - yr + p) % p);
    }
}

/// A modular inverse is unique below the modulus.
proof fn lemma_inverse_unique(y: nat, x1: nat, x2: nat, p: nat)
    requires
        p > 1,
        is_inverse(y, x1, p),
        is_inverse(y, x2, p),
    ensures
        x1 == x2,
{
    let pi = p as int;
    // x1 == x1 * (y * x2) % p
    calc! {
        (==)
        x1 as int; {
            vstd::arithmetic::div_mod::lemma_small_mod(x1, p);
        }
        (x1 as int) % pi; {}
        ((x1 as int) * 1) % pi; {
            vstd::arithmetic::div_mod::lemma_mul_mod_noop_right(
                x1 as int,
                (y * x2) as int,
                pi,
            );
            assert(((y * x2) as int) % pi == 1);
        }
        ((x1 as int) * ((y * x2) as int)) % pi; {
            vstd::arithmetic::mul::lemma_mul_is_associative(x1 as int, y as int, x2 as int);
            vstd::arithmetic::mul::lemma_mul_is_commutative(x1 as int, y as int);
        }
        (((y * x1) as int) * (x2 as int)) % pi; {
            vstd::arithmetic::div_mod::lemma_mul_mod_noop_left(
                (y * x1) as int,
                x2 as int,
                pi,
            );
            assert(((y * x1) as int) % pi == 1);
        }
        (1 * (x2 as int)) % pi; {
            vstd::arithmetic::div_mod::lemma_small_mod(x2, p);
        }
        x2 as int;
    }
}

/// Computes the value of the node at position i from the already-computed
/// values of earlier nodes.
#[verifier::rlimit(100)]
fn eval_node(nodes: &Vec<Node>, inputs: &Vec<Uint256>, values: &Vec<Uint256>, i: usize) -> (r:
    Result<Uint256, WitnessError>)
    requires
        i < nodes@.len(),
        node_wf(nodes@[i as int], i as int),
        values@.len() == i,
        forall|j: int| 0 <= j < i ==> Some(#[trigger] values@[j]) == val_at(nodes@, inputs@, j),
    ensures
        match r {
            Ok(v) => val_at(nodes@, inputs@, i as int) == Some(v),
            Err(e) => val_at(nodes@, inputs@, i as int) is None && e == err_kind(
                nodes@[i as int],
            ),
        },
{
    let node = nodes[i];
    match node {
        Node::Constant(c) => {
            proof {
                reveal_with_fuel(val_at, 1);
                assert(val_at(nodes@, inputs@, i as int) == Some(c));
            }
            Ok(c)
        },
        Node::Input(j) => {
            if j < inputs.len() {
                let v = inputs[j];
                proof {
                    reveal_with_fuel(val_at, 1);
                    assert(val_at(nodes@, inputs@, i as int) == Some(v));
                }
                Ok(v)
            } else {
                proof {
                    reveal_with_fuel(val_at, 1);
                    assert(val_at(nodes@, inputs@, i as int) is None);
                }
                Err(WitnessError::InputOutOfRange)
            }
        },
        Node::Op(op, a, b) => {
            let x = values[a];
            let y = values[b];
            proof {
                reveal_with_fuel(val_at, 1);
                assert(val_at(nodes@, inputs@, a as int) == Some(x));
                assert(val_at(nodes@, inputs@, b as int) == Some(y));
                assert(val_at(nodes@, inputs@, i as int) == op_value(op, x, y));
            }
            apply_op(op, &x, &y)
        },
        Node::SingleOp(op, a) => {
            let x = values[a];
            proof {
                reveal_with_fuel(val_at, 1);
                assert(val_at(nodes@, inputs@, a as int) == Some(x));
                assert(val_at(nodes@, inputs@, i as int) == single_op_value(op, x));
            }
            apply_single_op(op, &x)
        },
        Node::Select(c, t, f) => {
            let cv = values[c];
            let v = if !u256_is_zero(&cv) {
                values[t]
            } else {
                values[f]
            };
            proof {
                reveal_with_fuel(val_at, 1);
                assert(val_at(nodes@, inputs@, c as int) == Some(cv));
                assert(val_at(nodes@, inputs@, t as int) == Some(values@[t as int]));
                assert(val_at(nodes@, inputs@, f as int) == Some(values@[f as int]));
                assert(val_at(nodes@, inputs@, i as int) == Some(v));
            }
            Ok(v)
        },
    }
}

/// Replays a node log once, in handle order, against a flat input buffer,
/// and projects the per-node values onto the signal list.
pub fn evaluate(nodes: &Vec<Node>, inputs: &Vec<Uint256>, signals: &Vec<usize>) -> (r: Result<
    Vec<Uint256>,
    WitnessError,
>)
    requires
        nodes_wf(nodes@),
        forall|k: int| 0 <= k < signals@.len() ==> (#[trigger] signals@[k] as int) < nodes@.len(),
    ensures
        evaluate_post(nodes@, inputs@, signals@, r),
{
    let ghost gnodes = nodes@;
    let ghost ginputs = inputs@;
    let n = nodes.len();
    let mut values: Vec<Uint256> = Vec::new();
    let mut i: usize = 0;
    while i < n
        invariant
            n == gnodes.len(),
            gnodes == nodes@,
            ginputs == inputs@,
            nodes_wf(gnodes),
            i <= n,
            values@.len() == i,
            forall|j: int| 0 <= j < i ==> Some(#[trigger] values@[j]) == val_at(gnodes, ginputs, j),
            first_err(gnodes, ginputs, i as int) is None,
        decreases n - i,
    {
        match eval_node(nodes, inputs, &values, i) {
            Ok(v) => {
                values.push(v);
            },
            Err(e) => {
                proof {
                    lemma_first_err_frozen(gnodes, ginputs, i as int, n as int);
                }
                return Err(e);
            },
        }
        i += 1;
    }
    proof {
        lemma_first_err_none(gnodes, ginputs, n as int);
    }
    let mut out: Vec<Uint256> = Vec::new();
    let mut k: usize = 0;
    let ns = signals.len();
    while k < ns
        invariant
            ns == signals@.len(),
            gnodes == nodes@,
            ginputs == inputs@,
            k <= ns,
            out@.len() == k,
            values@.len() == gnodes.len(),
            forall|k2: int| 0 <= k2 < signals@.len() ==> (#[trigger] signals@[k2] as int)
                < gnodes.len(),
            forall|j: int| 0 <= j < gnodes.len() ==> Some(#[trigger] values@[j]) == val_at(
                gnodes,
                ginputs,
                j,
            ),
            forall|k2: int| 0 <= k2 < k ==> #[trigger] out@[k2] == val_at(
                gnodes,
                ginputs,
                signals@[k2] as int,
            )->0,
        decreases ns - k,
    {
        out.push(values[signals[k]]);
        k += 1;
    }
    proof {
        assert(out@ =~= witness_of(gnodes, ginputs, signals@));
    }
    Ok(out)
}

} // verus!
