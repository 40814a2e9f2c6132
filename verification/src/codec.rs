//! Canonical binary encoding of a persisted graph: a node count and tagged
//! node records, the signal list, and the input table, all integers 64-bit
//! little-endian. Decoding rejects truncated or malformed bytes; encoding and
//! decoding invert each other.

use vstd::prelude::*;
use vstd::arithmetic::div_mod::{
    lemma_div_denominator, lemma_fundamental_div_mod, lemma_small_mod,
};

use crate::{HashSignalInfo, WitnessError};
use crate::field::Uint256;
use crate::graph::{Node, Operation};

verus! {

/// The little-endian bytes of a 64-bit value.
pub open spec fn u64_le(x: u64) -> Seq<u8> {
    seq![
        (x as nat % 0x100) as u8,
        ((x as nat / 0x100) % 0x100) as u8,
        ((x as nat / 0x10000) % 0x100) as u8,
        ((x as nat / 0x1000000) % 0x100) as u8,
        ((x as nat / 0x100000000) % 0x100) as u8,
        ((x as nat / 0x10000000000) % 0x100) as u8,
        ((x as nat / 0x1000000000000) % 0x100) as u8,
        ((x as nat / 0x100000000000000) % 0x100) as u8,
    ]
}

/// The value of eight little-endian bytes at offset off.
pub open spec fn le8_at(b: Seq<u8>, off: int) -> nat {
    (b[off] + b[off + 1] * 0x100 + b[off + 2] * 0x10000 + b[off + 3] * 0x1000000 + b[off + 4]
        * 0x100000000 + b[off + 5] * 0x10000000000 + b[off + 6] * 0x1000000000000 + b[off + 7]
        * 0x100000000000000) as nat
}

/// Reading back the little-endian bytes of x yields x.
pub proof fn lemma_u64_le_roundtrip(b: Seq<u8>, off: int, x: u64)
    requires
        0 <= off,
        off + 8 <= b.len(),
        b.subrange(off, off + 8) == u64_le(x),
    ensures
        le8_at(b, off) == x,
{
    let n = x as int;
    let q1 = n / 0x100;
    let q2 = n / 0x10000;
    let q3 = n / 0x1000000;
    let q4 = n / 0x100000000;
    let q5 = n / 0x10000000000;
    let q6 = n / 0x1000000000000;
    let q7 = n / 0x100000000000000;
    lemma_fundamental_div_mod(n, 0x100);
    lemma_div_denominator(n, 0x100, 0x100);
    lemma_fundamental_div_mod(q1, 0x100);
    lemma_div_denominator(n, 0x10000, 0x100);
    lemma_fundamental_div_mod(q2, 0x100);
    lemma_div_denominator(n, 0x1000000, 0x100);
    lemma_fundamental_div_mod(q3, 0x100);
    lemma_div_denominator(n, 0x100000000, 0x100);
    lemma_fundamental_div_mod(q4, 0x100);
    lemma_div_denominator(n, 0x10000000000, 0x100);
    lemma_fundamental_div_mod(q5, 0x100);
    lemma_div_denominator(n, 0x1000000000000, 0x100);
    lemma_fundamental_div_mod(q6, 0x100);
    lemma_fundamental_div_mod(q7, 0x100);
    assert(q7 < 0x100) by {
        lemma_fundamental_div_mod(n, 0x100000000000000);
        if q7 >= 0x100 {
            assert(0x100000000000000 * q7 >= 0x100000000000000 * 0x100) by {
                vstd::arithmetic::mul::lemma_mul_inequality(0x100, q7, 0x100000000000000);
            }
            assert(false);
        }
    }
    lemma_small_mod(q7 as nat, 0x100);
    assert(b.subrange(off, off + 8)[0] == b[off]);
    assert(b.subrange(off, off + 8)[1] == b[off + 1]);
    assert(b.subrange(off, off + 8)[2] == b[off + 2]);
    assert(b.subrange(off, off + 8)[3] == b[off + 3]);
    assert(b.subrange(off, off + 8)[4] == b[off + 4]);
    assert(b.subrange(off, off + 8)[5] == b[off + 5]);
    assert(b.subrange(off, off + 8)[6] == b[off + 6]);
    assert(b.subrange(off, off + 8)[7] == b[off + 7]);
}

/// The 32 little-endian bytes of a 256-bit value, low word first.
pub open spec fn u256_le(v: Uint256) -> Seq<u8> {
    u64_le(v.w0) + u64_le(v.w1) + u64_le(v.w2) + u64_le(v.w3)
}

/// The 256-bit value read from 32 little-endian bytes at offset off.
pub open spec fn u256_at(b: Seq<u8>, off: int) -> Uint256 {
    Uint256 {
        w0: le8_at(b, off) as u64,
        w1: le8_at(b, off + 8) as u64,
        w2: le8_at(b, off + 16) as u64,
        w3: le8_at(b, off + 24) as u64,
    }
}

#[verifier::rlimit(100)]
pub proof fn lemma_u256_le_roundtrip(b: Seq<u8>, off: int, v: Uint256)
    requires
        0 <= off,
        off + 32 <= b.len(),
        b.subrange(off, off + 32) == u256_le(v),
    ensures
        u256_at(b, off) == v,
{
    let s = b.subrange(off, off + 32);
    assert(b.subrange(off, off + 8) =~= s.subrange(0, 8));
    assert(b.subrange(off + 8, off + 16) =~= s.subrange(8, 16));
    assert(b.subrange(off + 16, off + 24) =~= s.subrange(16, 24));
    assert(b.subrange(off + 24, off + 32) =~= s.subrange(24, 32));
    assert(s.subrange(0, 8) =~= u64_le(v.w0));
    assert(s.subrange(8, 16) =~= u64_le(v.w1));
    assert(s.subrange(16, 24) =~= u64_le(v.w2));
    assert(s.subrange(24, 32) =~= u64_le(v.w3));
    lemma_u64_le_roundtrip(b, off, v.w0);
    lemma_u64_le_roundtrip(b, off + 8, v.w1);
    lemma_u64_le_roundtrip(b, off + 16, v.w2);
    lemma_u64_le_roundtrip(b, off + 24, v.w3);
}

/// The code of each operation in a persisted record.
pub open spec fn op_code(op: Operation) -> u8 {
    match op {
        Operation::Mul => 0,
        Operation::Div => 1,
        Operation::Add => 2,
        Operation::Sub => 3,
        Operation::Pow => 4,
        Operation::Idiv => 5,
        Operation::Mod => 6,
        Operation::Eq => 7,
        Operation::Neq => 8,
        Operation::Lt => 9,
        Operation::Gt => 10,
        Operation::Leq => 11,
        Operation::Geq => 12,
        Operation::Land => 13,
        Operation::Lor => 14,
        Operation::Shl => 15,
        Operation::Shr => 16,
        Operation::Band => 17,
        Operation::Bor => 18,
        Operation::Bxor => 19,
        Operation::Neg => 20,
        Operation::Bnot => 21,
    }
}

/// The operation a code byte denotes, if any.
pub open spec fn op_from_code(x: u8) -> Option<Operation> {
    if x == 0 {
        Some(Operation::Mul)
    } else if x == 1 {
        Some(Operation::Div)
    } else if x == 2 {
        Some(Operation::Add)
    } else if x == 3 {
        Some(Operation::Sub)
    } else if x == 4 {
        Some(Operation::Pow)
    } else if x == 5 {
        Some(Operation::Idiv)
    } else if x == 6 {
        Some(Operation::Mod)
    } else if x == 7 {
        Some(Operation::Eq)
    } else if x == 8 {
        Some(Operation::Neq)
    } else if x == 9 {
        Some(Operation::Lt)
    } else if x == 10 {
        Some(Operation::Gt)
    } else if x == 11 {
        Some(Operation::Leq)
    } else if x == 12 {
        Some(Operation::Geq)
    } else if x == 13 {
        Some(Operation::Land)
    } else if x == 14 {
        Some(Operation::Lor)
    } else if x == 15 {
        Some(Operation::Shl)
    } else if x == 16 {
        Some(Operation::Shr)
    } else if x == 17 {
        Some(Operation::Band)
    } else if x == 18 {
        Some(Operation::Bor)
    } else if x == 19 {
        Some(Operation::Bxor)
    } else if x == 20 {
        Some(Operation::Neg)
    } else if x == 21 {
        Some(Operation::Bnot)
    } else {
        None
    }
}

pub proof fn lemma_op_code_roundtrip(op: Operation)
    ensures
        op_from_code(op_code(op)) == Some(op),
{
}


/// The bytes of one tagged node record.
pub open spec fn enc_node(n: Node) -> Seq<u8> {
    match n {
        Node::Constant(c) => seq![0u8] + u256_le(c),
        Node::Input(j) => seq![1u8] + u64_le(j as u64),
        Node::Op(op, a, b) => seq![2u8, op_code(op)] + u64_le(a as u64) + u64_le(b as u64),
        Node::SingleOp(op, a) => seq![3u8, op_code(op)] + u64_le(a as u64),
        Node::Select(c, t, f) => seq![4u8] + u64_le(c as u64) + u64_le(t as u64) + u64_le(
            f as u64,
        ),
    }
}

/// One node record read at offset off: the node and the offset just past it.
#[verifier::opaque]
pub open spec fn dec_node(b: Seq<u8>, off: int) -> Option<(Node, int)> {
    if off < 0 || off >= b.len() {
        None
    } else if b[off] == 0 {
        if off + 33 <= b.len() {
            Some((Node::Constant(u256_at(b, off + 1)), off + 33))
        } else {
            None
        }
    } else if b[off] == 1 {
        if off + 9 <= b.len() {
            let v = le8_at(b, off + 1);
            if v <= usize::MAX as nat {
                Some((Node::Input(v as usize), off + 9))
            } else {
                None
            }
        } else {
            None
        }
    } else if b[off] == 2 {
        if off + 18 <= b.len() {
            match op_from_code(b[off + 1]) {
                Some(op) => {
                    let va = le8_at(b, off + 2);
                    let vb = le8_at(b, off + 10);
                    if va <= usize::MAX as nat && vb <= usize::MAX as nat {
                        Some((Node::Op(op, va as usize, vb as usize), off + 18))
                    } else {
                        None
                    }
                },
                None => None,
            }
        } else {
            None
        }
    } else if b[off] == 3 {
        if off + 10 <= b.len() {
            match op_from_code(b[off + 1]) {
                Some(op) => {
                    let va = le8_at(b, off + 2);
                    if va <= usize::MAX as nat {
                        Some((Node::SingleOp(op, va as usize), off + 10))
                    } else {
                        None
                    }
                },
                None => None,
            }
        } else {
            None
        }
    } else if b[off] == 4 {
        if off + 25 <= b.len() {
            let vc = le8_at(b, off + 1);
            let vt = le8_at(b, off + 9);
            let vf = le8_at(b, off + 17);
            if vc <= usize::MAX as nat && vt <= usize::MAX as nat && vf <= usize::MAX as nat {
                Some((Node::Select(vc as usize, vt as usize, vf as usize), off + 25))
            } else {
                None
            }
        } else {
            None
        }
    } else {
        None
    }
}

/// Splitting a decoded window: when a window holds one encoding followed by
/// another, each piece is the matching subrange.
proof fn lemma_split_window(b: Seq<u8>, off: int, x: Seq<u8>, y: Seq<u8>)
    requires
        0 <= off,
        off + x.len() + y.len() <= b.len(),
        b.subrange(off, off + x.len() + y.len()) == x + y,
    ensures
        b.subrange(off, off + x.len()) == x,
        b.subrange(off + x.len(), off + x.len() + y.len()) == y,
{
    let w = b.subrange(off, off + x.len() + y.len());
    assert forall|i: int| 0 <= i < x.len() implies b.subrange(off, off + x.len() as int)[i]
        == x[i] by {
        assert(w[i] == x[i]);
    }
    assert forall|i: int| 0 <= i < y.len() implies b.subrange(
        off + x.len(),
        off + x.len() + y.len(),
    )[i] == y[i] by {
        assert(w[x.len() + i] == y[i]);
    }
    assert(b.subrange(off, off + x.len() as int) =~= x);
    assert(b.subrange(off + x.len(), off + x.len() + y.len()) =~= y);
}

/// Reading back one encoded node record yields that node.
proof fn lemma_node_roundtrip_constant(b: Seq<u8>, off: int, c: Uint256)
    requires
        0 <= off,
        off + 33 <= b.len(),
        b.subrange(off, off + 33) == enc_node(Node::Constant(c)),
    ensures
        dec_node(b, off) == Some((Node::Constant(c), off + 33)),
{
    reveal(dec_node);
    assert(b.subrange(off, off + 33)[0] == b[off]);
    lemma_split_window(b, off, seq![0u8], u256_le(c));
    lemma_u256_le_roundtrip(b, off + 1, c);
}

proof fn lemma_node_roundtrip_input(b: Seq<u8>, off: int, j: usize)
    requires
        0 <= off,
        off + 9 <= b.len(),
        b.subrange(off, off + 9) == enc_node(Node::Input(j)),
    ensures
        dec_node(b, off) == Some((Node::Input(j), off + 9)),
{
    reveal(dec_node);
    assert(b.subrange(off, off + 9)[0] == b[off]);
    lemma_split_window(b, off, seq![1u8], u64_le(j as u64));
    lemma_u64_le_roundtrip(b, off + 1, j as u64);
}

proof fn lemma_node_roundtrip_op(b: Seq<u8>, off: int, op: Operation, x: usize, y: usize)
    requires
        0 <= off,
        off + 18 <= b.len(),
        b.subrange(off, off + 18) == enc_node(Node::Op(op, x, y)),
    ensures
        dec_node(b, off) == Some((Node::Op(op, x, y), off + 18)),
{
    reveal(dec_node);
    assert(b.subrange(off, off + 18)[0] == b[off]);
    assert(b.subrange(off, off + 18)[1] == b[off + 1]);
    lemma_op_code_roundtrip(op);
    assert(b.subrange(off, off + 18) =~= seq![2u8, op_code(op)] + (u64_le(x as u64) + u64_le(
        y as u64,
    )));
    lemma_split_window(b, off, seq![2u8, op_code(op)], u64_le(x as u64) + u64_le(y as u64));
    lemma_split_window(b, off + 2, u64_le(x as u64), u64_le(y as u64));
    lemma_u64_le_roundtrip(b, off + 2, x as u64);
    lemma_u64_le_roundtrip(b, off + 10, y as u64);
}

proof fn lemma_node_roundtrip_single(b: Seq<u8>, off: int, op: Operation, x: usize)
    requires
        0 <= off,
        off + 10 <= b.len(),
        b.subrange(off, off + 10) == enc_node(Node::SingleOp(op, x)),
    ensures
        dec_node(b, off) == Some((Node::SingleOp(op, x), off + 10)),
{
    reveal(dec_node);
    assert(b.subrange(off, off + 10)[0] == b[off]);
    assert(b.subrange(off, off + 10)[1] == b[off + 1]);
    lemma_op_code_roundtrip(op);
    lemma_split_window(b, off, seq![3u8, op_code(op)], u64_le(x as u64));
    lemma_u64_le_roundtrip(b, off + 2, x as u64);
}

proof fn lemma_node_roundtrip_select(b: Seq<u8>, off: int, c: usize, t: usize, f: usize)
    requires
        0 <= off,
        off + 25 <= b.len(),
        b.subrange(off, off + 25) == enc_node(Node::Select(c, t, f)),
    ensures
        dec_node(b, off) == Some((Node::Select(c, t, f), off + 25)),
{
    reveal(dec_node);
    assert(b.subrange(off, off + 25)[0] == b[off]);
    assert(b.subrange(off, off + 25) =~= seq![4u8] + (u64_le(c as u64) + u64_le(t as u64)
        + u64_le(f as u64)));
    lemma_split_window(b, off, seq![4u8], u64_le(c as u64) + u64_le(t as u64) + u64_le(f as u64));
    lemma_split_window(b, off + 1, u64_le(c as u64) + u64_le(t as u64), u64_le(f as u64));
    lemma_split_window(b, off + 1, u64_le(c as u64), u64_le(t as u64));
    lemma_u64_le_roundtrip(b, off + 1, c as u64);
    lemma_u64_le_roundtrip(b, off + 9, t as u64);
    lemma_u64_le_roundtrip(b, off + 17, f as u64);
}

/// Reading back one encoded node record yields that node.
#[verifier::rlimit(100)]
proof fn lemma_node_roundtrip(b: Seq<u8>, off: int, n: Node)
    requires
        0 <= off,
        off + enc_node(n).len() <= b.len(),
        b.subrange(off, off + enc_node(n).len()) == enc_node(n),
    ensures
        dec_node(b, off) == Some((n, off + enc_node(n).len())),
{
    match n {
        Node::Constant(c) => lemma_node_roundtrip_constant(b, off, c),
        Node::Input(j) => lemma_node_roundtrip_input(b, off, j),
        Node::Op(op, x, y) => lemma_node_roundtrip_op(b, off, op, x, y),
        Node::SingleOp(op, x) => lemma_node_roundtrip_single(b, off, op, x),
        Node::Select(c, t, f) => lemma_node_roundtrip_select(b, off, c, t, f),
    }
}

/// The concatenated records of a node sequence.
pub open spec fn enc_nodes(s: Seq<Node>) -> Seq<u8>
    decreases s.len(),
{
    if s.len() == 0 {
        Seq::empty()
    } else {
        enc_node(s[0]) + enc_nodes(s.subrange(1, s.len() as int))
    }
}

/// k node records read from offset off.
pub open spec fn dec_nodes(b: Seq<u8>, off: int, k: nat) -> Option<(Seq<Node>, int)>
    decreases k,
{
    if k == 0 {
        Some((Seq::empty(), off))
    } else {
        match dec_node(b, off) {
            None => None,
            Some((n, off2)) => match dec_nodes(b, off2, (k - 1) as nat) {
                None => None,
                Some((s, off3)) => Some((seq![n] + s, off3)),
            },
        }
    }
}

/// Appending one node appends its record.
#[verifier::rlimit(100)]
pub proof fn lemma_enc_nodes_snoc(s: Seq<Node>, n: Node)
    ensures
        enc_nodes(s.push(n)) == enc_nodes(s) + enc_node(n),
    decreases s.len(),
{
    if s.len() == 0 {
        assert(s.push(n)[0] == n);
        assert(s.push(n).subrange(1, 1) =~= Seq::<Node>::empty());
        assert(enc_nodes(Seq::<Node>::empty()) =~= Seq::<u8>::empty());
        assert(enc_nodes(s.push(n)) =~= enc_node(n));
        assert(enc_nodes(s) + enc_node(n) =~= enc_node(n));
    } else {
        let t = s.subrange(1, s.len() as int);
        assert(s.push(n).subrange(1, s.push(n).len() as int) =~= t.push(n));
        lemma_enc_nodes_snoc(t, n);
        assert(enc_nodes(s.push(n)) =~= enc_node(s[0]) + (enc_nodes(t) + enc_node(n)));
        assert(enc_node(s[0]) + (enc_nodes(t) + enc_node(n)) =~= (enc_node(s[0]) + enc_nodes(t))
            + enc_node(n));
    }
}

/// Reading back an encoded node sequence yields that sequence.
#[verifier::rlimit(100)]
proof fn lemma_nodes_roundtrip(b: Seq<u8>, off: int, s: Seq<Node>)
    requires
        0 <= off,
        off + enc_nodes(s).len() <= b.len(),
        b.subrange(off, off + enc_nodes(s).len()) == enc_nodes(s),
    ensures
        dec_nodes(b, off, s.len()) == Some((s, off + enc_nodes(s).len())),
    decreases s.len(),
{
    if s.len() == 0 {
    } else {
        let t = s.subrange(1, s.len() as int);
        lemma_split_window(b, off, enc_node(s[0]), enc_nodes(t));
        lemma_node_roundtrip(b, off, s[0]);
        lemma_nodes_roundtrip(b, off + enc_node(s[0]).len(), t);
        assert(seq![s[0]] + t =~= s);
    }
}


/// The bytes of one signal entry.
pub open spec fn enc_sig(j: usize) -> Seq<u8> {
    u64_le(j as u64)
}

pub open spec fn dec_sig(b: Seq<u8>, off: int) -> Option<(usize, int)> {
    if off < 0 || off + 8 > b.len() {
        None
    } else {
        let v = le8_at(b, off);
        if v <= usize::MAX as nat {
            Some((v as usize, off + 8))
        } else {
            None
        }
    }
}

pub open spec fn enc_sigs(s: Seq<usize>) -> Seq<u8>
    decreases s.len(),
{
    if s.len() == 0 {
        Seq::empty()
    } else {
        enc_sig(s[0]) + enc_sigs(s.subrange(1, s.len() as int))
    }
}

pub open spec fn dec_sigs(b: Seq<u8>, off: int, k: nat) -> Option<(Seq<usize>, int)>
    decreases k,
{
    if k == 0 {
        Some((Seq::empty(), off))
    } else {
        match dec_sig(b, off) {
            None => None,
            Some((j, off2)) => match dec_sigs(b, off2, (k - 1) as nat) {
                None => None,
                Some((s, off3)) => Some((seq![j] + s, off3)),
            },
        }
    }
}

pub proof fn lemma_enc_sigs_snoc(s: Seq<usize>, j: usize)
    ensures
        enc_sigs(s.push(j)) == enc_sigs(s) + enc_sig(j),
    decreases s.len(),
{
    if s.len() == 0 {
        assert(s.push(j)[0] == j);
        assert(s.push(j).subrange(1, 1) =~= Seq::<usize>::empty());
        assert(enc_sigs(Seq::<usize>::empty()) =~= Seq::<u8>::empty());
        assert(enc_sigs(s.push(j)) =~= enc_sig(j));
        assert(enc_sigs(s) + enc_sig(j) =~= enc_sig(j));
    } else {
        let t = s.subrange(1, s.len() as int);
        assert(s.push(j).subrange(1, s.push(j).len() as int) =~= t.push(j));
        lemma_enc_sigs_snoc(t, j);
        assert(enc_sigs(s.push(j)) =~= enc_sig(s[0]) + (enc_sigs(t) + enc_sig(j)));
        assert(enc_sig(s[0]) + (enc_sigs(t) + enc_sig(j)) =~= (enc_sig(s[0]) + enc_sigs(t))
            + enc_sig(j));
    }
}

proof fn lemma_sigs_roundtrip(b: Seq<u8>, off: int, s: Seq<usize>)
    requires
        0 <= off,
        off + enc_sigs(s).len() <= b.len(),
        b.subrange(off, off + enc_sigs(s).len()) == enc_sigs(s),
    ensures
        dec_sigs(b, off, s.len()) == Some((s, off + enc_sigs(s).len())),
    decreases s.len(),
{
    if s.len() == 0 {
    } else {
        let t = s.subrange(1, s.len() as int);
        lemma_split_window(b, off, enc_sig(s[0]), enc_sigs(t));
        lemma_u64_le_roundtrip(b, off, s[0] as u64);
        lemma_sigs_roundtrip(b, off + 8, t);
        assert(seq![s[0]] + t =~= s);
    }
}

/// The bytes of one input-table entry.
pub open spec fn enc_info(h: HashSignalInfo) -> Seq<u8> {
    u64_le(h.hash) + u64_le(h.signalid) + u64_le(h.signalsize)
}

pub open spec fn dec_info(b: Seq<u8>, off: int) -> Option<(HashSignalInfo, int)> {
    if off < 0 || off + 24 > b.len() {
        None
    } else {
        Some(
            (
                HashSignalInfo {
                    hash: le8_at(b, off) as u64,
                    signalid: le8_at(b, off + 8) as u64,
                    signalsize: le8_at(b, off + 16) as u64,
                },
                off + 24,
            ),
        )
    }
}

pub open spec fn enc_infos(s: Seq<HashSignalInfo>) -> Seq<u8>
    decreases s.len(),
{
    if s.len() == 0 {
        Seq::empty()
    } else {
        enc_info(s[0]) + enc_infos(s.subrange(1, s.len() as int))
    }
}

pub open spec fn dec_infos(b: Seq<u8>, off: int, k: nat) -> Option<(Seq<HashSignalInfo>, int)>
    decreases k,
{
    if k == 0 {
        Some((Seq::empty(), off))
    } else {
        match dec_info(b, off) {
            None => None,
            Some((h, off2)) => match dec_infos(b, off2, (k - 1) as nat) {
                None => None,
                Some((s, off3)) => Some((seq![h] + s, off3)),
            },
        }
    }
}

pub proof fn lemma_enc_infos_snoc(s: Seq<HashSignalInfo>, h: HashSignalInfo)
    ensures
        enc_infos(s.push(h)) == enc_infos(s) + enc_info(h),
    decreases s.len(),
{
    if s.len() == 0 {
        assert(s.push(h)[0] == h);
        assert(s.push(h).subrange(1, 1) =~= Seq::<HashSignalInfo>::empty());
        assert(enc_infos(Seq::<HashSignalInfo>::empty()) =~= Seq::<u8>::empty());
        assert(enc_infos(s.push(h)) =~= enc_info(h));
        assert(enc_infos(s) + enc_info(h) =~= enc_info(h));
    } else {
        let t = s.subrange(1, s.len() as int);
        assert(s.push(h).subrange(1, s.push(h).len() as int) =~= t.push(h));
        lemma_enc_infos_snoc(t, h);
        assert(enc_infos(s.push(h)) =~= enc_info(s[0]) + (enc_infos(t) + enc_info(h)));
        assert(enc_info(s[0]) + (enc_infos(t) + enc_info(h)) =~= (enc_info(s[0]) + enc_infos(t))
            + enc_info(h));
    }
}

#[verifier::rlimit(100)]
proof fn lemma_info_roundtrip(b: Seq<u8>, off: int, h: HashSignalInfo)
    requires
        0 <= off,
        off + 24 <= b.len(),
        b.subrange(off, off + 24) == enc_info(h),
    ensures
        dec_info(b, off) == Some((h, off + 24)),
{
    assert(b.subrange(off, off + 24) =~= u64_le(h.hash) + (u64_le(h.signalid) + u64_le(
        h.signalsize,
    )));
    lemma_split_window(b, off, u64_le(h.hash), u64_le(h.signalid) + u64_le(h.signalsize));
    lemma_split_window(b, off + 8, u64_le(h.signalid), u64_le(h.signalsize));
    lemma_u64_le_roundtrip(b, off, h.hash);
    lemma_u64_le_roundtrip(b, off + 8, h.signalid);
    lemma_u64_le_roundtrip(b, off + 16, h.signalsize);
}

proof fn lemma_infos_roundtrip(b: Seq<u8>, off: int, s: Seq<HashSignalInfo>)
    requires
        0 <= off,
        off + enc_infos(s).len() <= b.len(),
        b.subrange(off, off + enc_infos(s).len()) == enc_infos(s),
    ensures
        dec_infos(b, off, s.len()) == Some((s, off + enc_infos(s).len())),
    decreases s.len(),
{
    if s.len() == 0 {
    } else {
        let t = s.subrange(1, s.len() as int);
        lemma_split_window(b, off, enc_info(s[0]), enc_infos(t));
        lemma_info_roundtrip(b, off, s[0]);
        lemma_infos_roundtrip(b, off + 24, t);
        assert(seq![s[0]] + t =~= s);
    }
}

/// The bytes of a whole persisted graph: each section preceded by its count.
pub open spec fn enc_graph(
    nodes: Seq<Node>,
    sigs: Seq<usize>,
    infos: Seq<HashSignalInfo>,
) -> Seq<u8> {
    u64_le(nodes.len() as u64) + enc_nodes(nodes) + u64_le(sigs.len() as u64) + enc_sigs(sigs)
        + u64_le(infos.len() as u64) + enc_infos(infos)
}

/// The decoded persisted graph, or None for truncated, malformed, or
/// trailing bytes.
pub open spec fn dec_graph(b: Seq<u8>) -> Option<(Seq<Node>, Seq<usize>, Seq<HashSignalInfo>)> {
    match dec_sig(b, 0) {
        None => None,
        Some((n, _)) => match dec_nodes(b, 8, n as nat) {
            None => None,
            Some((nodes, o1)) => match dec_sig(b, o1) {
                None => None,
                Some((ns, _)) => match dec_sigs(b, o1 + 8, ns as nat) {
                    None => None,
                    Some((sigs, o2)) => match dec_sig(b, o2) {
                        None => None,
                        Some((nm, _)) => match dec_infos(b, o2 + 8, nm as nat) {
                            None => None,
                            Some((infos, o3)) => if o3 == b.len() {
                                Some((nodes, sigs, infos))
                            } else {
                                None
                            },
                        },
                    },
                },
            },
        },
    }
}

/// Decoding proceeds section by section when each section reads back.
proof fn lemma_dec_graph_sections(
    b: Seq<u8>,
    nodes: Seq<Node>,
    sigs: Seq<usize>,
    infos: Seq<HashSignalInfo>,
    n0: usize,
    n1: usize,
    n2: usize,
    o1: int,
    o2: int,
)
    requires
        dec_sig(b, 0) == Some((n0, 8int)),
        n0 as nat == nodes.len(),
        dec_nodes(b, 8, nodes.len()) == Some((nodes, o1)),
        dec_sig(b, o1) == Some((n1, o1 + 8)),
        n1 as nat == sigs.len(),
        dec_sigs(b, o1 + 8, sigs.len()) == Some((sigs, o2)),
        dec_sig(b, o2) == Some((n2, o2 + 8)),
        n2 as nat == infos.len(),
        dec_infos(b, o2 + 8, infos.len()) == Some((infos, b.len() as int)),
    ensures
        dec_graph(b) == Some((nodes, sigs, infos)),
{
}

/// The six sections of an encoded graph sit at their computed offsets.
#[verifier::rlimit(100)]
proof fn lemma_graph_windows(nodes: Seq<Node>, sigs: Seq<usize>, infos: Seq<HashSignalInfo>)
    ensures
        enc_graph(nodes, sigs, infos).len() == 24 + enc_nodes(nodes).len() + enc_sigs(sigs).len()
            + enc_infos(infos).len(),
        enc_graph(nodes, sigs, infos).subrange(0, 8) == u64_le(nodes.len() as u64),
        enc_graph(nodes, sigs, infos).subrange(8, 8 + enc_nodes(nodes).len() as int) == enc_nodes(nodes),
        enc_graph(nodes, sigs, infos).subrange(
            8 + enc_nodes(nodes).len() as int,
            16 + enc_nodes(nodes).len() as int,
        ) == u64_le(sigs.len() as u64),
        enc_graph(nodes, sigs, infos).subrange(
            16 + enc_nodes(nodes).len() as int,
            16 + enc_nodes(nodes).len() as int + enc_sigs(sigs).len() as int,
        ) == enc_sigs(sigs),
        enc_graph(nodes, sigs, infos).subrange(
            16 + enc_nodes(nodes).len() as int + enc_sigs(sigs).len() as int,
            24 + enc_nodes(nodes).len() as int + enc_sigs(sigs).len() as int,
        ) == u64_le(infos.len() as u64),
        enc_graph(nodes, sigs, infos).subrange(
            24 + enc_nodes(nodes).len() as int + enc_sigs(sigs).len() as int,
            24 + enc_nodes(nodes).len() as int + enc_sigs(sigs).len() as int + enc_infos(
                infos,
            ).len() as int,
        ) == enc_infos(infos),
{
    let b = enc_graph(nodes, sigs, infos);
    let w1 = u64_le(nodes.len() as u64);
    let w2 = enc_nodes(nodes);
    let w3 = u64_le(sigs.len() as u64);
    let w4 = enc_sigs(sigs);
    let w5 = u64_le(infos.len() as u64);
    let w6 = enc_infos(infos);
    let x2 = w1 + w2;
    let x3 = x2 + w3;
    let x4 = x3 + w4;
    let x5 = x4 + w5;
    assert(b.subrange(0, b.len() as int) =~= b);
    lemma_split_window(b, 0, x5, w6);
    lemma_split_window(b, 0, x4, w5);
    lemma_split_window(b, 0, x3, w4);
    lemma_split_window(b, 0, x2, w3);
    lemma_split_window(b, 0, w1, w2);
}

/// Round trip: decoding an encoded graph always yields the graph back,
/// section for section.
#[verifier::rlimit(100)]
pub proof fn lemma_codec_round_trip(nodes: Seq<Node>, sigs: Seq<usize>, infos: Seq<HashSignalInfo>)
    requires
        nodes.len() <= usize::MAX,
        sigs.len() <= usize::MAX,
        infos.len() <= usize::MAX,
    ensures
        dec_graph(enc_graph(nodes, sigs, infos)) == Some((nodes, sigs, infos)),
{
    let b = enc_graph(nodes, sigs, infos);
    let o1 = 8 + enc_nodes(nodes).len() as int;
    let s2 = o1 + 8;
    let o2 = s2 + enc_sigs(sigs).len() as int;
    let s3 = o2 + 8;
    lemma_graph_windows(nodes, sigs, infos);
    lemma_u64_le_roundtrip(b, 0, nodes.len() as u64);
    lemma_nodes_roundtrip(b, 8, nodes);
    lemma_u64_le_roundtrip(b, o1, sigs.len() as u64);
    lemma_sigs_roundtrip(b, s2, sigs);
    lemma_u64_le_roundtrip(b, o2, infos.len() as u64);
    lemma_infos_roundtrip(b, s3, infos);
    let n0 = nodes.len() as usize;
    let n1 = sigs.len() as usize;
    let n2 = infos.len() as usize;
    assert(dec_sig(b, 0) == Some((n0, 8int)));
    assert(dec_sig(b, o1) == Some((n1, o1 + 8)));
    assert(dec_sig(b, o2) == Some((n2, o2 + 8)));
    lemma_dec_graph_sections(b, nodes, sigs, infos, n0, n1, n2, o1, o2);
}


fn push_u64(out: &mut Vec<u8>, x: u64)
    ensures
        final(out)@ == old(out)@ + u64_le(x),
{
    out.push((x % 0x100) as u8);
    out.push(((x / 0x100) % 0x100) as u8);
    out.push(((x / 0x10000) % 0x100) as u8);
    out.push(((x / 0x1000000) % 0x100) as u8);
    out.push(((x / 0x100000000) % 0x100) as u8);
    out.push(((x / 0x10000000000) % 0x100) as u8);
    out.push(((x / 0x1000000000000) % 0x100) as u8);
    out.push(((x / 0x100000000000000) % 0x100) as u8);
    proof {
        assert(out@ =~= old(out)@ + u64_le(x));
    }
}

fn push_u256(out: &mut Vec<u8>, v: &Uint256)
    ensures
        final(out)@ == old(out)@ + u256_le(*v),
{
    push_u64(out, v.w0);
    push_u64(out, v.w1);
    push_u64(out, v.w2);
    push_u64(out, v.w3);
    proof {
        assert(out@ =~= old(out)@ + u256_le(*v));
    }
}

fn op_code_of(op: Operation) -> (r: u8)
    ensures
        r == op_code(op),
{
    match op {
        Operation::Mul => 0,
        Operation::Div => 1,
        Operation::Add => 2,
        Operation::Sub => 3,
        Operation::Pow => 4,
        Operation::Idiv => 5,
        Operation::Mod => 6,
        Operation::Eq => 7,
        Operation::Neq => 8,
        Operation::Lt => 9,
        Operation::Gt => 10,
        Operation::Leq => 11,
        Operation::Geq => 12,
        Operation::Land => 13,
        Operation::Lor => 14,
        Operation::Shl => 15,
        Operation::Shr => 16,
        Operation::Band => 17,
        Operation::Bor => 18,
        Operation::Bxor => 19,
        Operation::Neg => 20,
        Operation::Bnot => 21,
    }
}

fn op_of_code(x: u8) -> (r: Option<Operation>)
    ensures
        r == op_from_code(x),
{
    match x {
        0 => Some(Operation::Mul),
        1 => Some(Operation::Div),
        2 => Some(Operation::Add),
        3 => Some(Operation::Sub),
        4 => Some(Operation::Pow),
        5 => Some(Operation::Idiv),
        6 => Some(Operation::Mod),
        7 => Some(Operation::Eq),
        8 => Some(Operation::Neq),
        9 => Some(Operation::Lt),
        10 => Some(Operation::Gt),
        11 => Some(Operation::Leq),
        12 => Some(Operation::Geq),
        13 => Some(Operation::Land),
        14 => Some(Operation::Lor),
        15 => Some(Operation::Shl),
        16 => Some(Operation::Shr),
        17 => Some(Operation::Band),
        18 => Some(Operation::Bor),
        19 => Some(Operation::Bxor),
        20 => Some(Operation::Neg),
        21 => Some(Operation::Bnot),
        _ => None,
    }
}

fn push_node(out: &mut Vec<u8>, n: &Node)
    ensures
        final(out)@ == old(out)@ + enc_node(*n),
{
    match n {
        Node::Constant(c) => {
            out.push(0);
            push_u256(out, c);
            proof {
                assert(out@ =~= old(out)@ + enc_node(*n));
            }
        },
        Node::Input(j) => {
            out.push(1);
            push_u64(out, *j as u64);
            proof {
                assert(out@ =~= old(out)@ + enc_node(*n));
            }
        },
        Node::Op(op, a, b) => {
            out.push(2);
            out.push(op_code_of(*op));
            push_u64(out, *a as u64);
            push_u64(out, *b as u64);
            proof {
                assert(out@ =~= old(out)@ + enc_node(*n));
            }
        },
        Node::SingleOp(op, a) => {
            out.push(3);
            out.push(op_code_of(*op));
            push_u64(out, *a as u64);
            proof {
                assert(out@ =~= old(out)@ + enc_node(*n));
            }
        },
        Node::Select(c, t, f) => {
            out.push(4);
            push_u64(out, *c as u64);
            push_u64(out, *t as u64);
            push_u64(out, *f as u64);
            proof {
                assert(out@ =~= old(out)@ + enc_node(*n));
            }
        },
    }
}

/// Encodes a graph into its canonical bytes. The same graph always yields
/// the same bytes.
#[verifier::rlimit(100)]
pub fn serialize_graph(
    nodes: &Vec<Node>,
    signals: &Vec<usize>,
    input_mapping: &Vec<HashSignalInfo>,
) -> (out: Vec<u8>)
    ensures
        out@ == enc_graph(nodes@, signals@, input_mapping@),
{
    let ghost gnodes = nodes@;
    let ghost gsigs = signals@;
    let ghost ginfos = input_mapping@;
    let mut out: Vec<u8> = Vec::new();
    let n = nodes.len();
    push_u64(&mut out, n as u64);
    let mut i: usize = 0;
    while i < n
        invariant
            gnodes == nodes@,
            n == gnodes.len(),
            i <= n,
            out@ == u64_le(n as u64) + enc_nodes(gnodes.subrange(0, i as int)),
        decreases n - i,
    {
        let node = nodes[i];
        push_node(&mut out, &node);
        proof {
            assert(gnodes.subrange(0, i + 1) =~= gnodes.subrange(0, i as int).push(
                gnodes[i as int],
            ));
            lemma_enc_nodes_snoc(gnodes.subrange(0, i as int), gnodes[i as int]);
            assert(out@ =~= u64_le(n as u64) + enc_nodes(gnodes.subrange(0, i + 1)));
        }
        i += 1;
    }
    proof {
        assert(gnodes.subrange(0, n as int) =~= gnodes);
    }
    let ns = signals.len();
    push_u64(&mut out, ns as u64);
    let mut k: usize = 0;
    while k < ns
        invariant
            gnodes == nodes@,
            gsigs == signals@,
            ns == gsigs.len(),
            k <= ns,
            out@ == u64_le(gnodes.len() as u64) + enc_nodes(gnodes) + u64_le(ns as u64)
                + enc_sigs(gsigs.subrange(0, k as int)),
        decreases ns - k,
    {
        let s = signals[k];
        push_u64(&mut out, s as u64);
        proof {
            assert(gsigs.subrange(0, k + 1) =~= gsigs.subrange(0, k as int).push(gsigs[k as int]));
            lemma_enc_sigs_snoc(gsigs.subrange(0, k as int), gsigs[k as int]);
            assert(out@ =~= u64_le(gnodes.len() as u64) + enc_nodes(gnodes) + u64_le(ns as u64)
                + enc_sigs(gsigs.subrange(0, k + 1)));
        }
        k += 1;
    }
    proof {
        assert(gsigs.subrange(0, ns as int) =~= gsigs);
    }
    let nm = input_mapping.len();
    push_u64(&mut out, nm as u64);
    let mut k: usize = 0;
    while k < nm
        invariant
            gnodes == nodes@,
            gsigs == signals@,
            ginfos == input_mapping@,
            nm == ginfos.len(),
            k <= nm,
            out@ == u64_le(gnodes.len() as u64) + enc_nodes(gnodes) + u64_le(
                gsigs.len() as u64,
            ) + enc_sigs(gsigs) + u64_le(nm as u64) + enc_infos(ginfos.subrange(0, k as int)),
        decreases nm - k,
    {
        let h = input_mapping[k];
        push_u64(&mut out, h.hash);
        push_u64(&mut out, h.signalid);
        push_u64(&mut out, h.signalsize);
        proof {
            assert(ginfos.subrange(0, k + 1) =~= ginfos.subrange(0, k as int).push(
                ginfos[k as int],
            ));
            lemma_enc_infos_snoc(ginfos.subrange(0, k as int), ginfos[k as int]);
            assert(out@ =~= u64_le(gnodes.len() as u64) + enc_nodes(gnodes) + u64_le(
                gsigs.len() as u64,
            ) + enc_sigs(gsigs) + u64_le(nm as u64) + enc_infos(ginfos.subrange(0, k + 1)));
        }
        k += 1;
    }
    proof {
        assert(ginfos.subrange(0, nm as int) =~= ginfos);
    }
    out
}


pub(crate) fn read_u64(bytes: &Vec<u8>, off: usize) -> (r: u64)
    requires
        off + 8 <= bytes@.len(),
    ensures
        r as nat == le8_at(bytes@, off as int),
{
    let _total = bytes.len();
    let b0 = bytes[off] as u64;
    let b1 = bytes[off + 1] as u64;
    let b2 = bytes[off + 2] as u64;
    let b3 = bytes[off + 3] as u64;
    let b4 = bytes[off + 4] as u64;
    let b5 = bytes[off + 5] as u64;
    let b6 = bytes[off + 6] as u64;
    let b7 = bytes[off + 7] as u64;
    b0 + b1 * 0x100 + b2 * 0x10000 + b3 * 0x1000000 + b4 * 0x100000000 + b5 * 0x10000000000 + b6
        * 0x1000000000000 + b7 * 0x100000000000000
}

pub(crate) fn read_u256(bytes: &Vec<u8>, off: usize) -> (r: Uint256)
    requires
        off + 32 <= bytes@.len(),
    ensures
        r == u256_at(bytes@, off as int),
{
    let _total = bytes.len();
    Uint256 {
        w0: read_u64(bytes, off),
        w1: read_u64(bytes, off + 8),
        w2: read_u64(bytes, off + 16),
        w3: read_u64(bytes, off + 24),
    }
}

/// Reads one u64 and narrows it to a handle-sized value.
fn read_handle(bytes: &Vec<u8>, off: usize) -> (r: Result<usize, WitnessError>)
    requires
        off + 8 <= bytes@.len(),
    ensures
        match dec_sig(bytes@, off as int) {
            Some(p) => r == Ok::<usize, WitnessError>(p.0),
            None => r == Err::<usize, WitnessError>(WitnessError::Format),
        },
{
    let v = read_u64(bytes, off);
    if v <= usize::MAX as u64 {
        Ok(v as usize)
    } else {
        Err(WitnessError::Format)
    }
}

/// Reads one tagged node record.
#[verifier::rlimit(100)]
fn read_node(bytes: &Vec<u8>, off: usize) -> (r: Result<(Node, usize), WitnessError>)
    requires
        off <= bytes@.len(),
    ensures
        match r {
            Ok(p) => dec_node(bytes@, off as int) == Some((p.0, p.1 as int)) && off < p.1 <= bytes@.len(),
            Err(e) => dec_node(bytes@, off as int) is None && e == WitnessError::Format,
        },
{
    proof {
        reveal(dec_node);
    }
    let len = bytes.len();
    if off >= len {
        return Err(WitnessError::Format);
    }
    let tag = bytes[off];
    if tag == 0 {
        if len - off >= 33 {
            let c = read_u256(bytes, off + 1);
            Ok((Node::Constant(c), off + 33))
        } else {
            Err(WitnessError::Format)
        }
    } else if tag == 1 {
        if len - off >= 9 {
            match read_handle(bytes, off + 1) {
                Ok(j) => Ok((Node::Input(j), off + 9)),
                Err(e) => Err(e),
            }
        } else {
            Err(WitnessError::Format)
        }
    } else if tag == 2 {
        if len - off >= 18 {
            match op_of_code(bytes[off + 1]) {
                Some(op) => {
                    match read_handle(bytes, off + 2) {
                        Ok(a) => match read_handle(bytes, off + 10) {
                            Ok(b) => Ok((Node::Op(op, a, b), off + 18)),
                            Err(e) => Err(e),
                        },
                        Err(e) => Err(e),
                    }
                },
                None => Err(WitnessError::Format),
            }
        } else {
            Err(WitnessError::Format)
        }
    } else if tag == 3 {
        if len - off >= 10 {
            match op_of_code(bytes[off + 1]) {
                Some(op) => {
                    match read_handle(bytes, off + 2) {
                        Ok(a) => Ok((Node::SingleOp(op, a), off + 10)),
                        Err(e) => Err(e),
                    }
                },
                None => Err(WitnessError::Format),
            }
        } else {
            Err(WitnessError::Format)
        }
    } else if tag == 4 {
        if len - off >= 25 {
            match read_handle(bytes, off + 1) {
                Ok(c) => match read_handle(bytes, off + 9) {
                    Ok(t) => match read_handle(bytes, off + 17) {
                        Ok(f) => Ok((Node::Select(c, t, f), off + 25)),
                        Err(e) => Err(e),
                    },
                    Err(e) => Err(e),
                },
                Err(e) => Err(e),
            }
        } else {
            Err(WitnessError::Format)
        }
    } else {
        Err(WitnessError::Format)
    }
}

/// Decodes canonical graph bytes back into the three sections, rejecting
/// truncated, malformed, or trailing input.
#[verifier::rlimit(100)]
#[verifier::loop_isolation(false)]
pub fn deserialize_graph(bytes: &Vec<u8>) -> (r: Result<
    (Vec<Node>, Vec<usize>, Vec<HashSignalInfo>),
    WitnessError,
>)
    ensures
        match dec_graph(bytes@) {
            Some(t) => r is Ok && r->Ok_0.0@ == t.0 && r->Ok_0.1@ == t.1 && r->Ok_0.2@ == t.2,
            None => r == Err::<(Vec<Node>, Vec<usize>, Vec<HashSignalInfo>), WitnessError>(
                WitnessError::Format,
            ),
        },
{
    let ghost gb = bytes@;
    let len = bytes.len();
    if len < 8 {
        return Err(WitnessError::Format);
    }
    let n = match read_handle(bytes, 0) {
        Ok(v) => v,
        Err(_) => {
            return Err(WitnessError::Format);
        },
    };
    proof {
        assert(dec_sig(gb, 0) is Some);
        assert((dec_sig(gb, 0)->0).0 == n);
        assert((dec_sig(gb, 0)->0).1 == 8);
    }
    let mut nodes: Vec<Node> = Vec::new();
    let mut off: usize = 8;
    let mut i: usize = 0;
    while i < n
        invariant
            gb == bytes@,
            len == gb.len(),
            i <= n,
            off <= len,
            nodes@.len() == i,
            dec_nodes(gb, 8, n as nat) == (match dec_nodes(gb, off as int, (n - i) as nat) {
                Some(p) => Some::<(Seq<Node>, int)>((nodes@ + p.0, p.1)),
                None => None::<(Seq<Node>, int)>,
            }),
        decreases n - i,
    {
        match read_node(bytes, off) {
            Ok((node, off2)) => {
                proof {
                    let k = (n - i) as nat;
                    let rest = dec_nodes(gb, off2 as int, (k - 1) as nat);
                    if rest is Some {
                        assert(nodes@ + (seq![node] + (rest->0).0) =~= nodes@.push(node)
                            + (rest->0).0);
                    }
                }
                nodes.push(node);
                off = off2;
            },
            Err(e) => {
                proof {
                    assert(dec_nodes(gb, off as int, (n - i) as nat) is None);
                    assert(dec_nodes(gb, 8, n as nat) is None);
                    assert(dec_graph(gb) is None);
                }
                return Err(WitnessError::Format);
            },
        }
        i += 1;
    }
    if len - off < 8 {
        return Err(WitnessError::Format);
    }
    let ns = match read_handle(bytes, off) {
        Ok(v) => v,
        Err(_) => {
            return Err(WitnessError::Format);
        },
    };
    let ghost o1 = off as int;
    let mut signals: Vec<usize> = Vec::new();
    off = off + 8;
    let mut i: usize = 0;
    while i < ns
        invariant
            gb == bytes@,
            len == gb.len(),
            i <= ns,
            off <= len,
            signals@.len() == i,
            dec_sigs(gb, o1 + 8, ns as nat) == (match dec_sigs(gb, off as int, (ns - i) as nat) {
                Some(p) => Some::<(Seq<usize>, int)>((signals@ + p.0, p.1)),
                None => None::<(Seq<usize>, int)>,
            }),
        decreases ns - i,
    {
        if len - off < 8 {
            proof {
                assert(dec_sigs(gb, off as int, (ns - i) as nat) is None);
                assert(dec_sigs(gb, o1 + 8, ns as nat) is None);
                assert(dec_graph(gb) is None);
            }
            return Err(WitnessError::Format);
        }
        match read_handle(bytes, off) {
            Ok(v) => {
                proof {
                    let k = (ns - i) as nat;
                    let rest = dec_sigs(gb, off + 8, (k - 1) as nat);
                    if rest is Some {
                        assert(signals@ + (seq![v] + (rest->0).0) =~= signals@.push(v) + (rest->0).0);
                    }
                }
                signals.push(v);
                off = off + 8;
            },
            Err(_) => {
                proof {
                    assert(dec_sigs(gb, off as int, (ns - i) as nat) is None);
                    assert(dec_sigs(gb, o1 + 8, ns as nat) is None);
                    assert(dec_graph(gb) is None);
                }
                return Err(WitnessError::Format);
            },
        }
        i += 1;
    }
    if len - off < 8 {
        return Err(WitnessError::Format);
    }
    let nm = match read_handle(bytes, off) {
        Ok(v) => v,
        Err(_) => {
            return Err(WitnessError::Format);
        },
    };
    let ghost o2 = off as int;
    let mut infos: Vec<HashSignalInfo> = Vec::new();
    off = off + 8;
    let mut i: usize = 0;
    while i < nm
        invariant
            gb == bytes@,
            len == gb.len(),
            i <= nm,
            off <= len,
            infos@.len() == i,
            dec_infos(gb, o2 + 8, nm as nat) == (match dec_infos(
                gb,
                off as int,
                (nm - i) as nat,
            ) {
                Some(p) => Some::<(Seq<HashSignalInfo>, int)>((infos@ + p.0, p.1)),
                None => None::<(Seq<HashSignalInfo>, int)>,
            }),
        decreases nm - i,
    {
        if len - off < 24 {
            proof {
                assert(dec_infos(gb, off as int, (nm - i) as nat) is None);
                assert(dec_infos(gb, o2 + 8, nm as nat) is None);
                assert(dec_graph(gb) is None);
            }
            return Err(WitnessError::Format);
        }
        let h = HashSignalInfo {
            hash: read_u64(bytes, off),
            signalid: read_u64(bytes, off + 8),
            signalsize: read_u64(bytes, off + 16),
        };
        proof {
            let k = (nm - i) as nat;
            let rest = dec_infos(gb, off + 24, (k - 1) as nat);
            if rest is Some {
                assert(infos@ + (seq![h] + (rest->0).0) =~= infos@.push(h) + (rest->0).0);
            }
        }
        infos.push(h);
        off = off + 24;
        i += 1;
    }
    if off != len {
        return Err(WitnessError::Format);
    }
    Ok((nodes, signals, infos))
}

} // verus!




