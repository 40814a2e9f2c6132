//! Trace store and capture API: the single mutable structure of the system.
//! A capture session owns the append-only node log, the index-aligned value
//! cache and constant flags, and the conditional-branch bookkeeping. The
//! external circuit evaluator drives it one call at a time; constants are
//! folded eagerly as nodes are appended.

use vstd::prelude::*;
use vstd::string::StringExecFns;

use crate::WitnessError;
use crate::field::{u256_nat, Uint256};
use crate::graph::{
    apply_op, apply_single_op, is_binary_op, is_unary_op, nodes_wf, op_value, single_op_value,
    Node, Operation,
};

verus! {

/// An opaque handle to one entry of the capture session's node log.
#[derive(Debug, Default, Clone, Copy, PartialEq, Eq, Structural)]
pub struct FrElement(pub usize);

/// A handle that no log entry carries yet.
pub fn undefined() -> (r: FrElement)
    ensures
        r.0 == usize::MAX,
{
    FrElement(usize::MAX)
}

/// Creates a buffer of not-yet-assigned handles.
pub fn create_vec(len: usize) -> (r: Vec<FrElement>)
    ensures
        r@.len() == len,
        forall|i: int| 0 <= i < len ==> (#[trigger] r@[i]).0 == usize::MAX,
{
    let mut v: Vec<FrElement> = Vec::new();
    let mut i: usize = 0;
    while i < len
        invariant
            i <= len,
            v@.len() == i,
            forall|j: int| 0 <= j < i ==> (#[trigger] v@[j]).0 == usize::MAX,
        decreases len - i,
    {
        v.push(FrElement(usize::MAX));
        i += 1;
    }
    v
}

pub fn create_vec_u32(len: usize) -> (r: Vec<u32>)
    ensures
        r@.len() == len,
        forall|i: int| 0 <= i < len ==> #[trigger] r@[i] == 0u32,
{
    let mut v: Vec<u32> = Vec::new();
    let mut i: usize = 0;
    while i < len
        invariant
            i <= len,
            v@.len() == i,
            forall|j: int| 0 <= j < i ==> #[trigger] v@[j] == 0u32,
        decreases len - i,
    {
        v.push(0);
        i += 1;
    }
    v
}

/// The capture session's constant-flag and folded-value invariant: flags
/// respect the node structure (a node is constant exactly when all its
/// operands are), and each constant node stores the value its operation
/// yields over its operands' stored values.
pub open spec fn fold_ok(nodes: Seq<Node>, values: Seq<Uint256>, constant: Seq<bool>) -> bool {
    forall|i: int|
        0 <= i < nodes.len() ==> match #[trigger] nodes[i] {
            Node::Constant(c) => constant[i] && values[i] == c,
            Node::Input(_) => !constant[i],
            Node::Op(op, a, b) => constant[i] == (constant[a as int] && constant[b as int]) && (
            constant[i] ==> Some(values[i]) == op_value(op, values[a as int], values[b as int])),
            Node::SingleOp(op, a) => constant[i] == constant[a as int] && (constant[i] ==> Some(
                values[i],
            ) == single_op_value(op, values[a as int])),
            Node::Select(_, _, _) => !constant[i],
        }
}

/// The in-progress capture session: node log, value cache, constant flags,
/// and the state of the conditional-select protocol. At most one branch may
/// be pending; `stash` holds the first merged path value while armed.
pub struct TraceStore {
    pub nodes: Vec<Node>,
    pub values: Vec<Uint256>,
    pub constant: Vec<bool>,
    pub branch_cond: Option<usize>,
    pub armed: bool,
    pub stash: usize,
}

impl TraceStore {
    /// Session validity: the log is a forward-referencing DAG, the caches
    /// stay index-aligned, folding is correct, and branch bookkeeping points
    /// into the log.
    pub open spec fn wf(&self) -> bool {
        &&& nodes_wf(self.nodes@)
        &&& self.values@.len() == self.nodes@.len()
        &&& self.constant@.len() == self.nodes@.len()
        &&& fold_ok(self.nodes@, self.values@, self.constant@)
        &&& match self.branch_cond {
            Some(c) => (c as int) < self.nodes@.len(),
            None => !self.armed,
        }
        &&& (self.armed ==> (self.stash as int) < self.nodes@.len())
    }

    pub open spec fn log(&self) -> Seq<Node> {
        self.nodes@
    }

    pub open spec fn cache(&self) -> Seq<Uint256> {
        self.values@
    }

    pub open spec fn flags(&self) -> Seq<bool> {
        self.constant@
    }

    /// Whether a conditional branch is pending or armed.
    pub open spec fn branch_idle(&self) -> bool {
        self.branch_cond is None && !self.armed
    }

    /// An empty session with no pending branch.
    pub fn new() -> (r: TraceStore)
        ensures
            r.wf(),
            r.log().len() == 0,
            r.branch_idle(),
    {
        TraceStore {
            nodes: Vec::new(),
            values: Vec::new(),
            constant: Vec::new(),
            branch_cond: None,
            armed: false,
            stash: 0,
        }
    }

    pub fn len(&self) -> (r: usize)
        ensures
            r == self.log().len(),
    {
        self.nodes.len()
    }

    /// A copy of the node log captured so far.
    pub fn get_graph(&self) -> (r: Vec<Node>)
        ensures
            r@ == self.log(),
    {
        let n = self.nodes.len();
        let mut out: Vec<Node> = Vec::new();
        let mut i: usize = 0;
        while i < n
            invariant
                n == self.nodes@.len(),
                i <= n,
                out@ == self.nodes@.subrange(0, i as int),
            decreases n - i,
        {
            out.push(self.nodes[i]);
            proof {
                assert(out@ =~= self.nodes@.subrange(0, i + 1));
            }
            i += 1;
        }
        proof {
            assert(self.nodes@.subrange(0, n as int) =~= self.nodes@);
        }
        out
    }

    /// A copy of the value cache captured so far.
    pub fn get_values(&self) -> (r: Vec<Uint256>)
        ensures
            r@ == self.cache(),
    {
        let n = self.values.len();
        let mut out: Vec<Uint256> = Vec::new();
        let mut i: usize = 0;
        while i < n
            invariant
                n == self.values@.len(),
                i <= n,
                out@ == self.values@.subrange(0, i as int),
            decreases n - i,
        {
            out.push(self.values[i]);
            proof {
                assert(out@ =~= self.values@.subrange(0, i + 1));
            }
            i += 1;
        }
        proof {
            assert(self.values@.subrange(0, n as int) =~= self.values@);
        }
        out
    }

    /// Records a field element known at capture time.
    pub fn constant(&mut self, c: Uint256) -> (r: FrElement)
        requires
            old(self).wf(),
        ensures
            final(self).wf(),
            r.0 == old(self).log().len(),
            final(self).log() == old(self).log().push(Node::Constant(c)),
            final(self).cache() == old(self).cache().push(c),
            final(self).flags() == old(self).flags().push(true),
            final(self).branch_cond == old(self).branch_cond,
            final(self).armed == old(self).armed,
            final(self).stash == old(self).stash,
    {
        let h = self.nodes.len();
        self.nodes.push(Node::Constant(c));
        self.values.push(c);
        self.constant.push(true);
        FrElement(h)
    }

    /// Records a placeholder for one slot of the flat input buffer, with the
    /// value it carried during capture.
    pub fn input(&mut self, i: usize, value: Uint256) -> (r: FrElement)
        requires
            old(self).wf(),
        ensures
            final(self).wf(),
            r.0 == old(self).log().len(),
            final(self).log() == old(self).log().push(Node::Input(i)),
            final(self).cache() == old(self).cache().push(value),
            final(self).flags() == old(self).flags().push(false),
            final(self).branch_cond == old(self).branch_cond,
            final(self).armed == old(self).armed,
            final(self).stash == old(self).stash,
    {
        let h = self.nodes.len();
        self.nodes.push(Node::Input(i));
        self.values.push(value);
        self.constant.push(false);
        FrElement(h)
    }
}

/// What recording one binary operation does to a session: exactly one node
/// is appended; it is flagged constant when both operands are, and then its
/// folded value is cached; folding a division-family operation on a zero
/// divisor fails and leaves the session unchanged.
pub open spec fn binop_post(
    pre: TraceStore,
    post: TraceStore,
    op: Operation,
    a: FrElement,
    b: FrElement,
    r: Result<FrElement, WitnessError>,
) -> bool {
    match r {
        Ok(h) => {
            &&& h.0 == pre.log().len()
            &&& post.log() == pre.log().push(Node::Op(op, a.0, b.0))
            &&& post.flags() == pre.flags().push(pre.flags()[a.0 as int] && pre.flags()[b.0 as int])
            &&& (if pre.flags()[a.0 as int] && pre.flags()[b.0 as int] {
                Some(post.cache().last()) == op_value(
                    op,
                    pre.cache()[a.0 as int],
                    pre.cache()[b.0 as int],
                )
            } else {
                u256_nat(post.cache().last()) == 0
            })
            &&& post.cache().len() == pre.cache().len() + 1
            &&& post.cache().subrange(0, pre.cache().len() as int) == pre.cache()
            &&& post.branch_cond == pre.branch_cond
            &&& post.armed == pre.armed
            &&& post.stash == pre.stash
        },
        Err(e) => {
            &&& e == WitnessError::DivisionByZero
            &&& post == pre
            &&& pre.flags()[a.0 as int] && pre.flags()[b.0 as int]
            &&& op_value(op, pre.cache()[a.0 as int], pre.cache()[b.0 as int]) is None
        },
    }
}

/// What recording one unary operation does to a session.
pub open spec fn single_op_post(
    pre: TraceStore,
    post: TraceStore,
    op: Operation,
    a: FrElement,
    r: FrElement,
) -> bool {
    &&& r.0 == pre.log().len()
    &&& post.log() == pre.log().push(Node::SingleOp(op, a.0))
    &&& post.flags() == pre.flags().push(pre.flags()[a.0 as int])
    &&& (if pre.flags()[a.0 as int] {
        Some(post.cache().last()) == single_op_value(op, pre.cache()[a.0 as int])
    } else {
        u256_nat(post.cache().last()) == 0
    })
    &&& post.cache().len() == pre.cache().len() + 1
    &&& post.cache().subrange(0, pre.cache().len() as int) == pre.cache()
    &&& post.branch_cond == pre.branch_cond
    &&& post.armed == pre.armed
    &&& post.stash == pre.stash
}

impl TraceStore {
    /// Appends one binary operation node, folding it when both operands are
    /// constant.
    fn binop(&mut self, op: Operation, a: FrElement, b: FrElement) -> (r: Result<
        FrElement,
        WitnessError,
    >)
        requires
            old(self).wf(),
            is_binary_op(op),
            a.0 < old(self).log().len(),
            b.0 < old(self).log().len(),
        ensures
            final(self).wf(),
            binop_post(*old(self), *final(self), op, a, b, r),
    {
        let h = self.nodes.len();
        let ca = self.constant[a.0];
        let cb = self.constant[b.0];
        let v: Uint256;
        if ca && cb {
            let x = self.values[a.0];
            let y = self.values[b.0];
            match apply_op(op, &x, &y) {
                Ok(w) => {
                    v = w;
                },
                Err(e) => {
                    return Err(e);
                },
            }
        } else {
            v = crate::field::u256_zero();
        }
        self.nodes.push(Node::Op(op, a.0, b.0));
        self.values.push(v);
        self.constant.push(ca && cb);
        proof {
            assert(self.values@.subrange(0, old(self).cache().len() as int) =~= old(self).cache());
        }
        Ok(FrElement(h))
    }

    /// Appends one unary operation node, folding it when its operand is
    /// constant.
    fn single_op(&mut self, op: Operation, a: FrElement) -> (r: FrElement)
        requires
            old(self).wf(),
            is_unary_op(op),
            a.0 < old(self).log().len(),
        ensures
            final(self).wf(),
            single_op_post(*old(self), *final(self), op, a, r),
    {
        let h = self.nodes.len();
        let ca = self.constant[a.0];
        let v: Uint256;
        if ca {
            let x = self.values[a.0];
            match apply_single_op(op, &x) {
                Ok(w) => {
                    v = w;
                },
                Err(_) => {
                    // Unreachable: unary operations always fold.
                    v = crate::field::u256_zero();
                },
            }
        } else {
            v = crate::field::u256_zero();
        }
        self.nodes.push(Node::SingleOp(op, a.0));
        self.values.push(v);
        self.constant.push(ca);
        proof {
            assert(self.values@.subrange(0, old(self).cache().len() as int) =~= old(self).cache());
        }
        FrElement(h)
    }
}


impl TraceStore {
    /// Records one mul operation.
    #[allow(nonstandard_style)]
    pub fn Fr_mul(&mut self, a: FrElement, b: FrElement) -> (r: Result<FrElement, WitnessError>)
        requires
            old(self).wf(),
            a.0 < old(self).log().len(),
            b.0 < old(self).log().len(),
        ensures
            final(self).wf(),
            binop_post(*old(self), *final(self), Operation::Mul, a, b, r),
    {
        self.binop(Operation::Mul, a, b)
    }

    /// Records one div operation.
    #[allow(nonstandard_style)]
    pub fn Fr_div(&mut self, a: FrElement, b: FrElement) -> (r: Result<FrElement, WitnessError>)
        requires
            old(self).wf(),
            a.0 < old(self).log().len(),
            b.0 < old(self).log().len(),
        ensures
            final(self).wf(),
            binop_post(*old(self), *final(self), Operation::Div, a, b, r),
    {
        self.binop(Operation::Div, a, b)
    }

    /// Records one add operation.
    #[allow(nonstandard_style)]
    pub fn Fr_add(&mut self, a: FrElement, b: FrElement) -> (r: Result<FrElement, WitnessError>)
        requires
            old(self).wf(),
            a.0 < old(self).log().len(),
            b.0 < old(self).log().len(),
        ensures
            final(self).wf(),
            binop_post(*old(self), *final(self), Operation::Add, a, b, r),
    {
        self.binop(Operation::Add, a, b)
    }

    /// Records one sub operation.
    #[allow(nonstandard_style)]
    pub fn Fr_sub(&mut self, a: FrElement, b: FrElement) -> (r: Result<FrElement, WitnessError>)
        requires
            old(self).wf(),
            a.0 < old(self).log().len(),
            b.0 < old(self).log().len(),
        ensures
            final(self).wf(),
            binop_post(*old(self), *final(self), Operation::Sub, a, b, r),
    {
        self.binop(Operation::Sub, a, b)
    }

    /// Records one pow operation.
    #[allow(nonstandard_style)]
    pub fn Fr_pow(&mut self, a: FrElement, b: FrElement) -> (r: Result<FrElement, WitnessError>)
        requires
            old(self).wf(),
            a.0 < old(self).log().len(),
            b.0 < old(self).log().len(),
        ensures
            final(self).wf(),
            binop_post(*old(self), *final(self), Operation::Pow, a, b, r),
    {
        self.binop(Operation::Pow, a, b)
    }

    /// Records one idiv operation.
    #[allow(nonstandard_style)]
    pub fn Fr_idiv(&mut self, a: FrElement, b: FrElement) -> (r: Result<FrElement, WitnessError>)
        requires
            old(self).wf(),
            a.0 < old(self).log().len(),
            b.0 < old(self).log().len(),
        ensures
            final(self).wf(),
            binop_post(*old(self), *final(self), Operation::Idiv, a, b, r),
    {
        self.binop(Operation::Idiv, a, b)
    }

    /// Records one mod operation.
    #[allow(nonstandard_style)]
    pub fn Fr_mod(&mut self, a: FrElement, b: FrElement) -> (r: Result<FrElement, WitnessError>)
        requires
            old(self).wf(),
            a.0 < old(self).log().len(),
            b.0 < old(self).log().len(),
        ensures
            final(self).wf(),
            binop_post(*old(self), *final(self), Operation::Mod, a, b, r),
    {
        self.binop(Operation::Mod, a, b)
    }

    /// Records one eq operation.
    #[allow(nonstandard_style)]
    pub fn Fr_eq(&mut self, a: FrElement, b: FrElement) -> (r: Result<FrElement, WitnessError>)
        requires
            old(self).wf(),
            a.0 < old(self).log().len(),
            b.0 < old(self).log().len(),
        ensures
            final(self).wf(),
            binop_post(*old(self), *final(self), Operation::Eq, a, b, r),
    {
        self.binop(Operation::Eq, a, b)
    }

    /// Records one neq operation.
    #[allow(nonstandard_style)]
    pub fn Fr_neq(&mut self, a: FrElement, b: FrElement) -> (r: Result<FrElement, WitnessError>)
        requires
            old(self).wf(),
            a.0 < old(self).log().len(),
            b.0 < old(self).log().len(),
        ensures
            final(self).wf(),
            binop_post(*old(self), *final(self), Operation::Neq, a, b, r),
    {
        self.binop(Operation::Neq, a, b)
    }

    /// Records one lt operation.
    #[allow(nonstandard_style)]
    pub fn Fr_lt(&mut self, a: FrElement, b: FrElement) -> (r: Result<FrElement, WitnessError>)
        requires
            old(self).wf(),
            a.0 < old(self).log().len(),
            b.0 < old(self).log().len(),
        ensures
            final(self).wf(),
            binop_post(*old(self), *final(self), Operation::Lt, a, b, r),
    {
        self.binop(Operation::Lt, a, b)
    }

    /// Records one gt operation.
    #[allow(nonstandard_style)]
    pub fn Fr_gt(&mut self, a: FrElement, b: FrElement) -> (r: Result<FrElement, WitnessError>)
        requires
            old(self).wf(),
            a.0 < old(self).log().len(),
            b.0 < old(self).log().len(),
        ensures
            final(self).wf(),
            binop_post(*old(self), *final(self), Operation::Gt, a, b, r),
    {
        self.binop(Operation::Gt, a, b)
    }

    /// Records one leq operation.
    #[allow(nonstandard_style)]
    pub fn Fr_leq(&mut self, a: FrElement, b: FrElement) -> (r: Result<FrElement, WitnessError>)
        requires
            old(self).wf(),
            a.0 < old(self).log().len(),
            b.0 < old(self).log().len(),
        ensures
            final(self).wf(),
            binop_post(*old(self), *final(self), Operation::Leq, a, b, r),
    {
        self.binop(Operation::Leq, a, b)
    }

    /// Records one geq operation.
    #[allow(nonstandard_style)]
    pub fn Fr_geq(&mut self, a: FrElement, b: FrElement) -> (r: Result<FrElement, WitnessError>)
        requires
            old(self).wf(),
            a.0 < old(self).log().len(),
            b.0 < old(self).log().len(),
        ensures
            final(self).wf(),
            binop_post(*old(self), *final(self), Operation::Geq, a, b, r),
    {
        self.binop(Operation::Geq, a, b)
    }

    /// Records one land operation.
    #[allow(nonstandard_style)]
    pub fn Fr_land(&mut self, a: FrElement, b: FrElement) -> (r: Result<FrElement, WitnessError>)
        requires
            old(self).wf(),
            a.0 < old(self).log().len(),
            b.0 < old(self).log().len(),
        ensures
            final(self).wf(),
            binop_post(*old(self), *final(self), Operation::Land, a, b, r),
    {
        self.binop(Operation::Land, a, b)
    }

    /// Records one lor operation.
    #[allow(nonstandard_style)]
    pub fn Fr_lor(&mut self, a: FrElement, b: FrElement) -> (r: Result<FrElement, WitnessError>)
        requires
            old(self).wf(),
            a.0 < old(self).log().len(),
            b.0 < old(self).log().len(),
        ensures
            final(self).wf(),
            binop_post(*old(self), *final(self), Operation::Lor, a, b, r),
    {
        self.binop(Operation::Lor, a, b)
    }

    /// Records one shl operation.
    #[allow(nonstandard_style)]
    pub fn Fr_shl(&mut self, a: FrElement, b: FrElement) -> (r: Result<FrElement, WitnessError>)
        requires
            old(self).wf(),
            a.0 < old(self).log().len(),
            b.0 < old(self).log().len(),
        ensures
            final(self).wf(),
            binop_post(*old(self), *final(self), Operation::Shl, a, b, r),
    {
        self.binop(Operation::Shl, a, b)
    }

    /// Records one shr operation.
    #[allow(nonstandard_style)]
    pub fn Fr_shr(&mut self, a: FrElement, b: FrElement) -> (r: Result<FrElement, WitnessError>)
        requires
            old(self).wf(),
            a.0 < old(self).log().len(),
            b.0 < old(self).log().len(),
        ensures
            final(self).wf(),
            binop_post(*old(self), *final(self), Operation::Shr, a, b, r),
    {
        self.binop(Operation::Shr, a, b)
    }

    /// Records one band operation.
    #[allow(nonstandard_style)]
    pub fn Fr_band(&mut self, a: FrElement, b: FrElement) -> (r: Result<FrElement, WitnessError>)
        requires
            old(self).wf(),
            a.0 < old(self).log().len(),
            b.0 < old(self).log().len(),
        ensures
            final(self).wf(),
            binop_post(*old(self), *final(self), Operation::Band, a, b, r),
    {
        self.binop(Operation::Band, a, b)
    }

    /// Records one bor operation.
    #[allow(nonstandard_style)]
    pub fn Fr_bor(&mut self, a: FrElement, b: FrElement) -> (r: Result<FrElement, WitnessError>)
        requires
            old(self).wf(),
            a.0 < old(self).log().len(),
            b.0 < old(self).log().len(),
        ensures
            final(self).wf(),
            binop_post(*old(self), *final(self), Operation::Bor, a, b, r),
    {
        self.binop(Operation::Bor, a, b)
    }

    /// Records one bxor operation.
    #[allow(nonstandard_style)]
    pub fn Fr_bxor(&mut self, a: FrElement, b: FrElement) -> (r: Result<FrElement, WitnessError>)
        requires
            old(self).wf(),
            a.0 < old(self).log().len(),
            b.0 < old(self).log().len(),
        ensures
            final(self).wf(),
            binop_post(*old(self), *final(self), Operation::Bxor, a, b, r),
    {
        self.binop(Operation::Bxor, a, b)
    }

    /// Records one neg operation.
    #[allow(nonstandard_style)]
    pub fn Fr_neg(&mut self, a: FrElement) -> (r: FrElement)
        requires
            old(self).wf(),
            a.0 < old(self).log().len(),
        ensures
            final(self).wf(),
            single_op_post(*old(self), *final(self), Operation::Neg, a, r),
    {
        self.single_op(Operation::Neg, a)
    }

    /// Records one bnot operation.
    #[allow(nonstandard_style)]
    pub fn Fr_bnot(&mut self, a: FrElement) -> (r: FrElement)
        requires
            old(self).wf(),
            a.0 < old(self).log().len(),
        ensures
            final(self).wf(),
            single_op_post(*old(self), *final(self), Operation::Bnot, a, r),
    {
        self.single_op(Operation::Bnot, a)
    }

    /// Queries whether a captured value is nonzero, as the source
    /// evaluator's control flow demands. A non-constant predicate arms the
    /// conditional-select protocol; a second predicate while one is pending
    /// is unsupported and fails explicitly.
    #[allow(nonstandard_style)]
    pub fn Fr_isTrue(&mut self, a: FrElement) -> (r: Result<bool, WitnessError>)
        requires
            old(self).wf(),
            a.0 < old(self).log().len(),
        ensures
            final(self).wf(),
            final(self).log() == old(self).log(),
            final(self).cache() == old(self).cache(),
            final(self).flags() == old(self).flags(),
            match r {
                Ok(v) => v == (u256_nat(old(self).cache()[a.0 as int]) != 0) && (
                if old(self).flags()[a.0 as int] {
                    *final(self) == *old(self)
                } else {
                    old(self).branch_cond is None && final(self).branch_cond == Some(a.0)
                        && final(self).armed == old(self).armed && final(self).stash == old(self).stash
                }),
                Err(e) => e == WitnessError::UnsupportedBranch && *final(self) == *old(self)
                    && !old(self).flags()[a.0 as int] && old(self).branch_cond is Some,
            },
    {
        let v = !crate::field::u256_is_zero(&self.values[a.0]);
        if self.constant[a.0] {
            Ok(v)
        } else {
            match self.branch_cond {
                Some(_) => Err(WitnessError::UnsupportedBranch),
                None => {
                    self.branch_cond = Some(a.0);
                    Ok(v)
                },
            }
        }
    }

    /// Records a conditional copy: outside a pending branch it is a plain
    /// handle copy; with a branch pending, the first call stashes the first
    /// path's value and the second emits a single select node over the
    /// discriminator and the two path values, then disarms.
    #[allow(nonstandard_style)]
    pub fn Fr_copy(&mut self, _to: FrElement, a: FrElement) -> (r: FrElement)
        requires
            old(self).wf(),
            a.0 < old(self).log().len(),
        ensures
            final(self).wf(),
            match old(self).branch_cond {
                None => r == a && *final(self) == *old(self),
                Some(c) => if !old(self).armed {
                    r == a && final(self).armed && final(self).stash == a.0 && final(self).branch_cond == Some(c) && final(self).log() == old(self).log() && final(self).cache() == old(self).cache() && final(self).flags() == old(self).flags()
                } else {
                    &&& r.0 == old(self).log().len()
                    &&& final(self).log() == old(self).log().push(
                        Node::Select(c, old(self).stash, a.0),
                    )
                    &&& final(self).cache().len() == old(self).cache().len() + 1
                    &&& final(self).cache().subrange(0, old(self).cache().len() as int) == old(self).cache()
                    &&& final(self).flags() == old(self).flags().push(false)
                    &&& final(self).branch_idle()
                },
            },
    {
        match self.branch_cond {
            None => a,
            Some(c) => {
                if !self.armed {
                    self.armed = true;
                    self.stash = a.0;
                    a
                } else {
                    let h = self.nodes.len();
                    self.nodes.push(Node::Select(c, self.stash, a.0));
                    self.values.push(crate::field::u256_zero());
                    self.constant.push(false);
                    self.branch_cond = None;
                    self.armed = false;
                    proof {
                        assert(self.values@.subrange(0, old(self).cache().len() as int) =~= old(self).cache());
                    }
                    FrElement(h)
                }
            },
        }
    }

    /// Converts a handle's captured value to a 64-bit integer, defaulting to
    /// zero where it does not fit.
    #[allow(nonstandard_style)]
    pub fn Fr_toInt(&self, a: FrElement) -> (r: u64)
        requires
            self.wf(),
            a.0 < self.log().len(),
        ensures
            r == (if u256_nat(self.cache()[a.0 as int]) < 0x10000000000000000 {
                u256_nat(self.cache()[a.0 as int])
            } else {
                0
            }),
    {
        let v = self.values[a.0];
        if v.w1 == 0 && v.w2 == 0 && v.w3 == 0 {
            v.w0
        } else {
            proof {
                assert(u256_nat(v) >= 0x10000000000000000);
            }
            0
        }
    }

    /// The assertion hook of the capture boundary. Captured assertions are
    /// not enforced: this is a known gap of the observed design, kept as a
    /// placeholder.
    #[allow(nonstandard_style)]
    pub fn Fr_assert(&self, _s: bool) {
    }
}


/// Projects the witness-to-signal list through the captured handle table:
/// entry k becomes the node handle the k-th witness slot's signal received
/// during capture. A slot outside the table is an error.
pub fn project_signals(signal_list: &Vec<usize>, handles: &Vec<FrElement>) -> (r: Result<
    Vec<usize>,
    WitnessError,
>)
    ensures
        match r {
            Ok(s) => s@.len() == signal_list@.len() && (forall|k: int|
                0 <= k < signal_list@.len() ==> (#[trigger] signal_list@[k] as int)
                    < handles@.len() && s@[k] == handles@[signal_list@[k] as int].0),
            Err(e) => e == WitnessError::InputOutOfRange && exists|k: int|
                0 <= k < signal_list@.len() && (#[trigger] signal_list@[k] as int)
                    >= handles@.len(),
        },
{
    let n = signal_list.len();
    let mut out: Vec<usize> = Vec::new();
    let mut k: usize = 0;
    while k < n
        invariant
            n == signal_list@.len(),
            k <= n,
            out@.len() == k,
            forall|k2: int|
                0 <= k2 < k ==> (#[trigger] signal_list@[k2] as int) < handles@.len()
                    && out@[k2] == handles@[signal_list@[k2] as int].0,
        decreases n - k,
    {
        let s = signal_list[k];
        if s >= handles.len() {
            return Err(WitnessError::InputOutOfRange);
        }
        out.push(handles[s].0);
        k += 1;
    }
    Ok(out)
}

/// The decimal digit character for d < 10.
pub open spec fn digit_char(d: nat) -> char {
    if d == 0 {
        '0'
    } else if d == 1 {
        '1'
    } else if d == 2 {
        '2'
    } else if d == 3 {
        '3'
    } else if d == 4 {
        '4'
    } else if d == 5 {
        '5'
    } else if d == 6 {
        '6'
    } else if d == 7 {
        '7'
    } else if d == 8 {
        '8'
    } else {
        '9'
    }
}

/// The decimal digits of n, most significant first.
pub open spec fn dec_chars(n: nat) -> Seq<char>
    decreases n,
{
    if n < 10 {
        seq![digit_char(n)]
    } else {
        dec_chars(n / 10).push(digit_char(n % 10))
    }
}

/// A bracketed decimal position, as the capture boundary prints one
/// array subscript.
pub open spec fn bracket_chars(n: nat) -> Seq<char> {
    seq!['['] + dec_chars(n) + seq![']']
}

/// The position string after consuming i of sd dimensions: each step
/// prepends the bracketed remainder by the next dimension, scanning the
/// dimension list from its end.
pub open spec fn pos_from(acc: Seq<char>, dims: Seq<u32>, sd: int, i: int, idx: nat) -> Seq<char>
    decreases sd - i,
{
    if i < 0 || i >= sd || sd > dims.len() {
        acc
    } else {
        pos_from(
            bracket_chars(idx % (dims[sd - 1 - i] as nat)) + acc,
            dims,
            sd,
            i + 1,
            idx / (dims[sd - 1 - i] as nat),
        )
    }
}

fn digit_str(d: u32) -> (r: &'static str)
    requires
        d < 10,
    ensures
        r@ == seq![digit_char(d as nat)],
{
    proof {
        reveal_strlit("0");
        reveal_strlit("1");
        reveal_strlit("2");
        reveal_strlit("3");
        reveal_strlit("4");
        reveal_strlit("5");
        reveal_strlit("6");
        reveal_strlit("7");
        reveal_strlit("8");
        reveal_strlit("9");
    }
    match d {
        0 => "0",
        1 => "1",
        2 => "2",
        3 => "3",
        4 => "4",
        5 => "5",
        6 => "6",
        7 => "7",
        8 => "8",
        _ => "9",
    }
}

/// The decimal rendering of a 32-bit value.
fn num_string(n: u32) -> (r: String)
    ensures
        r@ == dec_chars(n as nat),
{
    let mut s = String::from_str(digit_str(n % 10));
    let mut m = n / 10;
    proof {
        if m == 0 {
            assert(dec_chars(n as nat) =~= seq![digit_char((n % 10) as nat)]);
        }
    }
    while m > 0
        invariant
            (if m == 0 {
                s@ == dec_chars(n as nat)
            } else {
                dec_chars(n as nat) == dec_chars(m as nat) + s@
            }),
        decreases m,
    {
        let d = m % 10;
        let ghost sold = s@;
        let ghost mold = m as nat;
        s = String::from_str(digit_str(d)).concat(s.as_str());
        m = m / 10;
        proof {
            assert(dec_chars(mold) == (if mold < 10 {
                seq![digit_char(mold)]
            } else {
                dec_chars(mold / 10).push(digit_char(mold % 10))
            }));
            if m == 0 {
                assert(s@ =~= dec_chars(mold) + sold);
            } else {
                assert(dec_chars(mold / 10).push(digit_char(mold % 10)) + sold =~= dec_chars(
                    mold / 10,
                ) + (seq![digit_char(mold % 10)] + sold));
            }
        }
    }
    s
}

fn bracket_string(n: u32) -> (r: String)
    ensures
        r@ == bracket_chars(n as nat),
{
    proof {
        reveal_strlit("[");
        reveal_strlit("]");
    }
    let digits = num_string(n);
    let open_str = String::from_str("[");
    let r = open_str.concat(digits.as_str()).concat("]");
    proof {
        assert(r@ =~= bracket_chars(n as nat));
    }
    r
}

/// Renders an array position for the capture boundary's diagnostics: the
/// subscripts of the given flat index under the trailing `size_dimensions`
/// entries of the dimension list, prepended to the prefix.
pub fn generate_position_array(
    prefix: String,
    dimensions: Vec<u32>,
    size_dimensions: u32,
    index: u32,
) -> (r: String)
    requires
        size_dimensions as int <= dimensions@.len(),
        forall|j: int|
            0 <= j < size_dimensions ==> #[trigger] dimensions@[j] > 0,
    ensures
        r@ == pos_from(prefix@, dimensions@, size_dimensions as int, 0, index as nat),
{
    let ghost gdims = dimensions@;
    let ghost sd = size_dimensions as int;
    let mut positions = prefix;
    let mut idx = index;
    let mut i: u32 = 0;
    while i < size_dimensions
        invariant
            gdims == dimensions@,
            sd == size_dimensions as int,
            sd <= gdims.len(),
            forall|j: int| 0 <= j < sd ==> #[trigger] gdims[j] > 0,
            i <= size_dimensions,
            pos_from(prefix@, gdims, sd, 0, index as nat) == pos_from(
                positions@,
                gdims,
                sd,
                i as int,
                idx as nat,
            ),
        decreases size_dimensions - i,
    {
        let d = dimensions[(size_dimensions - 1 - i) as usize];
        let last_pos = idx % d;
        idx = idx / d;
        let new_pos = bracket_string(last_pos);
        positions = new_pos.concat(positions.as_str());
        i += 1;
    }
    positions
}

} // verus!


