//! Liveness pruning: given the declared output signals, the optimizer keeps
//! exactly the nodes transitively reachable via operand edges, renumbers them
//! densely in their original relative order, and rewrites every operand and
//! signal reference. Evaluation of the declared signals is unchanged.

use vstd::prelude::*;

use crate::field::Uint256;
use crate::graph::{
    Node, first_err, node_wf, nodes_wf, val_at,
};

verus! {

/// Whether node n holds a direct operand edge to handle o.
pub open spec fn references(n: Node, o: int) -> bool {
    match n {
        Node::Constant(_) => false,
        Node::Input(_) => false,
        Node::Op(_, a, b) => o == a || o == b,
        Node::SingleOp(_, a) => o == a,
        Node::Select(c, t, f) => o == c || o == t || o == f,
    }
}

/// Whether handle j is reachable from handle i along operand edges.
pub open spec fn depends_on(nodes: Seq<Node>, i: int, j: int) -> bool
    decreases i,
{
    if i == j {
        true
    } else if 0 <= i && i < nodes.len() {
        exists|o: int|
            0 <= o < i && #[trigger] references(nodes[i], o) && depends_on(nodes, o, j)
    } else {
        false
    }
}

/// Whether handle j feeds at least one declared signal.
pub open spec fn reachable_from_signals(nodes: Seq<Node>, sigs: Seq<usize>, j: int) -> bool {
    exists|k: int| 0 <= k < sigs.len() && depends_on(nodes, #[trigger] sigs[k] as int, j)
}

/// The node with every operand handle sent through the renumbering table.
pub open spec fn remap_node(n: Node, idx: Seq<usize>) -> Node {
    match n {
        Node::Constant(c) => Node::Constant(c),
        Node::Input(j) => Node::Input(j),
        Node::Op(op, a, b) => Node::Op(op, idx[a as int], idx[b as int]),
        Node::SingleOp(op, a) => Node::SingleOp(op, idx[a as int]),
        Node::Select(c, t, f) => Node::Select(idx[c as int], idx[t as int], idx[f as int]),
    }
}

/// How many of the first i liveness flags are set.
pub open spec fn count_live(live: Seq<bool>, i: int) -> nat
    decreases i,
{
    if i <= 0 {
        0
    } else {
        count_live(live, i - 1) + if live[i - 1] {
            1nat
        } else {
            0nat
        }
    }
}

proof fn lemma_count_live_mono(live: Seq<bool>, a: int, b: int)
    requires
        a <= b,
    ensures
        count_live(live, a) <= count_live(live, b),
    decreases b - a,
{
    if a < b {
        lemma_count_live_mono(live, a, b - 1);
    }
}

proof fn lemma_count_live_bound(live: Seq<bool>, i: int)
    ensures
        count_live(live, i) <= (if i >= 0 {
            i
        } else {
            0
        }),
    decreases i,
{
    if i > 0 {
        lemma_count_live_bound(live, i - 1);
    }
}

/// The relation between the original log, the pruned log, the liveness
/// flags, the renumbering table and the owner table (new handle back to the
/// old handle it came from) that the rebuild loop establishes.
pub open spec fn remap_ok(
    old: Seq<Node>,
    new: Seq<Node>,
    live: Seq<bool>,
    idx: Seq<usize>,
    owners: Seq<int>,
) -> bool {
    &&& live.len() == old.len()
    &&& idx.len() == old.len()
    &&& owners.len() == new.len()
    &&& nodes_wf(old)
    &&& forall|i: int, o: int|
        0 <= i < old.len() && live[i] && 0 <= o < i && #[trigger] references(old[i], o)
            ==> live[o]
    &&& forall|i: int|
        0 <= i < old.len() && #[trigger] live[i] ==> (idx[i] as int) < new.len() && new[idx[i] as int]
            == remap_node(old[i], idx)
    &&& forall|o: int, i: int|
        0 <= o < i < old.len() && live[o] && live[i] ==> #[trigger] idx[o] < #[trigger] idx[i]
    &&& forall|j: int|
        0 <= j < new.len() ==> 0 <= #[trigger] owners[j] < old.len() && live[owners[j]]
            && idx[owners[j]] as int == j
}

/// A kept node computes the same value at its new handle, for every input
/// buffer.
proof fn lemma_remap_val(
    old: Seq<Node>,
    new: Seq<Node>,
    live: Seq<bool>,
    idx: Seq<usize>,
    owners: Seq<int>,
    inputs: Seq<Uint256>,
    i: int,
)
    requires
        remap_ok(old, new, live, idx, owners),
        0 <= i < old.len(),
        live[i],
    ensures
        val_at(new, inputs, idx[i] as int) == val_at(old, inputs, i),
    decreases i,
{
    reveal_with_fuel(val_at, 1);
    let ni = idx[i] as int;
    assert(new[ni] == remap_node(old[i], idx));
    match old[i] {
        Node::Constant(_) => {},
        Node::Input(_) => {},
        Node::Op(op, a, b) => {
            assert(references(old[i], a as int));
            assert(references(old[i], b as int));
            lemma_remap_val(old, new, live, idx, owners, inputs, a as int);
            lemma_remap_val(old, new, live, idx, owners, inputs, b as int);
        },
        Node::SingleOp(op, a) => {
            assert(references(old[i], a as int));
            lemma_remap_val(old, new, live, idx, owners, inputs, a as int);
        },
        Node::Select(c, t, f) => {
            assert(references(old[i], c as int));
            assert(references(old[i], t as int));
            assert(references(old[i], f as int));
            lemma_remap_val(old, new, live, idx, owners, inputs, c as int);
            lemma_remap_val(old, new, live, idx, owners, inputs, t as int);
            lemma_remap_val(old, new, live, idx, owners, inputs, f as int);
        },
    }
}

/// The pruned log keeps the forward-reference invariant.
proof fn lemma_remap_wf(
    old: Seq<Node>,
    new: Seq<Node>,
    live: Seq<bool>,
    idx: Seq<usize>,
    owners: Seq<int>,
)
    requires
        remap_ok(old, new, live, idx, owners),
    ensures
        nodes_wf(new),
{
    assert forall|j: int| 0 <= j < new.len() implies node_wf(#[trigger] new[j], j) by {
        let i = owners[j];
        assert(new[j] == remap_node(old[i], idx));
        assert(node_wf(old[i], i));
        match old[i] {
            Node::Constant(_) => {},
            Node::Input(_) => {},
            Node::Op(op, a, b) => {
                assert(references(old[i], a as int));
                assert(references(old[i], b as int));
                assert(idx[a as int] < idx[i]);
                assert(idx[b as int] < idx[i]);
            },
            Node::SingleOp(op, a) => {
                assert(references(old[i], a as int));
                assert(idx[a as int] < idx[i]);
            },
            Node::Select(c, t, f) => {
                assert(references(old[i], c as int));
                assert(references(old[i], t as int));
                assert(references(old[i], f as int));
                assert(idx[c as int] < idx[i]);
                assert(idx[t as int] < idx[i]);
                assert(idx[f as int] < idx[i]);
            },
        }
    }
}

proof fn lemma_first_err_from_all_some(nodes: Seq<Node>, inputs: Seq<Uint256>, n: int)
    requires
        forall|j: int| 0 <= j < n ==> #[trigger] val_at(nodes, inputs, j) is Some,
    ensures
        first_err(nodes, inputs, n) is None,
    decreases n,
{
    if n > 0 {
        lemma_first_err_from_all_some(nodes, inputs, n - 1);
    }
}

/// When the original log evaluates fully, so does the pruned one.
proof fn lemma_remap_total(
    old: Seq<Node>,
    new: Seq<Node>,
    live: Seq<bool>,
    idx: Seq<usize>,
    owners: Seq<int>,
    inputs: Seq<Uint256>,
)
    requires
        remap_ok(old, new, live, idx, owners),
        first_err(old, inputs, old.len() as int) is None,
    ensures
        first_err(new, inputs, new.len() as int) is None,
{
    crate::graph::lemma_first_err_none(old, inputs, old.len() as int);
    assert forall|j: int| 0 <= j < new.len() implies #[trigger] val_at(new, inputs, j) is Some by {
        lemma_remap_val(old, new, live, idx, owners, inputs, owners[j]);
    }
    lemma_first_err_from_all_some(new, inputs, new.len() as int);
}

/// Reaching j and stepping across one operand edge of j's parent reaches the
/// operand too.
proof fn lemma_depends_step(nodes: Seq<Node>, i: int, l: int, j: int)
    requires
        depends_on(nodes, i, l),
        0 <= l < nodes.len(),
        0 <= j < l,
        references(nodes[l], j),
    ensures
        depends_on(nodes, i, j),
    decreases i,
{
    if i == l {
        assert(references(nodes[i], j) && depends_on(nodes, j, j));
    } else {
        let o = choose|o: int|
            0 <= o < i && #[trigger] references(nodes[i], o) && depends_on(nodes, o, l);
        lemma_depends_step(nodes, o, l, j);
        assert(references(nodes[i], o) && depends_on(nodes, o, j));
    }
}

/// Every flagged handle is reachable from some declared signal, given that
/// every flag is justified by a signal or by a flagged later parent.
proof fn lemma_live_reachable(old: Seq<Node>, live: Seq<bool>, sigs: Seq<usize>, j: int)
    requires
        live.len() == old.len(),
        forall|j2: int|
            0 <= j2 < old.len() && #[trigger] live[j2] ==> (exists|k: int|
                0 <= k < sigs.len() && #[trigger] sigs[k] as int == j2) || (exists|l: int|
                j2 < l < old.len() && live[l] && #[trigger] references(old[l], j2)),
        0 <= j < old.len(),
        live[j],
    ensures
        exists|k: int| 0 <= k < sigs.len() && depends_on(old, #[trigger] sigs[k] as int, j),
    decreases old.len() - j,
{
    if exists|k: int| 0 <= k < sigs.len() && #[trigger] sigs[k] as int == j {
        let k = choose|k: int| 0 <= k < sigs.len() && #[trigger] sigs[k] as int == j;
        assert(depends_on(old, sigs[k] as int, j));
    } else {
        let l = choose|l: int| j < l < old.len() && live[l] && #[trigger] references(old[l], j);
        lemma_live_reachable(old, live, sigs, l);
        let k = choose|k: int| 0 <= k < sigs.len() && depends_on(old, #[trigger] sigs[k] as int, l);
        lemma_depends_step(old, sigs[k] as int, l, j);
        assert(0 <= k < sigs.len() && depends_on(old, sigs[k] as int, j));
    }
}

/// Reachability survives the renumbering.
proof fn lemma_depends_remap(
    old: Seq<Node>,
    new: Seq<Node>,
    live: Seq<bool>,
    idx: Seq<usize>,
    owners: Seq<int>,
    i: int,
    j: int,
)
    requires
        remap_ok(old, new, live, idx, owners),
        0 <= i < old.len(),
        0 <= j < old.len(),
        live[i],
        live[j],
        depends_on(old, i, j),
    ensures
        depends_on(new, idx[i] as int, idx[j] as int),
    decreases i,
{
    if i == j {
    } else {
        let o = choose|o: int|
            0 <= o < i && #[trigger] references(old[i], o) && depends_on(old, o, j);
        lemma_depends_remap(old, new, live, idx, owners, o, j);
        let ni = idx[i] as int;
        assert(new[ni] == remap_node(old[i], idx));
        assert(references(new[ni], idx[o] as int));
        assert(idx[o] < idx[i]);
        assert((idx[o] as int) < ni && references(new[ni], idx[o] as int) && depends_on(
            new,
            idx[o] as int,
            idx[j] as int,
        ));
    }
}

/// The liveness flags cover the signals, are closed over operand edges, and
/// every flag is justified by a signal or a flagged later parent.
pub open spec fn live_ok(nodes: Seq<Node>, sigs: Seq<usize>, live: Seq<bool>) -> bool {
    &&& live.len() == nodes.len()
    &&& forall|k: int| 0 <= k < sigs.len() ==> live[#[trigger] sigs[k] as int]
    &&& forall|i: int, o: int|
        0 <= i < nodes.len() && live[i] && 0 <= o < i && #[trigger] references(nodes[i], o)
            ==> live[o]
    &&& forall|j: int|
        0 <= j < nodes.len() && #[trigger] live[j] ==> (exists|k: int|
            0 <= k < sigs.len() && #[trigger] sigs[k] as int == j) || (exists|l: int|
            j < l < nodes.len() && live[l] && #[trigger] references(nodes[l], j))
}

/// Flags the handles transitively reachable from the signals, in one
/// backward pass over the log.
fn mark_live(nodes: &Vec<Node>, signals: &Vec<usize>) -> (live: Vec<bool>)
    requires
        nodes_wf(nodes@),
        forall|k: int|
            0 <= k < signals@.len() ==> (#[trigger] signals@[k] as int) < nodes@.len(),
    ensures
        live_ok(nodes@, signals@, live@),
{
    let ghost gnodes = nodes@;
    let ghost gsigs = signals@;
    let n = nodes.len();
    let mut live: Vec<bool> = Vec::new();
    let mut i: usize = 0;
    while i < n
        invariant
            i <= n,
            live@.len() == i,
            forall|j: int| 0 <= j < i ==> !(#[trigger] live@[j]),
        decreases n - i,
    {
        live.push(false);
        i += 1;
    }
    let mut k: usize = 0;
    let ns = signals.len();
    while k < ns
        invariant
            gnodes == nodes@,
            gsigs == signals@,
            n == gnodes.len(),
            ns == gsigs.len(),
            k <= ns,
            live@.len() == n,
            forall|k2: int| 0 <= k2 < gsigs.len() ==> (#[trigger] gsigs[k2] as int) < n,
            forall|k2: int| 0 <= k2 < k ==> live@[#[trigger] gsigs[k2] as int],
            forall|j: int|
                0 <= j < n && #[trigger] live@[j] ==> exists|k2: int|
                    0 <= k2 < gsigs.len() && #[trigger] gsigs[k2] as int == j,
        decreases ns - k,
    {
        let s = signals[k];
        live[s] = true;
        k += 1;
    }
    let mut i: usize = n;
    while i > 0
        invariant
            gnodes == nodes@,
            gsigs == signals@,
            n == gnodes.len(),
            nodes_wf(gnodes),
            i <= n,
            live@.len() == n,
            forall|k2: int| 0 <= k2 < gsigs.len() ==> live@[#[trigger] gsigs[k2] as int],
            forall|k2: int| 0 <= k2 < gsigs.len() ==> (#[trigger] gsigs[k2] as int) < n,
            forall|j: int|
                0 <= j < n && #[trigger] live@[j] ==> (exists|k2: int|
                    0 <= k2 < gsigs.len() && #[trigger] gsigs[k2] as int == j) || (exists|l: int|
                    j < l < n && live@[l] && #[trigger] references(gnodes[l], j)),
            forall|i2: int, o: int|
                i <= i2 < n && live@[i2] && 0 <= o < i2 && #[trigger] references(gnodes[i2], o)
                    ==> live@[o],
        decreases i,
    {
        i -= 1;
        if live[i] {
            let node = nodes[i];
            proof {
                assert(node_wf(gnodes[i as int], i as int));
            }
            match node {
                Node::Constant(_) => {},
                Node::Input(_) => {},
                Node::Op(_, a, b) => {
                    live[a] = true;
                    live[b] = true;
                    proof {
                        assert(references(gnodes[i as int], a as int));
                        assert(references(gnodes[i as int], b as int));
                    }
                },
                Node::SingleOp(_, a) => {
                    live[a] = true;
                    proof {
                        assert(references(gnodes[i as int], a as int));
                    }
                },
                Node::Select(c, t, f) => {
                    live[c] = true;
                    live[t] = true;
                    live[f] = true;
                    proof {
                        assert(references(gnodes[i as int], c as int));
                        assert(references(gnodes[i as int], t as int));
                        assert(references(gnodes[i as int], f as int));
                    }
                },
            }
        }
    }
    live
}

/// Builds the renumbering table: entry i counts the flagged handles before i.
fn renumber(live: &Vec<bool>) -> (r: (Vec<usize>, usize))
    ensures
        r.0@.len() == live@.len(),
        r.1 as nat == count_live(live@, live@.len() as int),
        forall|j: int|
            0 <= j < live@.len() ==> #[trigger] r.0@[j] as nat == count_live(live@, j),
{
    let ghost glive = live@;
    let n = live.len();
    let mut idx: Vec<usize> = Vec::new();
    let mut count: usize = 0;
    let mut i: usize = 0;
    while i < n
        invariant
            glive == live@,
            n == glive.len(),
            i <= n,
            idx@.len() == i,
            count == count_live(glive, i as int),
            count <= i,
            forall|j: int| 0 <= j < i ==> #[trigger] idx@[j] as nat == count_live(glive, j),
        decreases n - i,
    {
        idx.push(count);
        if live[i] {
            count += 1;
        }
        i += 1;
    }
    (idx, count)
}

/// Emits the flagged nodes in order, operands renumbered; also returns the
/// table sending each new handle back to the old handle it came from.
fn rebuild(nodes: &Vec<Node>, live: &Vec<bool>, idx: &Vec<usize>) -> (r: (
    Vec<Node>,
    Ghost<Seq<int>>,
))
    requires
        nodes_wf(nodes@),
        live@.len() == nodes@.len(),
        idx@.len() == nodes@.len(),
        forall|j: int|
            0 <= j < nodes@.len() ==> #[trigger] idx@[j] as nat == count_live(live@, j),
    ensures
        r.0@.len() == count_live(live@, nodes@.len() as int),
        r.1@.len() == r.0@.len(),
        forall|j: int|
            0 <= j < nodes@.len() && #[trigger] live@[j] ==> (idx@[j] as int) < r.0@.len()
                && r.0@[idx@[j] as int] == remap_node(nodes@[j], idx@),
        forall|j2: int|
            0 <= j2 < r.0@.len() ==> 0 <= #[trigger] r.1@[j2] < nodes@.len()
                && live@[r.1@[j2]] && idx@[r.1@[j2]] as int == j2,
{
    let ghost gnodes = nodes@;
    let ghost glive = live@;
    let ghost gidx = idx@;
    let n = nodes.len();
    let mut new_nodes: Vec<Node> = Vec::new();
    let ghost mut owners: Seq<int> = Seq::empty();
    let mut i: usize = 0;
    while i < n
        invariant
            gnodes == nodes@,
            glive == live@,
            gidx == idx@,
            n == gnodes.len(),
            nodes_wf(gnodes),
            glive.len() == n,
            gidx.len() == n,
            i <= n,
            forall|j: int| 0 <= j < n ==> #[trigger] gidx[j] as nat == count_live(glive, j),
            new_nodes@.len() == count_live(glive, i as int),
            owners.len() == new_nodes@.len(),
            forall|j: int|
                0 <= j < i && #[trigger] glive[j] ==> (gidx[j] as int) < new_nodes@.len()
                    && new_nodes@[gidx[j] as int] == remap_node(gnodes[j], gidx),
            forall|j2: int|
                0 <= j2 < new_nodes@.len() ==> 0 <= #[trigger] owners[j2] < i
                    && glive[owners[j2]] && gidx[owners[j2]] as int == j2,
        decreases n - i,
    {
        if live[i] {
            proof {
                assert(node_wf(gnodes[i as int], i as int));
                assert(new_nodes@.len() == gidx[i as int] as nat);
            }
            let node = nodes[i];
            let mapped = match node {
                Node::Constant(c) => Node::Constant(c),
                Node::Input(j) => Node::Input(j),
                Node::Op(op, a, b) => Node::Op(op, idx[a], idx[b]),
                Node::SingleOp(op, a) => Node::SingleOp(op, idx[a]),
                Node::Select(c, t, f) => Node::Select(idx[c], idx[t], idx[f]),
            };
            proof {
                assert(mapped == remap_node(gnodes[i as int], gidx));
                owners = owners.push(i as int);
            }
            new_nodes.push(mapped);
        }
        i += 1;
    }
    (new_nodes, Ghost(owners))
}

/// A prefix-count table is strictly increasing across flagged handles.
proof fn lemma_idx_strict_mono(glive: Seq<bool>, gidx: Seq<usize>, n: int)
    requires
        glive.len() == n,
        gidx.len() == n,
        forall|j: int| 0 <= j < n ==> #[trigger] gidx[j] as nat == count_live(glive, j),
    ensures
        forall|o: int, i: int|
            0 <= o < i < n && glive[o] && glive[i] ==> #[trigger] gidx[o] < #[trigger] gidx[i],
{
    assert forall|o: int, i: int|
        0 <= o < i < n && glive[o] && glive[i] implies #[trigger] gidx[o] < #[trigger] gidx[i] by {
        assert(count_live(glive, o + 1) == count_live(glive, o) + 1);
        lemma_count_live_mono(glive, o + 1, i);
    }
}

/// Collects what the pruning phases establish into the optimizer's
/// public guarantees.
#[verifier::rlimit(100)]
proof fn lemma_optimize_post(
    gnodes: Seq<Node>,
    gnew: Seq<Node>,
    glive: Seq<bool>,
    gidx: Seq<usize>,
    gowners: Seq<int>,
    gsigs: Seq<usize>,
    newsigs: Seq<usize>,
)
    requires
        remap_ok(gnodes, gnew, glive, gidx, gowners),
        live_ok(gnodes, gsigs, glive),
        forall|k: int| 0 <= k < gsigs.len() ==> (#[trigger] gsigs[k] as int) < gnodes.len(),
        newsigs.len() == gsigs.len(),
        forall|k: int|
            0 <= k < newsigs.len() ==> #[trigger] newsigs[k] == gidx[gsigs[k] as int],
    ensures
        nodes_wf(gnew),
        forall|k: int| 0 <= k < newsigs.len() ==> (#[trigger] newsigs[k] as int) < gnew.len(),
        forall|inputs: Seq<Uint256>, k: int|
            0 <= k < gsigs.len() ==> #[trigger] val_at(gnew, inputs, newsigs[k] as int) == val_at(
                gnodes,
                inputs,
                gsigs[k] as int,
            ),
        forall|inputs: Seq<Uint256>|
            #[trigger] first_err(gnodes, inputs, gnodes.len() as int) is None ==> first_err(
                gnew,
                inputs,
                gnew.len() as int,
            ) is None,
        forall|j: int|
            0 <= j < gnew.len() ==> #[trigger] reachable_from_signals(gnew, newsigs, j),
{
    lemma_remap_wf(gnodes, gnew, glive, gidx, gowners);
    assert forall|k: int|
        0 <= k < newsigs.len() implies (#[trigger] newsigs[k] as int) < gnew.len() by {
        assert(glive[gsigs[k] as int]);
    }
    assert forall|inputs: Seq<Uint256>, k: int|
        0 <= k < gsigs.len() implies #[trigger] val_at(gnew, inputs, newsigs[k] as int) == val_at(
        gnodes,
        inputs,
        gsigs[k] as int,
    ) by {
        lemma_remap_val(gnodes, gnew, glive, gidx, gowners, inputs, gsigs[k] as int);
    }
    assert forall|inputs: Seq<Uint256>|
        #[trigger] first_err(gnodes, inputs, gnodes.len() as int) is None implies first_err(
        gnew,
        inputs,
        gnew.len() as int,
    ) is None by {
        lemma_remap_total(gnodes, gnew, glive, gidx, gowners, inputs);
    }
    assert forall|j: int|
        0 <= j < gnew.len() implies #[trigger] reachable_from_signals(gnew, newsigs, j) by {
        let i2 = gowners[j];
        lemma_live_reachable(gnodes, glive, gsigs, i2);
        let k2 = choose|k2: int|
            0 <= k2 < gsigs.len() && depends_on(gnodes, #[trigger] gsigs[k2] as int, i2);
        lemma_depends_remap(gnodes, gnew, glive, gidx, gowners, gsigs[k2] as int, i2);
        assert(newsigs[k2] == gidx[gsigs[k2] as int]);
        assert(0 <= k2 < newsigs.len() && depends_on(gnew, newsigs[k2] as int, j));
    }
}

/// Prunes the node log to the handles reachable from the declared signals,
/// renumbers the kept nodes densely in original order, and rewrites operand
/// and signal references. The declared signals evaluate exactly as before,
/// on every input buffer, and every kept node feeds some signal.
#[verifier::rlimit(100)]
pub fn optimize(nodes: &mut Vec<Node>, signals: &mut Vec<usize>)
    requires
        nodes_wf(old(nodes)@),
        forall|k: int|
            0 <= k < old(signals)@.len() ==> (#[trigger] old(signals)@[k] as int)
                < old(nodes)@.len(),
    ensures
        nodes_wf(final(nodes)@),
        final(nodes)@.len() <= old(nodes)@.len(),
        final(signals)@.len() == old(signals)@.len(),
        forall|k: int|
            0 <= k < final(signals)@.len() ==> (#[trigger] final(signals)@[k] as int)
                < final(nodes)@.len(),
        forall|inputs: Seq<Uint256>, k: int|
            0 <= k < old(signals)@.len() ==> #[trigger] val_at(
                final(nodes)@,
                inputs,
                final(signals)@[k] as int,
            ) == val_at(old(nodes)@, inputs, old(signals)@[k] as int),
        forall|inputs: Seq<Uint256>|
            #[trigger] first_err(old(nodes)@, inputs, old(nodes)@.len() as int) is None
                ==> first_err(final(nodes)@, inputs, final(nodes)@.len() as int) is None,
        forall|j: int|
            0 <= j < final(nodes)@.len() ==> #[trigger] reachable_from_signals(
                final(nodes)@,
                final(signals)@,
                j,
            ),
{
    let ghost gnodes = nodes@;
    let ghost gsigs = signals@;
    let n = nodes.len();
    let ns = signals.len();

    let live = mark_live(nodes, signals);
    let ghost glive = live@;
    let (idx, _count) = renumber(&live);
    let ghost gidx = idx@;
    let (new_nodes, owners) = rebuild(nodes, &live, &idx);
    let ghost gowners = owners@;
    let ghost gnew = new_nodes@;

    proof {
        lemma_idx_strict_mono(glive, gidx, n as int);
        lemma_count_live_bound(glive, n as int);
        assert(remap_ok(gnodes, gnew, glive, gidx, gowners));
    }

    // Rewrite the signal list to the new numbering.
    let mut k: usize = 0;
    while k < ns
        invariant
            glive == live@,
            gidx == idx@,
            ns == signals@.len(),
            ns == gsigs.len(),
            k <= ns,
            gidx.len() == n,
            forall|k2: int| 0 <= k2 < gsigs.len() ==> (#[trigger] gsigs[k2] as int) < n,
            forall|k2: int| k <= k2 < ns ==> #[trigger] signals@[k2] == gsigs[k2],
            forall|k2: int|
                0 <= k2 < k ==> #[trigger] signals@[k2] == gidx[gsigs[k2] as int],
        decreases ns - k,
    {
        let s = signals[k];
        signals[k] = idx[s];
        k += 1;
    }

    *nodes = new_nodes;
    proof {
        lemma_optimize_post(gnodes, gnew, glive, gidx, gowners, gsigs, signals@);
    }
}

} // verus!

