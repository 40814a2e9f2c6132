pub mod field;
pub mod graph;
pub mod opt;
pub mod codec;
pub mod trace;
pub mod generate;

use vstd::prelude::*;
use vstd::string::StringExecFns;

use crate::field::{nat_to_u256, Uint256};
use crate::graph::Node;

verus! {

/// The error classes a witness computation can surface: malformed persisted
/// bytes, a name missing from the input table, an input landing outside the
/// buffer, a division-family operation applied to the additive identity, and
/// a conditional-capture pattern the trace store does not support.
#[derive(Clone, Copy, Debug, PartialEq, Eq, Structural)]
pub enum WitnessError {
    Format,
    UnknownInput,
    InputOutOfRange,
    DivisionByZero,
    UnsupportedBranch,
}

/// One entry of the input table: the hash of an input's name, the first
/// signal it occupies, and how many signals it spans.
#[derive(Debug, Default, Clone, Copy, PartialEq, Eq, Structural)]
pub struct HashSignalInfo {
    pub hash: u64,
    pub signalid: u64,
    pub signalsize: u64,
}

/// An immutable, persisted witness-computation graph: the node log, the
/// witness-slot projection, and the named-input table.
#[derive(Debug)]
pub struct Graph {
    pub nodes: Vec<Node>,
    pub signals: Vec<usize>,
    pub input_mapping: Vec<HashSignalInfo>,
}

impl Graph {
    /// Validity: forward-only operand references, and every signal entry
    /// names a node.
    pub open spec fn wf(&self) -> bool {
        &&& crate::graph::nodes_wf(self.nodes@)
        &&& forall|k: int|
            0 <= k < self.signals@.len() ==> (#[trigger] self.signals@[k] as int)
                < self.nodes@.len()
    }
}

/// One step of the FNV-1a hash.
pub open spec fn fnv1a_step(h: u64, b: u8) -> u64 {
    ((((h ^ (b as u64)) as nat) * 0x100000001B3) % 0x10000000000000000) as u64
}

pub open spec fn fnv1a_from(h: u64, bytes: Seq<u8>) -> u64
    decreases bytes.len(),
{
    if bytes.len() == 0 {
        h
    } else {
        fnv1a_from(fnv1a_step(h, bytes[0]), bytes.subrange(1, bytes.len() as int))
    }
}

/// The FNV-1a hash of a byte string, as used by the input table.
pub open spec fn fnv1a_spec(bytes: Seq<u8>) -> u64 {
    fnv1a_from(0xCBF29CE484222325, bytes)
}

/// The hash of an input's name: FNV-1a over its UTF-8 bytes.
pub open spec fn name_hash(s: Seq<char>) -> u64 {
    fnv1a_spec(vstd::utf8::encode_utf8(s))
}

/// FNV-1a over the UTF-8 bytes of a name.
pub fn fnv1a(s: &str) -> (r: u64)
    ensures
        r == name_hash(s@),
{
    let bytes = s.as_bytes();
    let ghost gb = bytes@;
    let n = bytes.len();
    let mut h: u64 = 0xCBF29CE484222325;
    proof {
        assert(gb.subrange(0, n as int) =~= gb);
    }
    let mut i: usize = 0;
    while i < n
        invariant
            gb == bytes@,
            n == gb.len(),
            i <= n,
            fnv1a_spec(gb) == fnv1a_from(h, gb.subrange(i as int, n as int)),
        decreases n - i,
    {
        let b = bytes[i];
        proof {
            assert(gb.subrange(i as int, n as int)[0] == gb[i as int]);
            assert(gb.subrange(i as int, n as int).subrange(1, (n - i) as int) =~= gb.subrange(
                i + 1,
                n as int,
            ));
        }
        let x = (h ^ (b as u64)) as u128;
        h = ((x * 0x100000001B3) % 0x10000000000000000) as u64;
        i += 1;
    }
    proof {
        assert(gb.subrange(n as int, n as int) =~= Seq::<u8>::empty());
    }
    h
}

/// Loads a persisted graph from bytes, rejecting malformed encodings and
/// graphs that break the forward-reference or signal-range invariants.
pub fn init_graph(graph_bytes: &Vec<u8>) -> (r: Result<Graph, WitnessError>)
    ensures
        match crate::codec::dec_graph(graph_bytes@) {
            Some(t) => if crate::graph::nodes_wf(t.0) && (forall|k: int|
                0 <= k < t.1.len() ==> (#[trigger] t.1[k] as int) < t.0.len()) {
                match r {
                    Ok(g) => g.nodes@ == t.0 && g.signals@ == t.1 && g.input_mapping@ == t.2
                        && g.wf(),
                    Err(_) => false,
                }
            } else {
                r is Err && r->Err_0 == WitnessError::Format
            },
            None => r is Err && r->Err_0 == WitnessError::Format,
        },
{
    let (nodes, signals, input_mapping) = match crate::codec::deserialize_graph(graph_bytes) {
        Ok(t) => t,
        Err(_) => {
            return Err(WitnessError::Format);
        },
    };
    if !validate_nodes(&nodes) {
        return Err(WitnessError::Format);
    }
    if !validate_signals(&signals, nodes.len()) {
        return Err(WitnessError::Format);
    }
    Ok(Graph { nodes, signals, input_mapping })
}

fn is_binary(op: crate::graph::Operation) -> (r: bool)
    ensures
        r == crate::graph::is_binary_op(op),
{
    match op {
        crate::graph::Operation::Neg => false,
        crate::graph::Operation::Bnot => false,
        _ => true,
    }
}

fn validate_nodes(nodes: &Vec<Node>) -> (r: bool)
    ensures
        r == crate::graph::nodes_wf(nodes@),
{
    let n = nodes.len();
    let mut i: usize = 0;
    while i < n
        invariant
            n == nodes@.len(),
            i <= n,
            forall|j: int| 0 <= j < i ==> crate::graph::node_wf(#[trigger] nodes@[j], j),
        decreases n - i,
    {
        let ok = match nodes[i] {
            Node::Constant(_) => true,
            Node::Input(_) => true,
            Node::Op(op, a, b) => is_binary(op) && a < i && b < i,
            Node::SingleOp(op, a) => !is_binary(op) && a < i,
            Node::Select(c, t, f) => c < i && t < i && f < i,
        };
        if !ok {
            return false;
        }
        i += 1;
    }
    true
}

fn validate_signals(signals: &Vec<usize>, n: usize) -> (r: bool)
    ensures
        r == (forall|k: int| 0 <= k < signals@.len() ==> (#[trigger] signals@[k] as int) < n),
{
    let ns = signals.len();
    let mut k: usize = 0;
    while k < ns
        invariant
            ns == signals@.len(),
            k <= ns,
            forall|k2: int| 0 <= k2 < k ==> (#[trigger] signals@[k2] as int) < n,
        decreases ns - k,
    {
        if signals[k] >= n {
            return false;
        }
        k += 1;
    }
    true
}

/// The scan the input sizing performs: track the largest input slot seen,
/// and stop at the first non-input node after inputs have started.
pub open spec fn inputs_scan(nodes: Seq<Node>, k: int, started: bool, max: nat) -> nat
    decreases nodes.len() - k,
{
    if k < 0 || k >= nodes.len() {
        max
    } else {
        match nodes[k] {
            Node::Input(j) => inputs_scan(
                nodes,
                k + 1,
                true,
                if j as nat > max {
                    j as nat
                } else {
                    max
                },
            ),
            _ => if started {
                max
            } else {
                inputs_scan(nodes, k + 1, false, max)
            },
        }
    }
}

/// The input-buffer length a graph calls for: one past the largest input
/// slot found by the scan.
pub open spec fn inputs_size_spec(nodes: Seq<Node>) -> nat {
    inputs_scan(nodes, 0, false, 0) + 1
}

/// Calculates the number of needed inputs, or None where the count cannot
/// be represented.
fn try_inputs_size(graph: &Graph) -> (r: Option<usize>)
    ensures
        match r {
            Some(v) => v as nat == inputs_size_spec(graph.nodes@),
            None => inputs_size_spec(graph.nodes@) > usize::MAX,
        },
{
    let n = graph.nodes.len();
    let mut started = false;
    let mut max: usize = 0;
    let mut k: usize = 0;
    while k < n
        invariant
            n == graph.nodes@.len(),
            k <= n,
            inputs_scan(graph.nodes@, 0, false, 0) == inputs_scan(
                graph.nodes@,
                k as int,
                started,
                max as nat,
            ),
            max as nat <= inputs_scan(graph.nodes@, 0, false, 0),
        decreases n - k,
    {
        match graph.nodes[k] {
            Node::Input(j) => {
                if j > max {
                    max = j;
                }
                started = true;
                proof {
                    lemma_inputs_scan_bound(graph.nodes@, k + 1, true, max as nat);
                }
            },
            _ => {
                if started {
                    proof {
                        lemma_inputs_scan_bound(
                            graph.nodes@,
                            k as int,
                            started,
                            max as nat,
                        );
                    }
                    if max == usize::MAX {
                        return None;
                    }
                    return Some(max + 1);
                }
            },
        }
        k += 1;
    }
    proof {
        lemma_inputs_scan_bound(graph.nodes@, n as int, started, max as nat);
    }
    if max == usize::MAX {
        return None;
    }
    Some(max + 1)
}

/// Calculates the number of needed inputs.
pub fn get_inputs_size(graph: &Graph) -> (r: usize)
    requires
        inputs_size_spec(graph.nodes@) <= usize::MAX,
    ensures
        r as nat == inputs_size_spec(graph.nodes@),
{
    match try_inputs_size(graph) {
        Some(v) => v,
        None => 0,  // unreachable under the precondition
    }
}

/// The scan never shrinks below its running maximum.
proof fn lemma_inputs_scan_bound(nodes: Seq<Node>, k: int, started: bool, max: nat)
    ensures
        inputs_scan(nodes, k, started, max) >= max,
    decreases nodes.len() - k,
{
    if 0 <= k < nodes.len() {
        match nodes[k] {
            Node::Input(j) => {
                lemma_inputs_scan_bound(
                    nodes,
                    k + 1,
                    true,
                    if j as nat > max {
                        j as nat
                    } else {
                        max
                    },
                );
            },
            _ => {
                if !started {
                    lemma_inputs_scan_bound(nodes, k + 1, false, max);
                }
            },
        }
    }
}

/// Calculates the number of needed inputs for the fixed-size RSA circuit.
pub fn get_inputs_size_rsa(_graph: &Graph) -> (r: usize)
    ensures
        r == 97,
{
    97
}

/// The fresh input buffer: slot 0 holds the constant one, the rest zero.
pub open spec fn buffer0(size: nat) -> Seq<Uint256> {
    Seq::new(
        size,
        |i: int|
            if i == 0 {
                nat_to_u256(1)
            } else {
                nat_to_u256(0)
            },
    )
}

/// Allocates an input buffer with position 0 set to one.
pub fn get_inputs_buffer(size: usize) -> (r: Vec<Uint256>)
    requires
        size >= 1,
    ensures
        r@ == buffer0(size as nat),
{
    let mut inputs: Vec<Uint256> = Vec::new();
    inputs.push(crate::field::u256_one());
    let mut i: usize = 1;
    while i < size
        invariant
            1 <= i <= size,
            inputs@.len() == i,
            forall|j: int| 1 <= j < i ==> crate::field::u256_nat(#[trigger] inputs@[j]) == 0,
            crate::field::u256_nat(inputs@[0]) == 1,
        decreases size - i,
    {
        inputs.push(crate::field::u256_zero());
        i += 1;
    }
    proof {
        crate::field::lemma_u256_canonical(Uint256 { w0: 1, w1: 0, w2: 0, w3: 0 });
        assert forall|j: int| 0 <= j < size implies inputs@[j] == buffer0(size as nat)[j] by {
            crate::field::lemma_u256_canonical(inputs@[j]);
        }
        assert(inputs@ =~= buffer0(size as nat));
    }
    inputs
}

/// The first input-table entry with the given name hash, if any, and the
/// signal slot it starts at.
pub open spec fn lookup_start(infos: Seq<HashSignalInfo>, h: u64) -> Option<u64>
    decreases infos.len(),
{
    if infos.len() == 0 {
        None
    } else if infos[0].hash == h {
        Some(infos[0].signalid)
    } else {
        lookup_start(infos.subrange(1, infos.len() as int), h)
    }
}

/// Finds the first input-table entry with the given hash.
fn find_start(infos: &Vec<HashSignalInfo>, h: u64) -> (r: Option<u64>)
    ensures
        r == lookup_start(infos@, h),
{
    let n = infos.len();
    proof {
        assert(infos@.subrange(0, n as int) =~= infos@);
    }
    let mut k: usize = 0;
    while k < n
        invariant
            n == infos@.len(),
            k <= n,
            lookup_start(infos@, h) == lookup_start(infos@.subrange(k as int, n as int), h),
        decreases n - k,
    {
        proof {
            assert(infos@.subrange(k as int, n as int)[0] == infos@[k as int]);
            assert(infos@.subrange(k as int, n as int).subrange(1, (n - k) as int)
                =~= infos@.subrange(k + 1, n as int));
        }
        if infos[k].hash == h {
            return Some(infos[k].signalid);
        }
        k += 1;
    }
    proof {
        assert(infos@.subrange(n as int, n as int) =~= Seq::<HashSignalInfo>::empty());
    }
    None
}

/// Calculates the position of each given signal name in the input buffer.
/// The result is index-aligned with the name list.
pub fn get_input_mapping(input_list: &Vec<String>, graph: &Graph) -> (r: Result<
    Vec<usize>,
    WitnessError,
>)
    ensures
        match r {
            Ok(m) => m@.len() == input_list@.len() && forall|k: int|
                0 <= k < input_list@.len() ==> {
                    &&& #[trigger] lookup_start(
                        graph.input_mapping@,
                        name_hash(input_list@[k]@),
                    ) is Some
                    &&& m@[k] as nat == lookup_start(
                        graph.input_mapping@,
                        name_hash(input_list@[k]@),
                    )->0 as nat
                },
            Err(e) => (e == WitnessError::UnknownInput && exists|k: int|
                0 <= k < input_list@.len() && #[trigger] lookup_start(
                    graph.input_mapping@,
                    name_hash(input_list@[k]@),
                ) is None) || (e == WitnessError::InputOutOfRange && exists|k: int|
                0 <= k < input_list@.len() && (#[trigger] lookup_start(
                    graph.input_mapping@,
                    name_hash(input_list@[k]@),
                ))->0 > usize::MAX),
        },
{
    let n = input_list.len();
    let mut m: Vec<usize> = Vec::new();
    let mut k: usize = 0;
    while k < n
        invariant
            n == input_list@.len(),
            k <= n,
            m@.len() == k,
            forall|k2: int|
                0 <= k2 < k ==> {
                    &&& #[trigger] lookup_start(
                        graph.input_mapping@,
                        name_hash(input_list@[k2]@),
                    ) is Some
                    &&& m@[k2] as nat == lookup_start(
                        graph.input_mapping@,
                        name_hash(input_list@[k2]@),
                    )->0 as nat
                },
        decreases n - k,
    {
        let h = fnv1a(input_list[k].as_str());
        match find_start(&graph.input_mapping, h) {
            Some(si) => {
                if si <= usize::MAX as u64 {
                    m.push(si as usize);
                } else {
                    return Err(WitnessError::InputOutOfRange);
                }
            },
            None => {
                return Err(WitnessError::UnknownInput);
            },
        }
        k += 1;
    }
    Ok(m)
}


/// The buffer with one contiguous range overwritten by the given values.
pub open spec fn write_range(buf: Seq<Uint256>, start: int, vals: Seq<Uint256>) -> Seq<Uint256> {
    Seq::new(
        buf.len(),
        |i: int|
            if start <= i < start + vals.len() {
                vals[i - start]
            } else {
                buf[i]
            },
    )
}

/// The buffer after copying each provided input to the slot its mapping
/// entry names, in list order; an error where a range escapes the buffer.
pub open spec fn apply_inputs(
    list: Seq<(String, Vec<Uint256>)>,
    mapping: Seq<usize>,
    buf: Seq<Uint256>,
    k: int,
) -> Result<Seq<Uint256>, WitnessError>
    decreases list.len() - k,
{
    if k < 0 || k >= list.len() {
        Ok(buf)
    } else if mapping[k] + list[k].1@.len() <= buf.len() {
        apply_inputs(list, mapping, write_range(buf, mapping[k] as int, list[k].1@), k + 1)
    } else {
        Err(WitnessError::InputOutOfRange)
    }
}

/// The buffer after locating each named input through the input table and
/// copying its values, in list order.
pub open spec fn fill_inputs(
    infos: Seq<HashSignalInfo>,
    list: Seq<(String, Vec<Uint256>)>,
    buf: Seq<Uint256>,
    k: int,
) -> Result<Seq<Uint256>, WitnessError>
    decreases list.len() - k,
{
    if k < 0 || k >= list.len() {
        Ok(buf)
    } else {
        match lookup_start(infos, name_hash(list[k].0@)) {
            None => Err(WitnessError::UnknownInput),
            Some(si) => if si + list[k].1@.len() <= buf.len() {
                fill_inputs(infos, list, write_range(buf, si as int, list[k].1@), k + 1)
            } else {
                Err(WitnessError::InputOutOfRange)
            },
        }
    }
}

/// Copies the given values into the buffer starting at the given slot.
fn copy_values(buffer: &mut Vec<Uint256>, start: usize, vals: &Vec<Uint256>)
    requires
        start + vals@.len() <= old(buffer)@.len(),
    ensures
        final(buffer)@ == write_range(old(buffer)@, start as int, vals@),
{
    let ghost gbuf = old(buffer)@;
    let ghost gvals = vals@;
    let vl = vals.len();
    let bl = buffer.len();
    let mut t: usize = 0;
    while t < vl
        invariant
            gvals == vals@,
            vl == gvals.len(),
            start + vl <= gbuf.len(),
            gbuf.len() == bl,
            t <= vl,
            buffer@.len() == gbuf.len(),
            forall|i: int|
                0 <= i < gbuf.len() ==> #[trigger] buffer@[i] == (if start <= i < start + t {
                    gvals[i - start]
                } else {
                    gbuf[i]
                }),
        decreases vl - t,
    {
        buffer[start + t] = vals[t];
        t += 1;
    }
    proof {
        assert(buffer@ =~= write_range(gbuf, start as int, gvals));
    }
}

/// Sets all provided inputs given the mapping and inputs buffer. The mapping
/// is index-aligned with the input list.
pub fn populate_inputs(
    input_list: &Vec<(String, Vec<Uint256>)>,
    input_mapping: &Vec<usize>,
    input_buffer: &mut Vec<Uint256>,
) -> (r: Result<(), WitnessError>)
    requires
        input_mapping@.len() == input_list@.len(),
    ensures
        match apply_inputs(input_list@, input_mapping@, old(input_buffer)@, 0) {
            Ok(b) => r is Ok && final(input_buffer)@ == b,
            Err(e) => r is Err && r->Err_0 == e && final(input_buffer)@.len() == old(
                input_buffer,
            )@.len(),
        },
{
    let ghost glist = input_list@;
    let ghost gmap = input_mapping@;
    let n = input_list.len();
    let mut k: usize = 0;
    while k < n
        invariant
            glist == input_list@,
            gmap == input_mapping@,
            n == glist.len(),
            gmap.len() == n,
            k <= n,
            input_buffer@.len() == old(input_buffer)@.len(),
            apply_inputs(glist, gmap, old(input_buffer)@, 0) == apply_inputs(
                glist,
                gmap,
                input_buffer@,
                k as int,
            ),
        decreases n - k,
    {
        let start = input_mapping[k];
        let vl = input_list[k].1.len();
        if start <= input_buffer.len() && input_buffer.len() - start >= vl {
            copy_values(input_buffer, start, &input_list[k].1);
        } else {
            return Err(WitnessError::InputOutOfRange);
        }
        k += 1;
    }
    Ok(())
}

/// Calculate a full witness for the given named inputs against a loaded
/// graph, using the graph's own input sizing.
pub fn calculate_witness(
    input_list: &Vec<(String, Vec<Uint256>)>,
    graph: &Graph,
) -> (r: Result<Vec<Uint256>, WitnessError>)
    requires
        graph.wf(),
    ensures
        inputs_size_spec(graph.nodes@) > usize::MAX ==> r is Err && r->Err_0
            == WitnessError::InputOutOfRange,
        inputs_size_spec(graph.nodes@) <= usize::MAX ==> match fill_inputs(
            graph.input_mapping@,
            input_list@,
            buffer0(inputs_size_spec(graph.nodes@)),
            0,
        ) {
            Err(e) => r is Err && r->Err_0 == e,
            Ok(buf) => crate::graph::evaluate_post(graph.nodes@, buf, graph.signals@, r),
        },
{
    let size = match try_inputs_size(graph) {
        Some(v) => v,
        None => {
            return Err(WitnessError::InputOutOfRange);
        },
    };
    calculate_witness_sized(input_list, graph, size)
}

/// Calculate a full witness using the fixed input sizing of the RSA circuit.
pub fn calculate_witness_rsa(
    input_list: &Vec<(String, Vec<Uint256>)>,
    graph: &Graph,
) -> (r: Result<Vec<Uint256>, WitnessError>)
    requires
        graph.wf(),
    ensures
        match fill_inputs(graph.input_mapping@, input_list@, buffer0(97), 0) {
            Err(e) => r is Err && r->Err_0 == e,
            Ok(buf) => crate::graph::evaluate_post(graph.nodes@, buf, graph.signals@, r),
        },
{
    let size = get_inputs_size_rsa(graph);
    calculate_witness_sized(input_list, graph, size)
}

/// Builds the input buffer of the given size, fills the named inputs, and
/// replays the graph.
fn calculate_witness_sized(
    input_list: &Vec<(String, Vec<Uint256>)>,
    graph: &Graph,
    size: usize,
) -> (r: Result<Vec<Uint256>, WitnessError>)
    requires
        graph.wf(),
        size >= 1,
    ensures
        match fill_inputs(graph.input_mapping@, input_list@, buffer0(size as nat), 0) {
            Err(e) => r is Err && r->Err_0 == e,
            Ok(buf) => crate::graph::evaluate_post(graph.nodes@, buf, graph.signals@, r),
        },
{
    let ghost glist = input_list@;
    let ghost ginfos = graph.input_mapping@;
    let mut buffer = get_inputs_buffer(size);
    let n = input_list.len();
    let mut k: usize = 0;
    while k < n
        invariant
            glist == input_list@,
            ginfos == graph.input_mapping@,
            n == glist.len(),
            k <= n,
            buffer@.len() == size,
            fill_inputs(ginfos, glist, buffer0(size as nat), 0) == fill_inputs(
                ginfos,
                glist,
                buffer@,
                k as int,
            ),
        decreases n - k,
    {
        let h = fnv1a(input_list[k].0.as_str());
        match find_start(&graph.input_mapping, h) {
            Some(si) => {
                let vl = input_list[k].1.len();
                if si <= usize::MAX as u64 && (si as usize) <= buffer.len() && buffer.len() - (
                si as usize) >= vl {
                    copy_values(&mut buffer, si as usize, &input_list[k].1);
                } else {
                    return Err(WitnessError::InputOutOfRange);
                }
            },
            None => {
                return Err(WitnessError::UnknownInput);
            },
        }
        k += 1;
    }
    crate::graph::evaluate(&graph.nodes, &buffer, &graph.signals)
}


/// Bit j of a byte, least significant first.
pub open spec fn bit_at(b: u8, j: nat) -> nat {
    ((b as nat) / vstd::arithmetic::power2::pow2(j)) % 2
}

/// The named bit expansion a hash-like circuit takes: one input called
/// "in" holding each byte's bits, least significant first.
pub fn bytes_to_circuit_inputs(bytes: &Vec<u8>) -> (r: Vec<(String, Vec<Uint256>)>)
    ensures
        r@.len() == 1,
        (r@[0].0)@ == "in"@,
        (r@[0].1)@.len() == bytes@.len() * 8,
        forall|k: int|
            0 <= k < bytes@.len() * 8 ==> crate::field::u256_nat(#[trigger] (r@[0].1)@[k])
                == bit_at(bytes@[k / 8], (k % 8) as nat),
{
    let ghost gb = bytes@;
    let n = bytes.len();
    let mut bits: Vec<Uint256> = Vec::new();
    let mut i: usize = 0;
    while i < n
        invariant
            gb == bytes@,
            n == gb.len(),
            i <= n,
            bits@.len() == i * 8,
            forall|k: int|
                0 <= k < i * 8 ==> crate::field::u256_nat(#[trigger] bits@[k]) == bit_at(
                    gb[k / 8],
                    (k % 8) as nat,
                ),
        decreases n - i,
    {
        let byte = bytes[i];
        let mut j: usize = 0;
        while j < 8
            invariant
                gb == bytes@,
                n == gb.len(),
                i < n,
                byte == gb[i as int],
                j <= 8,
                bits@.len() == i * 8 + j,
                forall|k: int|
                    0 <= k < i * 8 + j ==> crate::field::u256_nat(#[trigger] bits@[k]) == bit_at(
                        gb[k / 8],
                        (k % 8) as nat,
                    ),
            decreases 8 - j,
        {
            let bit = (byte >> (j as u8)) & 1;
            proof {
                vstd::bits::lemma_u64_shr_is_div(byte as u64, j as u64);
                assert(((byte as u64) >> (j as u64)) & 1 == ((byte as u64) >> (j as u64))
                    % 2) by (bit_vector);
                assert((byte >> (j as u8)) as u64 == (byte as u64) >> (j as u64))
                    by (bit_vector)
                    requires
                        j < 8,
                ;
                assert(((byte >> (j as u8)) & 1) as u64 == ((byte as u64) >> (j as u64)) & 1)
                    by (bit_vector)
                    requires
                        j < 8,
                ;
                vstd::arithmetic::power2::lemma2_to64();
                assert(bit as nat == bit_at(byte, j as nat));
                assert((i * 8 + j) / 8 == i && (i * 8 + j) % 8 == j) by {
                    vstd::arithmetic::div_mod::lemma_fundamental_div_mod_converse(
                        (i * 8 + j) as int,
                        8,
                        i as int,
                        j as int,
                    );
                }
            }
            bits.push(crate::field::u256_from_u64(bit as u64));
            j += 1;
        }
        proof {
            assert(i * 8 + 8 == (i + 1) * 8) by {
                vstd::arithmetic::mul::lemma_mul_is_distributive_add_other_way(8, i as int, 1);
            }
        }
        i += 1;
    }
    let mut r: Vec<(String, Vec<Uint256>)> = Vec::new();
    proof {
        reveal_strlit("in");
    }
    r.push((String::from_str("in"), bits));
    r
}

} // verus!


