//! Capture-side parsing of the circuit's constant tables: the input hash
//! table, the witness-to-signal projection, and the constant pool, each read
//! from the raw little-endian byte block the circuit build emits. The
//! constant pool records its entries into a capture session.

use vstd::prelude::*;

use crate::{HashSignalInfo, WitnessError};
use crate::codec::{dec_infos, dec_sigs, read_u256, read_u64, u256_at};
use crate::field::{modulus, p_nat, pow2_256, u256_checked_rem, u256_mul_redc, u256_nat, Uint256};
use crate::graph::Node;
use crate::trace::{FrElement, TraceStore};

verus! {

/// The Montgomery one-word inverse matching the field modulus:
/// P_W0 * INV + 1 is divisible by 2^64.
pub const INV: u64 = 0xc2e1f593efffffff;

/// The value of four little-endian bytes at offset off.
pub open spec fn le4_at(b: Seq<u8>, off: int) -> nat {
    (b[off] + b[off + 1] * 0x100 + b[off + 2] * 0x10000 + b[off + 3] * 0x1000000) as nat
}

fn read_u32(bytes: &Vec<u8>, off: usize) -> (r: u32)
    requires
        off + 4 <= bytes@.len(),
    ensures
        r as nat == le4_at(bytes@, off as int),
{
    let _total = bytes.len();
    let b0 = bytes[off] as u32;
    let b1 = bytes[off + 1] as u32;
    let b2 = bytes[off + 2] as u32;
    let b3 = bytes[off + 3] as u32;
    b0 + b1 * 0x100 + b2 * 0x10000 + b3 * 0x1000000
}

/// Parses the input hash table: `count` triples of (name hash, first signal,
/// signal span), 24 bytes each, from the start of the block.
pub fn get_input_hash_map(bytes: &Vec<u8>, count: usize) -> (r: Result<
    Vec<HashSignalInfo>,
    WitnessError,
>)
    ensures
        match dec_infos(bytes@, 0, count as nat) {
            Some(p) => r is Ok && (r->Ok_0)@ == p.0,
            None => r is Err && r->Err_0 == WitnessError::Format,
        },
{
    let ghost gb = bytes@;
    let len = bytes.len();
    let mut infos: Vec<HashSignalInfo> = Vec::new();
    let mut off: usize = 0;
    let mut i: usize = 0;
    while i < count
        invariant
            gb == bytes@,
            len == gb.len(),
            i <= count,
            off <= len,
            infos@.len() == i,
            dec_infos(gb, 0, count as nat) == (match dec_infos(
                gb,
                off as int,
                (count - i) as nat,
            ) {
                Some(p) => Some::<(Seq<HashSignalInfo>, int)>((infos@ + p.0, p.1)),
                None => None::<(Seq<HashSignalInfo>, int)>,
            }),
        decreases count - i,
    {
        if len - off < 24 {
            proof {
                assert(crate::codec::dec_info(gb, off as int) is None);
            }
            return Err(WitnessError::Format);
        }
        let h = HashSignalInfo {
            hash: read_u64(bytes, off),
            signalid: read_u64(bytes, off + 8),
            signalsize: read_u64(bytes, off + 16),
        };
        proof {
            let k = (count - i) as nat;
            let rest = dec_infos(gb, off + 24, (k - 1) as nat);
            if rest is Some {
                assert(infos@ + (seq![h] + (rest->0).0) =~= infos@.push(h) + (rest->0).0);
            }
        }
        infos.push(h);
        off = off + 24;
        i += 1;
    }
    Ok(infos)
}

/// Parses the witness-to-signal projection: `count` 64-bit indices from the
/// given offset.
pub fn get_witness_to_signal(bytes: &Vec<u8>, offset: usize, count: usize) -> (r: Result<
    Vec<usize>,
    WitnessError,
>)
    requires
        offset <= bytes@.len(),
    ensures
        match dec_sigs(bytes@, offset as int, count as nat) {
            Some(p) => r is Ok && (r->Ok_0)@ == p.0,
            None => r is Err && r->Err_0 == WitnessError::Format,
        },
{
    let ghost gb = bytes@;
    let len = bytes.len();
    let mut signals: Vec<usize> = Vec::new();
    let mut off: usize = offset;
    let mut i: usize = 0;
    while i < count
        invariant
            gb == bytes@,
            len == gb.len(),
            i <= count,
            off <= len,
            signals@.len() == i,
            dec_sigs(gb, offset as int, count as nat) == (match dec_sigs(
                gb,
                off as int,
                (count - i) as nat,
            ) {
                Some(p) => Some::<(Seq<usize>, int)>((signals@ + p.0, p.1)),
                None => None::<(Seq<usize>, int)>,
            }),
        decreases count - i,
    {
        if len - off < 8 {
            proof {
                assert(crate::codec::dec_sig(gb, off as int) is None);
            }
            return Err(WitnessError::Format);
        }
        let v = read_u64(bytes, off);
        if v > usize::MAX as u64 {
            return Err(WitnessError::Format);
        }
        proof {
            let k = (count - i) as nat;
            let rest = dec_sigs(gb, off + 8, (k - 1) as nat);
            if rest is Some {
                assert(signals@ + (seq![v as usize] + (rest->0).0) =~= signals@.push(v as usize)
                    + (rest->0).0);
            }
        }
        signals.push(v as usize);
        off = off + 8;
        i += 1;
    }
    Ok(signals)
}

/// What one parsed constant-pool entry denotes. A clear type flag carries a
/// signed 32-bit value directly (negative values wrap into the field); a set
/// flag carries a 256-bit value in Montgomery form, so the recorded value is
/// its reduced representative carrying one inverse power of 2^256.
pub open spec fn dat_entry_value_ok(b: Seq<u8>, off: int, v: Uint256) -> bool {
    let raw = le4_at(b, off);
    let typ = le4_at(b, off + 4);
    if typ < 0x80000000 {
        if raw >= 0x80000000 {
            u256_nat(v) == p_nat() - (0x100000000 - raw)
        } else {
            u256_nat(v) == raw
        }
    } else {
        u256_nat(v) < p_nat() && (u256_nat(v) * pow2_256()) % p_nat() == u256_nat(
            u256_at(b, off + 8),
        ) % p_nat()
    }
}

/// Parses the constant pool: `count` 40-byte entries from the given offset,
/// recording each as a constant node of the capture session and returning
/// the handles in order.
pub fn get_constants(
    bytes: &Vec<u8>,
    offset: usize,
    count: usize,
    session: &mut TraceStore,
) -> (r: Result<Vec<FrElement>, WitnessError>)
    requires
        old(session).wf(),
        offset <= bytes@.len(),
    ensures
        final(session).wf(),
        match r {
            Ok(handles) => {
                &&& offset + count * 40 <= bytes@.len()
                &&& handles@.len() == count
                &&& final(session).log().len() == old(session).log().len() + count
                &&& final(session).log().subrange(0, old(session).log().len() as int) == old(
                    session,
                ).log()
                &&& final(session).branch_cond == old(session).branch_cond
                &&& final(session).armed == old(session).armed
                &&& forall|k: int|
                    0 <= k < count ==> {
                        &&& (#[trigger] handles@[k]).0 == old(session).log().len() + k
                        &&& final(session).log()[old(session).log().len() + k] is Constant
                        &&& dat_entry_value_ok(
                            bytes@,
                            offset + k * 40,
                            final(session).log()[old(session).log().len() + k]->Constant_0,
                        )
                    }
            },
            Err(e) => {
                &&& e == WitnessError::Format
                &&& offset + count * 40 > bytes@.len()
                &&& *final(session) == *old(session)
            },
        },
{
    let ghost gb = bytes@;
    let ghost base = session.log().len() as int;
    let len = bytes.len();
    if (len - offset) / 40 < count {
        proof {
            vstd::arithmetic::div_mod::lemma_fundamental_div_mod((len - offset) as int, 40);
            if offset + count * 40 <= len {
                assert((len - offset) as int >= count * 40);
                assert(false);
            }
        }
        return Err(WitnessError::Format);
    }
    proof {
        vstd::arithmetic::div_mod::lemma_fundamental_div_mod((len - offset) as int, 40);
        assert(40 * ((len - offset) as int / 40) >= 40 * (count as int)) by {
            vstd::arithmetic::mul::lemma_mul_inequality(
                count as int,
                (len - offset) as int / 40,
                40,
            );
        }
    }
    let m = modulus();
    let mut handles: Vec<FrElement> = Vec::new();
    let mut off: usize = offset;
    let mut i: usize = 0;
    while i < count
        invariant
            gb == bytes@,
            len == gb.len(),
            base == old(session).log().len(),
            offset + count * 40 <= len,
            i <= count,
            off == offset + i * 40,
            handles@.len() == i,
            session.wf(),
            u256_nat(m) == p_nat(),
            session.log().len() == base + i,
            session.log().subrange(0, base) == old(session).log(),
            session.branch_cond == old(session).branch_cond,
            session.armed == old(session).armed,
            forall|k: int|
                0 <= k < i ==> {
                    &&& (#[trigger] handles@[k]).0 == base + k
                    &&& session.log()[base + k] is Constant
                    &&& dat_entry_value_ok(
                        gb,
                        offset + k * 40,
                        session.log()[base + k]->Constant_0,
                    )
                },
        decreases count - i,
    {
        proof {
            assert((i + 1) * 40 == i * 40 + 40) by {
                vstd::arithmetic::mul::lemma_mul_is_distributive_add_other_way(
                    40,
                    i as int,
                    1,
                );
            }
            assert((i + 1) * 40 <= count * 40) by {
                vstd::arithmetic::mul::lemma_mul_inequality(i + 1, count as int, 40);
            }
        }
        let raw = read_u32(bytes, off);
        let typ = read_u32(bytes, off + 4);
        let v: Uint256;
        if typ < 0x80000000 {
            if raw >= 0x80000000 {
                // A negative 32-bit value: wrap its magnitude into the field.
                let mag: u64 = 0x100000000u64 - raw as u64;
                let mv = Uint256 { w0: mag, w1: 0, w2: 0, w3: 0 };
                proof {
                    assert(u256_nat(mv) <= u256_nat(m));
                }
                v = crate::field::u256_sub(&m, &mv);
            } else {
                v = crate::field::u256_from_u64(raw as u64);
            }
        } else {
            // A 256-bit Montgomery-form value: reduce, then strip one power
            // of 2^256.
            let x = read_u256(bytes, off + 8);
            let xr = match u256_checked_rem(&x, &m) {
                Some(w) => w,
                None => crate::field::u256_zero(),  // unreachable: the modulus is nonzero
            };
            proof {
                crate::field::lemma_u256_digits(m);
                assert(m.w0 == 0x43e1f593f0000001);
                assert(((0x43e1f593f0000001 * (INV as nat) + 1) as nat) % 0x10000000000000000
                    == 0);
                vstd::arithmetic::div_mod::lemma_mod_twice(
                    u256_nat(x) as int,
                    p_nat() as int,
                );
            }
            let one = crate::field::u256_one();
            v = u256_mul_redc(&xr, &one, &m, INV);
        }
        let ghost pre = *session;
        let h = session.constant(v);
        proof {
            assert(session.log().subrange(0, base) =~= pre.log().subrange(0, base));
            assert(dat_entry_value_ok(gb, offset + i * 40, v));
        }
        handles.push(h);
        off = off + 40;
        i += 1;
    }
    Ok(handles)
}


/// One signal-description entry of a template's input/output map.
#[derive(Debug, Default, Clone, PartialEq, Eq)]
pub struct IODef {
    pub code: usize,
    pub offset: usize,
    pub lengths: Vec<usize>,
}

/// The input/output signal descriptions of one template instance.
#[derive(Debug, Default, Clone, PartialEq, Eq)]
pub struct InputOutputList {
    pub defs: Vec<IODef>,
}

/// What one parsed signal description denotes: its offset and its length
/// list (whose first entry is always zero).
pub open spec fn iodef_ok(d: IODef, t: (usize, Seq<usize>)) -> bool {
    &&& d.code == 0
    &&& d.offset == t.0
    &&& d.lengths@ == t.1
}

pub open spec fn iolist_ok(l: InputOutputList, t: Seq<(usize, Seq<usize>)>) -> bool {
    &&& l.defs@.len() == t.len()
    &&& forall|i: int| 0 <= i < t.len() ==> iodef_ok(#[trigger] l.defs@[i], t[i])
}

/// k 32-bit lengths read at offset off, each one signal dimension.
pub open spec fn dec_lengths(b: Seq<u8>, off: int, k: nat) -> Option<(Seq<usize>, int)>
    decreases k,
{
    if k == 0 {
        Some((Seq::empty(), off))
    } else if off < 0 || off + 4 > b.len() {
        None
    } else {
        match dec_lengths(b, off + 4, (k - 1) as nat) {
            None => None,
            Some((s, off2)) => Some((seq![le4_at(b, off) as usize] + s, off2)),
        }
    }
}

/// One signal description: a 32-bit offset, a 32-bit dimension count less
/// one, then that many dimensions after a leading zero slot.
pub open spec fn dec_iodef(b: Seq<u8>, off: int) -> Option<((usize, Seq<usize>), int)> {
    if off < 0 || off + 8 > b.len() {
        None
    } else {
        let fo = le4_at(b, off);
        let extra = le4_at(b, off + 4);
        match dec_lengths(b, off + 8, extra) {
            None => None,
            Some((s, off2)) => Some(((fo as usize, seq![0usize] + s), off2)),
        }
    }
}

pub open spec fn dec_iodefs(b: Seq<u8>, off: int, k: nat) -> Option<(
    Seq<(usize, Seq<usize>)>,
    int,
)>
    decreases k,
{
    if k == 0 {
        Some((Seq::empty(), off))
    } else {
        match dec_iodef(b, off) {
            None => None,
            Some((d, off2)) => match dec_iodefs(b, off2, (k - 1) as nat) {
                None => None,
                Some((s, off3)) => Some((seq![d] + s, off3)),
            },
        }
    }
}

/// One template's list: a 32-bit count, then that many descriptions.
pub open spec fn dec_iolist(b: Seq<u8>, off: int) -> Option<(Seq<(usize, Seq<usize>)>, int)> {
    if off < 0 || off + 4 > b.len() {
        None
    } else {
        dec_iodefs(b, off + 4, le4_at(b, off))
    }
}

pub open spec fn dec_iolists(b: Seq<u8>, off: int, k: nat) -> Option<(
    Seq<Seq<(usize, Seq<usize>)>>,
    int,
)>
    decreases k,
{
    if k == 0 {
        Some((Seq::empty(), off))
    } else {
        match dec_iolist(b, off) {
            None => None,
            Some((l, off2)) => match dec_iolists(b, off2, (k - 1) as nat) {
                None => None,
                Some((s, off3)) => Some((seq![l] + s, off3)),
            },
        }
    }
}

/// k 32-bit template indices read at offset off.
pub open spec fn dec_io_indices(b: Seq<u8>, off: int, k: nat) -> Option<(Seq<u32>, int)>
    decreases k,
{
    if k == 0 {
        Some((Seq::empty(), off))
    } else if off < 0 || off + 4 > b.len() {
        None
    } else {
        match dec_io_indices(b, off + 4, (k - 1) as nat) {
            None => None,
            Some((s, off2)) => Some((seq![(le4_at(b, off) as u32)] + s, off2)),
        }
    }
}

/// The whole block: the index list, then one list per index.
pub open spec fn dec_io_block(b: Seq<u8>, off: int, k: nat) -> Option<(
    Seq<u32>,
    Seq<Seq<(usize, Seq<usize>)>>,
)> {
    match dec_io_indices(b, off, k) {
        None => None,
        Some((idx, off2)) => match dec_iolists(b, off2, k) {
            None => None,
            Some((lists, _)) => Some((idx, lists)),
        },
    }
}

/// The map after the first k lists are placed at their reduced indices, a
/// later placement overwriting an earlier one.
pub open spec fn scatter_upto(
    init: Seq<Seq<(usize, Seq<usize>)>>,
    idx: Seq<u32>,
    lists: Seq<Seq<(usize, Seq<usize>)>>,
    k: int,
    hs: nat,
) -> Seq<Seq<(usize, Seq<usize>)>>
    decreases k,
{
    if k <= 0 {
        init
    } else {
        scatter_upto(init, idx, lists, k - 1, hs).update(
            ((idx[k - 1] as nat) % hs) as int,
            lists[k - 1],
        )
    }
}

proof fn lemma_scatter_len(
    init: Seq<Seq<(usize, Seq<usize>)>>,
    idx: Seq<u32>,
    lists: Seq<Seq<(usize, Seq<usize>)>>,
    k: int,
    hs: nat,
)
    requires
        hs > 0,
        init.len() == hs,
    ensures
        scatter_upto(init, idx, lists, k, hs).len() == init.len(),
    decreases k,
{
    if k > 0 {
        lemma_scatter_len(init, idx, lists, k - 1, hs);
    }
}

/// The empty map: one entry per input-table slot, each with no entries.
pub open spec fn empty_io_views(hs: nat) -> Seq<Seq<(usize, Seq<usize>)>> {
    Seq::new(hs, |_j: int| Seq::<(usize, Seq<usize>)>::empty())
}

fn read_lengths(bytes: &Vec<u8>, off: usize, k: u32) -> (r: Result<(Vec<usize>, usize), WitnessError>)
    requires
        off <= bytes@.len(),
    ensures
        match dec_lengths(bytes@, off as int, k as nat) {
            Some(p) => r is Ok && (r->Ok_0).0@ == p.0 && (r->Ok_0).1 as int == p.1
                && (r->Ok_0).1 <= bytes@.len(),
            None => r is Err && r->Err_0 == WitnessError::Format,
        },
{
    let ghost gb = bytes@;
    let len = bytes.len();
    let mut out: Vec<usize> = Vec::new();
    let mut cur: usize = off;
    let mut i: u32 = 0;
    while i < k
        invariant
            gb == bytes@,
            len == gb.len(),
            i <= k,
            cur <= len,
            out@.len() == i,
            dec_lengths(gb, off as int, k as nat) == (match dec_lengths(
                gb,
                cur as int,
                (k - i) as nat,
            ) {
                Some(p) => Some::<(Seq<usize>, int)>((out@ + p.0, p.1)),
                None => None::<(Seq<usize>, int)>,
            }),
        decreases k - i,
    {
        if len - cur < 4 {
            return Err(WitnessError::Format);
        }
        let v = read_u32(bytes, cur);
        proof {
            let rest = dec_lengths(gb, cur + 4, (k - i - 1) as nat);
            if rest is Some {
                assert(out@ + (seq![v as usize] + (rest->0).0) =~= out@.push(v as usize) + (
                rest->0).0);
            }
        }
        out.push(v as usize);
        cur = cur + 4;
        i += 1;
    }
    Ok((out, cur))
}

fn read_iodef(bytes: &Vec<u8>, off: usize) -> (r: Result<(IODef, usize), WitnessError>)
    requires
        off <= bytes@.len(),
    ensures
        match dec_iodef(bytes@, off as int) {
            Some(p) => r is Ok && iodef_ok((r->Ok_0).0, p.0) && (r->Ok_0).1 as int == p.1
                && (r->Ok_0).1 <= bytes@.len(),
            None => r is Err && r->Err_0 == WitnessError::Format,
        },
{
    let len = bytes.len();
    if len - off < 8 {
        return Err(WitnessError::Format);
    }
    let fo = read_u32(bytes, off);
    let extra = read_u32(bytes, off + 4);
    let (tail, cur) = match read_lengths(bytes, off + 8, extra) {
        Ok(p) => p,
        Err(e) => {
            return Err(e);
        },
    };
    let mut lengths: Vec<usize> = Vec::new();
    lengths.push(0);
    let mut t: usize = 0;
    let tl = tail.len();
    while t < tl
        invariant
            tl == tail@.len(),
            t <= tl,
            lengths@ == seq![0usize] + tail@.subrange(0, t as int),
        decreases tl - t,
    {
        lengths.push(tail[t]);
        proof {
            assert(lengths@ =~= seq![0usize] + tail@.subrange(0, t + 1));
        }
        t += 1;
    }
    proof {
        assert(tail@.subrange(0, tl as int) =~= tail@);
    }
    Ok((IODef { code: 0, offset: fo as usize, lengths }, cur))
}

#[verifier::loop_isolation(false)]
fn read_iolist(bytes: &Vec<u8>, off: usize) -> (r: Result<(InputOutputList, usize), WitnessError>)
    requires
        off <= bytes@.len(),
    ensures
        match dec_iolist(bytes@, off as int) {
            Some(p) => r is Ok && iolist_ok((r->Ok_0).0, p.0) && (r->Ok_0).1 as int == p.1
                && (r->Ok_0).1 <= bytes@.len(),
            None => r is Err && r->Err_0 == WitnessError::Format,
        },
{
    let ghost gb = bytes@;
    let len = bytes.len();
    if len - off < 4 {
        return Err(WitnessError::Format);
    }
    let count = read_u32(bytes, off);
    let ghost goff0 = off + 4;
    let mut defs: Vec<IODef> = Vec::new();
    let ghost mut gviews: Seq<(usize, Seq<usize>)> = Seq::empty();
    let mut cur: usize = off + 4;
    let mut i: u32 = 0;
    while i < count
        invariant
            gb == bytes@,
            len == gb.len(),
            i <= count,
            cur <= len,
            defs@.len() == i,
            gviews.len() == i,
            forall|m: int| 0 <= m < i ==> iodef_ok(#[trigger] defs@[m], gviews[m]),
            dec_iodefs(gb, goff0, count as nat) == (match dec_iodefs(
                gb,
                cur as int,
                (count - i) as nat,
            ) {
                Some(p) => Some::<(Seq<(usize, Seq<usize>)>, int)>((gviews + p.0, p.1)),
                None => None::<(Seq<(usize, Seq<usize>)>, int)>,
            }),
        decreases count - i,
    {
        let (d, cur2) = match read_iodef(bytes, cur) {
            Ok(p) => p,
            Err(e) => {
                return Err(e);
            },
        };
        proof {
            let dv = dec_iodef(gb, cur as int)->0;
            let rest = dec_iodefs(gb, cur2 as int, (count - i - 1) as nat);
            if rest is Some {
                assert(gviews + (seq![dv.0] + (rest->0).0) =~= gviews.push(dv.0) + (rest->0).0);
            }
            gviews = gviews.push(dv.0);
        }
        defs.push(d);
        cur = cur2;
        i += 1;
    }
    Ok((InputOutputList { defs }, cur))
}

/// Parses the input/output map block: `io_size` 32-bit template indices,
/// then one signal-description list per index; each list lands at its
/// index's slot, reduced modulo the table size, later lists overwriting
/// earlier ones. An empty block yields an empty map.
#[verifier::loop_isolation(false)]
#[verifier::rlimit(100)]
pub fn get_iosignals(bytes: &Vec<u8>, offset: usize, io_size: usize, hashmap_size: usize) -> (r:
    Result<Vec<InputOutputList>, WitnessError>)
    requires
        offset <= bytes@.len(),
    ensures
        io_size == 0 ==> r is Ok && (r->Ok_0)@.len() == 0,
        io_size > 0 && hashmap_size == 0 ==> r is Err && r->Err_0 == WitnessError::Format,
        io_size > 0 && hashmap_size > 0 ==> match dec_io_block(
            bytes@,
            offset as int,
            io_size as nat,
        ) {
            Some(p) => r is Ok && (r->Ok_0)@.len() == hashmap_size && forall|j: int|
                0 <= j < hashmap_size ==> iolist_ok(
                    #[trigger] (r->Ok_0)@[j],
                    scatter_upto(
                        empty_io_views(hashmap_size as nat),
                        p.0,
                        p.1,
                        io_size as int,
                        hashmap_size as nat,
                    )[j],
                ),
            None => r is Err && r->Err_0 == WitnessError::Format,
        },
{
    let ghost gb = bytes@;
    let len = bytes.len();
    if io_size == 0 {
        return Ok(Vec::new());
    }
    if hashmap_size == 0 {
        return Err(WitnessError::Format);
    }
    // The template indices.
    let mut indices: Vec<u32> = Vec::new();
    let mut cur: usize = offset;
    let mut i: usize = 0;
    while i < io_size
        invariant
            gb == bytes@,
            len == gb.len(),
            i <= io_size,
            cur <= len,
            indices@.len() == i,
            dec_io_indices(gb, offset as int, io_size as nat) == (match dec_io_indices(
                gb,
                cur as int,
                (io_size - i) as nat,
            ) {
                Some(p) => Some::<(Seq<u32>, int)>((indices@ + p.0, p.1)),
                None => None::<(Seq<u32>, int)>,
            }),
        decreases io_size - i,
    {
        if len - cur < 4 {
            return Err(WitnessError::Format);
        }
        let v = read_u32(bytes, cur);
        proof {
            let rest = dec_io_indices(gb, cur + 4, (io_size - i - 1) as nat);
            if rest is Some {
                assert(indices@ + (seq![v] + (rest->0).0) =~= indices@.push(v) + (rest->0).0);
            }
        }
        indices.push(v);
        cur = cur + 4;
        i += 1;
    }
    let ghost gidx = indices@;
    let ghost glists_off = cur as int;
    // The per-template lists.
    let mut lists: Vec<InputOutputList> = Vec::new();
    let ghost mut gviews: Seq<Seq<(usize, Seq<usize>)>> = Seq::empty();
    let mut i: usize = 0;
    while i < io_size
        invariant
            gb == bytes@,
            len == gb.len(),
            i <= io_size,
            cur <= len,
            lists@.len() == i,
            gviews.len() == i,
            forall|m: int| 0 <= m < i ==> iolist_ok(#[trigger] lists@[m], gviews[m]),
            dec_iolists(gb, glists_off, io_size as nat) == (match dec_iolists(
                gb,
                cur as int,
                (io_size - i) as nat,
            ) {
                Some(p) => Some::<(Seq<Seq<(usize, Seq<usize>)>>, int)>((gviews + p.0, p.1)),
                None => None::<(Seq<Seq<(usize, Seq<usize>)>>, int)>,
            }),
        decreases io_size - i,
    {
        let (l, cur2) = match read_iolist(bytes, cur) {
            Ok(p) => p,
            Err(e) => {
                return Err(e);
            },
        };
        proof {
            let lv = dec_iolist(gb, cur as int)->0;
            let rest = dec_iolists(gb, cur2 as int, (io_size - i - 1) as nat);
            if rest is Some {
                assert(gviews + (seq![lv.0] + (rest->0).0) =~= gviews.push(lv.0) + (rest->0).0);
            }
            gviews = gviews.push(lv.0);
        }
        lists.push(l);
        cur = cur2;
        i += 1;
    }
    // Place each list at its reduced index.
    let mut map: Vec<InputOutputList> = Vec::new();
    let mut j: usize = 0;
    while j < hashmap_size
        invariant
            j <= hashmap_size,
            map@.len() == j,
            forall|m: int|
                0 <= m < j ==> iolist_ok(
                    #[trigger] map@[m],
                    empty_io_views(hashmap_size as nat)[m],
                ),
        decreases hashmap_size - j,
    {
        map.push(InputOutputList { defs: Vec::new() });
        j += 1;
    }
    let mut k: usize = 0;
    let mut rest = lists;
    while k < io_size
        invariant
            0 < hashmap_size,
            gidx.len() == io_size,
            gviews.len() == io_size,
            k <= io_size,
            indices@ == gidx,
            rest@.len() == io_size - k,
            forall|m: int|
                0 <= m < io_size - k ==> iolist_ok(#[trigger] rest@[m], gviews[k + m]),
            map@.len() == hashmap_size,
            forall|j2: int|
                0 <= j2 < hashmap_size ==> iolist_ok(
                    #[trigger] map@[j2],
                    scatter_upto(
                        empty_io_views(hashmap_size as nat),
                        gidx,
                        gviews,
                        k as int,
                        hashmap_size as nat,
                    )[j2],
                ),
        decreases io_size - k,
    {
        let l = rest.remove(0);
        let slot = (indices[k] as usize) % hashmap_size;
        map[slot] = l;
        proof {
            let hs = hashmap_size as nat;
            let prev = scatter_upto(empty_io_views(hs), gidx, gviews, k as int, hs);
            let cur = scatter_upto(empty_io_views(hs), gidx, gviews, k + 1, hs);
            lemma_scatter_len(empty_io_views(hs), gidx, gviews, k as int, hs);
            lemma_scatter_len(empty_io_views(hs), gidx, gviews, k + 1, hs);
            assert(cur == prev.update(((gidx[k as int] as nat) % hs) as int, gviews[k as int]));
            assert(slot as int == ((gidx[k as int] as nat) % hs) as int);
            assert(iolist_ok(map@[slot as int], gviews[k as int]));
            assert forall|j2: int| 0 <= j2 < hashmap_size implies iolist_ok(
                #[trigger] map@[j2],
                cur[j2],
            ) by {
                if j2 == slot as int {
                    assert(cur[j2] == gviews[k as int]);
                } else {
                    assert(cur[j2] == prev[j2]);
                }
            }
        }
        k += 1;
    }
    Ok(map)
}

} // verus!

