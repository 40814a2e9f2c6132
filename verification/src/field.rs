//! Field value model: 256-bit unsigned values and arithmetic over the scalar
//! field of the proof system, whose prime modulus is `p_nat()`.

use vstd::prelude::*;
use vstd::arithmetic::div_mod::{
    lemma_fundamental_div_mod, lemma_fundamental_div_mod_converse, lemma_small_mod,
};

verus! {

/// An unsigned 256-bit value stored as four 64-bit words, least significant
/// first.
#[derive(Clone, Copy, Debug, PartialEq, Eq, Structural)]
pub struct Uint256 {
    pub w0: u64,
    pub w1: u64,
    pub w2: u64,
    pub w3: u64,
}

pub open spec fn pow2_64() -> nat {
    0x10000000000000000
}

pub open spec fn pow2_128() -> nat {
    0x100000000000000000000000000000000nat
}

pub open spec fn pow2_192() -> nat {
    0x1000000000000000000000000000000000000000000000000nat
}

pub open spec fn pow2_256() -> nat {
    0x10000000000000000000000000000000000000000000000000000000000000000nat
}

/// The prime modulus of the proof system's scalar field.
pub open spec fn p_nat() -> nat {
    21888242871839275222246405745257275088548364400416034343698204186575808495617nat
}

/// The integer a 256-bit value denotes.
pub open spec fn u256_nat(a: Uint256) -> nat {
    (a.w0 + a.w1 * pow2_64() + a.w2 * pow2_128() + a.w3 * pow2_192()) as nat
}

/// The canonical 256-bit encoding of an integer below `pow2_256()`.
pub open spec fn nat_to_u256(n: nat) -> Uint256 {
    Uint256 {
        w0: (n % pow2_64()) as u64,
        w1: ((n / pow2_64()) % pow2_64()) as u64,
        w2: ((n / pow2_128()) % pow2_64()) as u64,
        w3: ((n / pow2_192()) % pow2_64()) as u64,
    }
}

pub proof fn lemma_u256_nat_bound(a: Uint256)
    ensures
        u256_nat(a) < pow2_256(),
{
    assert(a.w1 * pow2_64() <= 0xffffffffffffffff * pow2_64());
    assert(a.w2 * pow2_128() <= 0xffffffffffffffff * pow2_128());
    assert(a.w3 * pow2_192() <= 0xffffffffffffffff * pow2_192());
}

/// Each word of a value is the matching base-2^64 digit of its integer.
pub proof fn lemma_u256_digits(a: Uint256)
    ensures
        u256_nat(a) % pow2_64() == a.w0,
        (u256_nat(a) / pow2_64()) % pow2_64() == a.w1,
        (u256_nat(a) / pow2_128()) % pow2_64() == a.w2,
        (u256_nat(a) / pow2_192()) % pow2_64() == a.w3,
{
    let n = u256_nat(a) as int;
    let d1 = a.w1 + a.w2 * pow2_64() + a.w3 * pow2_128();
    let d2 = a.w2 + a.w3 * pow2_64();

    assert(n == d1 * pow2_64() + a.w0);
    lemma_fundamental_div_mod_converse(n, pow2_64() as int, d1, a.w0 as int);

    assert(d1 == d2 * pow2_64() + a.w1);
    lemma_fundamental_div_mod_converse(d1, pow2_64() as int, d2, a.w1 as int);

    lemma_fundamental_div_mod_converse(d2, pow2_64() as int, a.w3 as int, a.w2 as int);

    assert(n == d2 * pow2_128() + (a.w0 + a.w1 * pow2_64()));
    lemma_fundamental_div_mod_converse(n, pow2_128() as int, d2, a.w0 + a.w1 * pow2_64());

    assert(n == a.w3 * pow2_192() + (a.w0 + a.w1 * pow2_64() + a.w2 * pow2_128()));
    lemma_fundamental_div_mod_converse(
        n,
        pow2_192() as int,
        a.w3 as int,
        a.w0 + a.w1 * pow2_64() + a.w2 * pow2_128(),
    );
    lemma_small_mod(a.w2 as nat, pow2_64());
    lemma_small_mod(a.w3 as nat, pow2_64());
}

/// A value is the canonical encoding of its integer.
pub proof fn lemma_u256_canonical(a: Uint256)
    ensures
        nat_to_u256(u256_nat(a)) == a,
{
    lemma_u256_digits(a);
}

/// Two values denoting the same integer are the same value.
pub proof fn lemma_u256_nat_injective(a: Uint256, b: Uint256)
    ensures
        u256_nat(a) == u256_nat(b) ==> a == b,
{
    if u256_nat(a) == u256_nat(b) {
        lemma_u256_canonical(a);
        lemma_u256_canonical(b);
    }
}

/// An integer below 2^256 survives the trip through its canonical value.
pub proof fn lemma_nat_to_u256_roundtrip(n: nat)
    requires
        n < pow2_256(),
    ensures
        u256_nat(nat_to_u256(n)) == n,
{
    let w0 = n % pow2_64();
    let q1 = n / pow2_64();
    let w1 = q1 % pow2_64();
    let q2 = q1 / pow2_64();
    let w2 = q2 % pow2_64();
    let q3 = q2 / pow2_64();

    lemma_fundamental_div_mod(n as int, pow2_64() as int);
    lemma_fundamental_div_mod(q1 as int, pow2_64() as int);
    lemma_fundamental_div_mod(q2 as int, pow2_64() as int);

    // q2 and q3 are what nat_to_u256 computes by dividing n directly.
    vstd::arithmetic::div_mod::lemma_div_denominator(n as int, pow2_64() as int, pow2_64() as int);
    assert(q2 == n / pow2_128());
    vstd::arithmetic::div_mod::lemma_div_denominator(n as int, pow2_128() as int, pow2_64() as int);
    assert(q3 == n / pow2_192());

    assert(q3 < pow2_64()) by {
        lemma_fundamental_div_mod(n as int, pow2_192() as int);
        if q3 >= pow2_64() {
            assert(pow2_192() * q3 >= pow2_192() * pow2_64()) by {
                vstd::arithmetic::mul::lemma_mul_inequality(
                    pow2_64() as int,
                    q3 as int,
                    pow2_192() as int,
                );
            }
            assert(false);
        }
    }
    lemma_small_mod(q3, pow2_64());
    assert(n == w0 + q1 * pow2_64());
    assert(q1 == w1 + q2 * pow2_64());
    assert(q2 == w2 + q3 * pow2_64());
}

// Words of the prime modulus, least significant first.
pub const P_W0: u64 = 0x43e1f593f0000001;

pub const P_W1: u64 = 0x2833e84879b97091;

pub const P_W2: u64 = 0xb85045b68181585d;

pub const P_W3: u64 = 0x30644e72e131a029;

/// The field modulus as a 256-bit value.
pub fn modulus() -> (m: Uint256)
    ensures
        u256_nat(m) == p_nat(),
{
    Uint256 { w0: P_W0, w1: P_W1, w2: P_W2, w3: P_W3 }
}

pub fn u256_zero() -> (r: Uint256)
    ensures
        u256_nat(r) == 0,
{
    Uint256 { w0: 0, w1: 0, w2: 0, w3: 0 }
}

pub fn u256_one() -> (r: Uint256)
    ensures
        u256_nat(r) == 1,
{
    Uint256 { w0: 1, w1: 0, w2: 0, w3: 0 }
}

pub fn u256_from_u64(x: u64) -> (r: Uint256)
    ensures
        u256_nat(r) == x,
{
    Uint256 { w0: x, w1: 0, w2: 0, w3: 0 }
}

pub fn u256_is_zero(a: &Uint256) -> (r: bool)
    ensures
        r == (u256_nat(*a) == 0),
{
    a.w0 == 0 && a.w1 == 0 && a.w2 == 0 && a.w3 == 0
}

/// Whether `a` denotes a smaller integer than `b`: word-by-word comparison
/// from the most significant end.
pub fn u256_lt(a: &Uint256, b: &Uint256) -> (r: bool)
    ensures
        r == (u256_nat(*a) < u256_nat(*b)),
{
    proof {
        lemma_u256_cmp(*a, *b);
    }
    if a.w3 != b.w3 {
        a.w3 < b.w3
    } else if a.w2 != b.w2 {
        a.w2 < b.w2
    } else if a.w1 != b.w1 {
        a.w1 < b.w1
    } else {
        a.w0 < b.w0
    }
}

/// Lexicographic word order agrees with the integer order.
proof fn lemma_u256_cmp(a: Uint256, b: Uint256)
    ensures
        a.w3 < b.w3 ==> u256_nat(a) < u256_nat(b),
        a.w3 == b.w3 && a.w2 < b.w2 ==> u256_nat(a) < u256_nat(b),
        a.w3 == b.w3 && a.w2 == b.w2 && a.w1 < b.w1 ==> u256_nat(a) < u256_nat(b),
        a.w3 == b.w3 && a.w2 == b.w2 && a.w1 == b.w1 ==> (u256_nat(a) < u256_nat(b) <==> a.w0
            < b.w0),
{
    lemma_scaled_lt(a.w3 as nat, b.w3 as nat, pow2_192(), (a.w0 + a.w1 * pow2_64() + a.w2
        * pow2_128()) as nat, (b.w0 + b.w1 * pow2_64() + b.w2 * pow2_128()) as nat);
    lemma_scaled_lt(a.w2 as nat, b.w2 as nat, pow2_128(), (a.w0 + a.w1 * pow2_64()) as nat, (b.w0
        + b.w1 * pow2_64()) as nat);
    lemma_scaled_lt(a.w1 as nat, b.w1 as nat, pow2_64(), a.w0 as nat, b.w0 as nat);
}

/// If the leading digit is smaller and the tails are bounded by the scale,
/// the whole number is smaller.
proof fn lemma_scaled_lt(x: nat, y: nat, scale: nat, xt: nat, yt: nat)
    requires
        xt < scale,
        yt < scale,
    ensures
        x < y ==> x * scale + xt < y * scale + yt,
{
    if x < y {
        assert((x + 1) * scale <= y * scale) by {
            vstd::arithmetic::mul::lemma_mul_inequality((x + 1) as int, y as int, scale as int);
        }
        assert((x + 1) * scale == x * scale + scale) by {
            vstd::arithmetic::mul::lemma_mul_is_distributive_add_other_way(
                scale as int,
                x as int,
                1,
            );
        }
    }
}

/// 64-bit subtract-with-borrow.
fn sbb(x: u64, y: u64, borrow: bool) -> (r: (u64, bool))
    ensures
        (r.0 as int) - (if r.1 {
            pow2_64() as int
        } else {
            0
        }) == x - y - (if borrow {
            1int
        } else {
            0int
        }),
{
    if borrow && y == u64::MAX {
        // The subtrahend is exactly 2^64.
        return (x, true);
    }
    let yb: u64 = if borrow {
        y + 1
    } else {
        y
    };
    if x >= yb {
        (x - yb, false)
    } else {
        ((x as u128 + pow2_64_u128() - yb as u128) as u64, true)
    }
}

#[inline]
fn pow2_64_u128() -> (r: u128)
    ensures
        r == pow2_64(),
{
    0x10000000000000000u128
}

/// 256-bit subtraction for `b <= a`.
pub fn u256_sub(a: &Uint256, b: &Uint256) -> (r: Uint256)
    requires
        u256_nat(*b) <= u256_nat(*a),
    ensures
        u256_nat(r) == u256_nat(*a) - u256_nat(*b),
{
    let (d0, c0) = sbb(a.w0, b.w0, false);
    let (d1, c1) = sbb(a.w1, b.w1, c0);
    let (d2, c2) = sbb(a.w2, b.w2, c1);
    let (d3, c3) = sbb(a.w3, b.w3, c2);
    let r = Uint256 { w0: d0, w1: d1, w2: d2, w3: d3 };
    proof {
        let borrow_out: int = if c3 {
            1
        } else {
            0
        };
        assert(u256_nat(r) - borrow_out * pow2_256() == u256_nat(*a) - u256_nat(*b));
        lemma_u256_nat_bound(r);
    }
    r
}


/// A modular inverse witness: x inverts a modulo m.
pub open spec fn is_inverse(a: nat, x: nat, m: nat) -> bool {
    x < m && (a * x) % m == 1
}

/// b raised to the e-th power, over the unbounded integers.
pub open spec fn pow_nat(b: nat, e: nat) -> nat
    decreases e,
{
    if e == 0 {
        1
    } else {
        b * pow_nat(b, (e - 1) as nat)
    }
}

/// Relies on ruint's Uint::add_mod: the sum modulo a nonzero modulus,
/// computed without truncation.
#[verifier::external_body]
pub fn u256_add_mod(a: &Uint256, b: &Uint256, m: &Uint256) -> (r: Uint256)
    requires
        u256_nat(*m) > 0,
    ensures
        u256_nat(r) == (u256_nat(*a) + u256_nat(*b)) % u256_nat(*m),
{
    let x = ruint::aliases::U256::from_limbs([a.w0, a.w1, a.w2, a.w3]);
    let y = ruint::aliases::U256::from_limbs([b.w0, b.w1, b.w2, b.w3]);
    let md = ruint::aliases::U256::from_limbs([m.w0, m.w1, m.w2, m.w3]);
    let l = x.add_mod(y, md).into_limbs();
    Uint256 { w0: l[0], w1: l[1], w2: l[2], w3: l[3] }
}

/// Relies on ruint's Uint::mul_mod: the product modulo a nonzero modulus,
/// computed over the full 512-bit intermediate.
#[verifier::external_body]
pub fn u256_mul_mod(a: &Uint256, b: &Uint256, m: &Uint256) -> (r: Uint256)
    requires
        u256_nat(*m) > 0,
    ensures
        u256_nat(r) == (u256_nat(*a) * u256_nat(*b)) % u256_nat(*m),
{
    let x = ruint::aliases::U256::from_limbs([a.w0, a.w1, a.w2, a.w3]);
    let y = ruint::aliases::U256::from_limbs([b.w0, b.w1, b.w2, b.w3]);
    let md = ruint::aliases::U256::from_limbs([m.w0, m.w1, m.w2, m.w3]);
    let l = x.mul_mod(y, md).into_limbs();
    Uint256 { w0: l[0], w1: l[1], w2: l[2], w3: l[3] }
}

/// Relies on ruint's Uint::pow_mod: exponentiation by squaring modulo a
/// nonzero modulus (a modulus of one yields zero, which is the residue).
#[verifier::external_body]
pub fn u256_pow_mod(a: &Uint256, e: &Uint256, m: &Uint256) -> (r: Uint256)
    requires
        u256_nat(*m) > 0,
    ensures
        u256_nat(r) == pow_nat(u256_nat(*a), u256_nat(*e)) % u256_nat(*m),
{
    let x = ruint::aliases::U256::from_limbs([a.w0, a.w1, a.w2, a.w3]);
    let y = ruint::aliases::U256::from_limbs([e.w0, e.w1, e.w2, e.w3]);
    let md = ruint::aliases::U256::from_limbs([m.w0, m.w1, m.w2, m.w3]);
    let l = x.pow_mod(y, md).into_limbs();
    Uint256 { w0: l[0], w1: l[1], w2: l[2], w3: l[3] }
}

/// Relies on ruint's Uint::inv_mod: the modular inverse where one exists
/// (the operand and modulus are coprime), and None where none does.
#[verifier::external_body]
pub fn u256_inv_mod(a: &Uint256, m: &Uint256) -> (r: Option<Uint256>)
    ensures
        r is Some <==> exists|x: nat| is_inverse(u256_nat(*a), x, u256_nat(*m)),
        r is Some ==> is_inverse(u256_nat(*a), u256_nat(r->0), u256_nat(*m)),
{
    let x = ruint::aliases::U256::from_limbs([a.w0, a.w1, a.w2, a.w3]);
    let md = ruint::aliases::U256::from_limbs([m.w0, m.w1, m.w2, m.w3]);
    match x.inv_mod(md) {
        Some(v) => {
            let l = v.into_limbs();
            Some(Uint256 { w0: l[0], w1: l[1], w2: l[2], w3: l[3] })
        },
        None => None,
    }
}

/// Relies on ruint's Uint::checked_div: the integer quotient, None for a
/// zero divisor.
#[verifier::external_body]
pub fn u256_checked_div(a: &Uint256, b: &Uint256) -> (r: Option<Uint256>)
    ensures
        r is Some <==> u256_nat(*b) != 0,
        r is Some ==> u256_nat(r->0) == u256_nat(*a) / u256_nat(*b),
{
    let x = ruint::aliases::U256::from_limbs([a.w0, a.w1, a.w2, a.w3]);
    let y = ruint::aliases::U256::from_limbs([b.w0, b.w1, b.w2, b.w3]);
    match x.checked_div(y) {
        Some(v) => {
            let l = v.into_limbs();
            Some(Uint256 { w0: l[0], w1: l[1], w2: l[2], w3: l[3] })
        },
        None => None,
    }
}

/// Relies on ruint's Uint::checked_rem: the integer remainder, None for a
/// zero divisor.
#[verifier::external_body]
pub fn u256_checked_rem(a: &Uint256, b: &Uint256) -> (r: Option<Uint256>)
    ensures
        r is Some <==> u256_nat(*b) != 0,
        r is Some ==> u256_nat(r->0) == u256_nat(*a) % u256_nat(*b),
{
    let x = ruint::aliases::U256::from_limbs([a.w0, a.w1, a.w2, a.w3]);
    let y = ruint::aliases::U256::from_limbs([b.w0, b.w1, b.w2, b.w3]);
    match x.checked_rem(y) {
        Some(v) => {
            let l = v.into_limbs();
            Some(Uint256 { w0: l[0], w1: l[1], w2: l[2], w3: l[3] })
        },
        None => None,
    }
}

/// Relies on ruint's Uint::wrapping_shl: the value times 2^k, truncated to
/// 256 bits (k of 256 or more shifts everything out).
#[verifier::external_body]
pub fn u256_shl(a: &Uint256, k: u64) -> (r: Uint256)
    ensures
        u256_nat(r) == (u256_nat(*a) * pow_nat(2, k as nat)) % pow2_256(),
{
    let x = ruint::aliases::U256::from_limbs([a.w0, a.w1, a.w2, a.w3]);
    let l = x.wrapping_shl(k as usize).into_limbs();
    Uint256 { w0: l[0], w1: l[1], w2: l[2], w3: l[3] }
}

/// Relies on ruint's Uint::wrapping_shr: the value divided by 2^k, rounded
/// down (k of 256 or more yields zero).
#[verifier::external_body]
pub fn u256_shr(a: &Uint256, k: u64) -> (r: Uint256)
    ensures
        u256_nat(r) == u256_nat(*a) / pow_nat(2, k as nat),
{
    let x = ruint::aliases::U256::from_limbs([a.w0, a.w1, a.w2, a.w3]);
    let l = x.wrapping_shr(k as usize).into_limbs();
    Uint256 { w0: l[0], w1: l[1], w2: l[2], w3: l[3] }
}

/// Relies on ruint's Uint::mul_redc: Montgomery multiplication; for reduced
/// operands, an odd modulus and the matching one-word inverse, the result is
/// the reduced product carrying one inverse power of 2^256.
#[verifier::external_body]
pub fn u256_mul_redc(a: &Uint256, b: &Uint256, m: &Uint256, inv: u64) -> (r: Uint256)
    requires
        u256_nat(*a) < u256_nat(*m),
        u256_nat(*b) < u256_nat(*m),
        u256_nat(*m) % 2 == 1,
        ((m.w0 * inv + 1) as nat) % pow2_64() == 0,
    ensures
        u256_nat(r) < u256_nat(*m),
        (u256_nat(r) * pow2_256()) % u256_nat(*m) == (u256_nat(*a) * u256_nat(*b)) % u256_nat(
            *m,
        ),
{
    let x = ruint::aliases::U256::from_limbs([a.w0, a.w1, a.w2, a.w3]);
    let y = ruint::aliases::U256::from_limbs([b.w0, b.w1, b.w2, b.w3]);
    let md = ruint::aliases::U256::from_limbs([m.w0, m.w1, m.w2, m.w3]);
    let l = x.mul_redc(y, md, inv).into_limbs();
    Uint256 { w0: l[0], w1: l[1], w2: l[2], w3: l[3] }
}

/// Bitwise conjunction, word by word.
pub open spec fn u256_band_spec(a: Uint256, b: Uint256) -> Uint256 {
    Uint256 { w0: a.w0 & b.w0, w1: a.w1 & b.w1, w2: a.w2 & b.w2, w3: a.w3 & b.w3 }
}

/// Bitwise disjunction, word by word.
pub open spec fn u256_bor_spec(a: Uint256, b: Uint256) -> Uint256 {
    Uint256 { w0: a.w0 | b.w0, w1: a.w1 | b.w1, w2: a.w2 | b.w2, w3: a.w3 | b.w3 }
}

/// Bitwise exclusive disjunction, word by word.
pub open spec fn u256_bxor_spec(a: Uint256, b: Uint256) -> Uint256 {
    Uint256 { w0: a.w0 ^ b.w0, w1: a.w1 ^ b.w1, w2: a.w2 ^ b.w2, w3: a.w3 ^ b.w3 }
}

/// Bitwise complement, word by word.
pub open spec fn u256_bnot_spec(a: Uint256) -> Uint256 {
    Uint256 { w0: !a.w0, w1: !a.w1, w2: !a.w2, w3: !a.w3 }
}

pub fn u256_band(a: &Uint256, b: &Uint256) -> (r: Uint256)
    ensures
        r == u256_band_spec(*a, *b),
{
    Uint256 { w0: a.w0 & b.w0, w1: a.w1 & b.w1, w2: a.w2 & b.w2, w3: a.w3 & b.w3 }
}

pub fn u256_bor(a: &Uint256, b: &Uint256) -> (r: Uint256)
    ensures
        r == u256_bor_spec(*a, *b),
{
    Uint256 { w0: a.w0 | b.w0, w1: a.w1 | b.w1, w2: a.w2 | b.w2, w3: a.w3 | b.w3 }
}

pub fn u256_bxor(a: &Uint256, b: &Uint256) -> (r: Uint256)
    ensures
        r == u256_bxor_spec(*a, *b),
{
    Uint256 { w0: a.w0 ^ b.w0, w1: a.w1 ^ b.w1, w2: a.w2 ^ b.w2, w3: a.w3 ^ b.w3 }
}

pub fn u256_bnot(a: &Uint256) -> (r: Uint256)
    ensures
        r == u256_bnot_spec(*a),
{
    Uint256 { w0: !a.w0, w1: !a.w1, w2: !a.w2, w3: !a.w3 }
}

} // verus!

