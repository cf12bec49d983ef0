//! Arithmetic in GF(2^8), the field of 256 elements in which a byte stands for
//! a polynomial over GF(2) taken modulo x^8 + x^4 + x^3 + x + 1.
//!
//! Addition in the field is bitwise XOR. Multiplication is defined by shifting
//! and adding. The lemmas give the laws of the multiplication that the cipher
//! rests on: that it is linear, that every nonzero element has exactly one
//! inverse, and that the powers of 3 reach every nonzero element, so that the
//! inverse can be had from logarithms.
//!
//! Where a law is a finite check, it is proved by running through all the
//! bytes: a recursive predicate counts down from 256, and the bit-vector
//! solver unfolds it.

use vstd::prelude::*;

verus! {

/// Multiplication by x (the element 2): a left shift, reduced by the field
/// polynomial when the top bit falls off.
pub open spec fn xtime(v: u8) -> u8 {
    (v << 1) ^ (if v & 0x80 != 0 { 0x1bu8 } else { 0u8 })
}

/// The sum of `a_j * x^j * b` over the bits `j` in `i..8` of `a`, where `v` is
/// `b` already multiplied by `x^i`.
pub open spec fn gf_mul_from(a: u8, v: u8, i: nat) -> u8
    decreases 8 - i,
{
    if i >= 8 {
        0
    } else {
        (if (a >> (i as u8)) & 1 != 0 { v } else { 0 }) ^ gf_mul_from(a, xtime(v), i + 1)
    }
}

/// The product of `a` and `b` in GF(2^8).
pub open spec fn gf_mul(a: u8, b: u8) -> u8 {
    gf_mul_from(a, b, 0)
}

/// The bytewise XOR of `a` with `b`, as long as `a`.
pub open spec fn xor_bytes(a: Seq<u8>, b: Seq<u8>) -> Seq<u8> {
    Seq::new(a.len(), |i: int| a[i] ^ b[i])
}

/// The basic identities of XOR on bytes.
pub proof fn lemma_xor_laws(a: u8, b: u8, c: u8)
    by (bit_vector)
    ensures
        a ^ 0 == a,
        0 ^ a == a,
        a ^ a == 0,
        a ^ b == b ^ a,
        (a ^ b) ^ c == a ^ (b ^ c),
        (a ^ b) ^ b == a,
{
}

/// Multiplies `l` by `r` in GF(2^8).
pub fn mul(l: u8, r: u8) -> (res: u8)
    ensures
        res == gf_mul(l, r),
{
    let mut res: u8 = 0;
    let mut v: u8 = r;
    let mut i: u8 = 0;
    proof {
        lemma_xor_laws(gf_mul(l, r), 0, 0);
    }
    while i < 8
        invariant
            i <= 8,
            res ^ gf_mul_from(l, v, i as nat) == gf_mul(l, r),
        decreases 8 - i,
    {
        let ghost rest = gf_mul_from(l, xtime(v), (i + 1) as nat);
        if (l >> i) & 1 != 0 {
            proof {
                lemma_xor_laws(res, v, rest);
            }
            res ^= v;
        } else {
            proof {
                lemma_xor_laws(rest, 0, 0);
            }
        }
        v = (v << 1) ^ (if v & 0x80 != 0 { 0x1b } else { 0 });
        i += 1;
    }
    proof {
        lemma_xor_laws(res, 0, 0);
    }
    res
}

/// 1 is the unit of the multiplication.
pub proof fn lemma_mul_one(a: u8)
    by (bit_vector)
    ensures
        gf_mul(1, a) == a,
        gf_mul(a, 1) == a,
{
}

/// Doubling and the selection of a term are linear over XOR.
proof fn lemma_xtime_linear(v: u8, w: u8, a: u8, i: u8)
    by (bit_vector)
    ensures
        xtime(v ^ w) == xtime(v) ^ xtime(w),
        xtime(0) == 0,
        (if (a >> i) & 1 != 0 { v ^ w } else { 0 }) == (if (a >> i) & 1 != 0 { v } else { 0 })
            ^ (if (a >> i) & 1 != 0 { w } else { 0 }),
        (if (a >> i) & 1 != 0 { xtime(v) } else { 0 }) == xtime(
            if (a >> i) & 1 != 0 { v } else { 0 },
        ),
{
}

/// Two sums, term by term.
proof fn lemma_xor_pairs(a: u8, b: u8, c: u8, d: u8)
    by (bit_vector)
    ensures
        (a ^ b) ^ (c ^ d) == (a ^ c) ^ (b ^ d),
{
}

/// The partial products are linear in the second factor.
proof fn lemma_gf_mul_from_linear(a: u8, v: u8, w: u8, i: nat)
    ensures
        gf_mul_from(a, v ^ w, i) == gf_mul_from(a, v, i) ^ gf_mul_from(a, w, i),
        gf_mul_from(a, xtime(v), i) == xtime(gf_mul_from(a, v, i)),
    decreases 8 - i,
{
    if i >= 8 {
        lemma_xor_laws(0, 0, 0);
        lemma_xtime_linear(v, w, a, 0);
    } else {
        lemma_xtime_linear(v, w, a, i as u8);
        lemma_gf_mul_from_linear(a, xtime(v), xtime(w), i + 1);
        let tv = if (a >> (i as u8)) & 1 != 0 { v } else { 0 };
        let tw = if (a >> (i as u8)) & 1 != 0 { w } else { 0 };
        lemma_xor_pairs(
            tv,
            gf_mul_from(a, xtime(v), i + 1),
            tw,
            gf_mul_from(a, xtime(w), i + 1),
        );
        lemma_xtime_linear(tv, gf_mul_from(a, xtime(v), i + 1), a, i as u8);
    }
}

/// Multiplication distributes over addition: it is linear in its second
/// factor.
pub proof fn lemma_mul_distributes(a: u8, b: u8, c: u8)
    ensures
        gf_mul(a, b ^ c) == gf_mul(a, b) ^ gf_mul(a, c),
{
    lemma_gf_mul_from_linear(a, b, c, 0);
}

/// Doubling moves out of the second factor of a product.
pub proof fn lemma_mul_double(a: u8, b: u8)
    ensures
        gf_mul(a, xtime(b)) == xtime(gf_mul(a, b)),
{
    lemma_gf_mul_from_linear(a, b, b, 0);
}

/// The 254th power of `a`, by repeated squaring. Every nonzero element of the
/// field has multiplicative order dividing 255, so this is the inverse of `a`;
/// for `a == 0` it is 0.
pub open spec fn gf_inv(a: u8) -> u8 {
    let a2 = gf_mul(a, a);
    let a4 = gf_mul(a2, a2);
    let a8 = gf_mul(a4, a4);
    let a16 = gf_mul(a8, a8);
    let a32 = gf_mul(a16, a16);
    let a64 = gf_mul(a32, a32);
    let a128 = gf_mul(a64, a64);
    gf_mul(a128, gf_mul(a64, gf_mul(a32, gf_mul(a16, gf_mul(a8, gf_mul(a4, a2))))))
}

/// Whether each nonzero `a` below `n` gives 1 when multiplied by `gf_inv(a)`
/// from either side.
spec fn inverses_below(n: nat) -> bool
    decreases n,
{
    if n <= 1 {
        true
    } else {
        let a = (n - 1) as u8;
        gf_mul(a, gf_inv(a)) == 1 && gf_mul(gf_inv(a), a) == 1 && inverses_below((n - 1) as nat)
    }
}

/// What `inverses_below` says of one `a`.
proof fn lemma_inverses_below(n: nat, a: u8)
    requires
        inverses_below(n),
        0 < a < n,
    ensures
        gf_mul(a, gf_inv(a)) == 1,
        gf_mul(gf_inv(a), a) == 1,
    decreases n,
{
    if a < n - 1 {
        lemma_inverses_below((n - 1) as nat, a);
    }
}

/// Every nonzero element times its inverse is 1, and the inverse of 0 is 0.
pub proof fn lemma_gf_inv(a: u8)
    ensures
        a != 0 ==> gf_mul(a, gf_inv(a)) == 1 && gf_mul(gf_inv(a), a) == 1,
        gf_inv(0) == 0,
{
    assert(inverses_below(256)) by (bit_vector);
    assert(gf_inv(0) == 0) by (bit_vector);
    if a != 0 {
        lemma_inverses_below(256, a);
    }
}

/// A product is 0 only where a factor is 0.
pub proof fn lemma_no_zero_divisors(a: u8, b: u8)
    by (bit_vector)
    requires
        gf_mul(a, b) == 0,
    ensures
        a == 0 || b == 0,
{
}

/// A product is 1 only with the inverse: `gf_inv(a)` is the one inverse that
/// `a` has, however it is computed.
pub proof fn lemma_gf_inv_unique(a: u8, b: u8)
    requires
        gf_mul(a, b) == 1,
    ensures
        b == gf_inv(a),
{
    let c = gf_inv(a);
    assert(gf_mul(0, b) == 0) by (bit_vector);
    lemma_gf_inv(a);
    lemma_mul_distributes(a, b, c);
    assert(1u8 ^ 1u8 == 0 && (b ^ c == 0 ==> b == c)) by (bit_vector);
    lemma_no_zero_divisors(a, b ^ c);
}

/// The power `3^k` in GF(2^8).
pub open spec fn gf_exp(k: nat) -> u8
    decreases k,
{
    if k == 0 {
        1
    } else {
        gf_mul(3, gf_exp((k - 1) as nat))
    }
}

/// A logarithm of `a` to the base 3: an exponent of at most 255 whose power
/// of 3 is `a`. Every nonzero `a` has one.
pub open spec fn gf_log(a: u8) -> nat {
    choose|k: nat| k <= 255 && gf_exp(k) == a
}

/// The inverse of a nonzero `a` by logarithms: 3 to the power 255 less the
/// logarithm of `a`.
pub open spec fn gf_inv_by_log(a: u8) -> u8 {
    gf_exp((255 - gf_log(a)) as nat)
}

/// Whether `a` is one of the `n` elements `p`, `3 * p`, `9 * p`, and so on.
spec fn power_among(n: nat, p: u8, a: u8) -> bool
    decreases n,
{
    if n == 0 {
        false
    } else {
        p == a || power_among((n - 1) as nat, gf_mul(3, p), a)
    }
}

/// What `power_among` says where `p` is the power `3^j`: an exponent from
/// `j` on, below `j + n`.
proof fn lemma_power_among(n: nat, j: nat, a: u8) -> (k: nat)
    requires
        power_among(n, gf_exp(j), a),
    ensures
        j <= k < j + n,
        gf_exp(k) == a,
    decreases n,
{
    if gf_exp(j) == a {
        j
    } else {
        lemma_power_among((n - 1) as nat, j + 1, a)
    }
}

/// 3 generates the nonzero elements of the field: each is a power of 3, and
/// its logarithm is an exponent of that power.
pub proof fn lemma_generator(a: u8)
    requires
        a != 0,
    ensures
        gf_log(a) <= 255,
        gf_exp(gf_log(a)) == a,
{
    assert(a != 0 ==> power_among(255, 1, a)) by (bit_vector);
    let k = lemma_power_among(255, 0, a);
}

/// A factor 3 moves out of the second factor of a product.
proof fn lemma_mul_three(a: u8, b: u8)
    ensures
        gf_mul(a, gf_mul(3, b)) == gf_mul(3, gf_mul(a, b)),
{
    let p = gf_mul(a, b);
    assert(gf_mul(3, b) == xtime(b) ^ b && gf_mul(3, p) == xtime(p) ^ p) by (bit_vector);
    lemma_mul_distributes(a, xtime(b), b);
    lemma_mul_double(a, b);
}

/// The power of a sum of exponents is the product of the powers.
pub proof fn lemma_gf_exp_add(j: nat, k: nat)
    ensures
        gf_exp(j + k) == gf_mul(gf_exp(j), gf_exp(k)),
    decreases k,
{
    if k == 0 {
        lemma_mul_one(gf_exp(j));
    } else {
        lemma_gf_exp_add(j, (k - 1) as nat);
        lemma_mul_three(gf_exp(j), gf_exp((k - 1) as nat));
    }
}

/// The inverse by logarithms is the inverse: its product with a nonzero `a`
/// is 1, and it is `gf_inv(a)`.
pub proof fn lemma_gf_inv_by_log(a: u8)
    requires
        a != 0,
    ensures
        gf_mul(a, gf_inv_by_log(a)) == 1,
        gf_inv_by_log(a) == gf_inv(a),
{
    lemma_generator(a);
    let k = gf_log(a);
    assert(gf_exp(255) == 1) by (bit_vector);
    lemma_gf_exp_add(k, (255 - k) as nat);
    lemma_gf_inv_unique(a, gf_inv_by_log(a));
}

} // verus!
