//! What each mode of operation computes, as functions on byte sequences.
//!
//! A mode speaks of the block cipher through a block map alone: a function
//! from byte sequences to byte sequences that is applied to blocks of `b`
//! bytes. The lemmas here are the arithmetic of blocks, chunks and counters
//! that the modes and their laws rest on.

use vstd::prelude::*;
use vstd::arithmetic::div_mod::{
    lemma_fundamental_div_mod, lemma_fundamental_div_mod_converse, lemma_mod_bound,
    lemma_mod_decreases,
};
use crate::gf256::xor_bytes;

verus! {

/// Whether `e` maps every block of `b` bytes to such a block, from which `d`
/// gives the first one back.
pub open spec fn inverts(
    d: spec_fn(Seq<u8>) -> Seq<u8>,
    e: spec_fn(Seq<u8>) -> Seq<u8>,
    b: nat,
) -> bool {
    forall|x: Seq<u8>| x.len() == b ==> (#[trigger] e(x)).len() == b && d(e(x)) == x
}

/// Block `i` of `m`, in blocks of `b` bytes.
pub open spec fn block_at(m: Seq<u8>, b: nat, i: int) -> Seq<u8> {
    m.subrange(i * b, i * b + b)
}

/// The number of blocks of `b` bytes that a text of `len` bytes reaches
/// into, a last partial block counted.
pub open spec fn blocks_spanned(len: nat, b: nat) -> nat {
    ((len + b - 1) / (b as int)) as nat
}

/// The index at which the chunk of `s` bytes that holds byte `j` starts.
pub open spec fn chunk_start(j: int, s: nat) -> int {
    j - j % (s as int)
}

/// Block `i` of a text of `len` bytes, a multiple of `b`, lies within it.
pub proof fn lemma_block_bounds(len: int, b: int, i: int)
    by (nonlinear_arith)
    requires
        b > 0,
        len >= 0,
        len % b == 0,
        0 <= i < len / b,
    ensures
        0 <= i * b,
        i * b + b <= len,
        (i + 1) * b == i * b + b,
{
}

/// A text of `len` bytes, a multiple of `b`, is `len / b` blocks long.
pub proof fn lemma_block_count(len: int, b: int)
    by (nonlinear_arith)
    requires
        b > 0,
        len >= 0,
        len % b == 0,
    ensures
        (len / b) * b == len,
{
}

/// An index within block `i` has quotient `i` and remainder its offset.
pub proof fn lemma_index_in_block(j: int, b: int, i: int)
    by (nonlinear_arith)
    requires
        b > 0,
        i >= 0,
        i * b <= j < (i + 1) * b,
    ensures
        j / b == i,
        j % b == j - i * b,
        0 <= j % b < b,
{
}

/// The quotient and the remainder by `b` of the index after `i`.
pub proof fn lemma_next_index(i: int, b: int)
    requires
        b > 0,
        i >= 0,
    ensures
        0 <= i % b < b,
        0 <= i / b,
        i % b + 1 < b ==> (i + 1) / b == i / b && (i + 1) % b == i % b + 1,
        i % b + 1 == b ==> (i + 1) / b == i / b + 1 && (i + 1) % b == 0,
{
    let q = i / b;
    let r = i % b;
    lemma_fundamental_div_mod(i, b);
    assert(b * q == q * b) by (nonlinear_arith);
    assert(0 <= q) by (nonlinear_arith)
        requires
            b > 0,
            i >= 0,
            i == b * q + r,
            0 <= r < b,
    ;
    if r + 1 < b {
        lemma_fundamental_div_mod_converse(i + 1, b, q, r + 1);
    } else {
        assert((q + 1) * b + 0 == q * b + b) by (nonlinear_arith);
        lemma_fundamental_div_mod_converse(i + 1, b, q + 1, 0);
    }
}

/// A block that starts at byte `i` of a text of `len` bytes is one of the
/// blocks that the text reaches into.
pub proof fn lemma_blocks_spanned(i: int, len: int, b: int)
    requires
        b > 0,
        0 <= i < len,
        i % b == 0,
    ensures
        i / b + 1 <= (len + b - 1) / b,
{
    let q = i / b;
    lemma_fundamental_div_mod(i, b);
    lemma_fundamental_div_mod(len + b - 1, b);
    let t = (len + b - 1) / b;
    assert(b * q + b <= len + b - 1);
    assert(q + 1 <= t) by (nonlinear_arith)
        requires
            b > 0,
            b * q + b <= len + b - 1,
            len + b - 1 == b * t + (len + b - 1) % b,
            0 <= (len + b - 1) % b < b,
    ;
}

/// The byte at offset `o` of the chunk that starts at `pos`.
pub proof fn lemma_chunk_index(pos: int, s: nat, o: int)
    requires
        s > 0,
        pos >= 0,
        pos % (s as int) == 0,
        0 <= o < s,
    ensures
        (pos + o) % (s as int) == o,
        chunk_start(pos + o, s) == pos,
{
    lemma_fundamental_div_mod(pos, s as int);
    let q = pos / (s as int);
    assert((s as int) * q == q * (s as int)) by (nonlinear_arith);
    lemma_fundamental_div_mod_converse(pos + o, s as int, q, o);
}

/// The chunk after the one that starts at `pos` starts a chunk too.
pub proof fn lemma_next_chunk(pos: int, s: nat)
    requires
        s > 0,
        pos >= 0,
        pos % (s as int) == 0,
    ensures
        (pos + s) % (s as int) == 0,
{
    lemma_fundamental_div_mod(pos, s as int);
    let q = pos / (s as int);
    assert((q + 1) * (s as int) + 0 == (s as int) * q + s) by (nonlinear_arith);
    lemma_fundamental_div_mod_converse(pos + s, s as int, q + 1, 0);
}

/// ECB under the block map `f`: each block of `m` is mapped by itself.
pub open spec fn ecb(f: spec_fn(Seq<u8>) -> Seq<u8>, b: nat, m: Seq<u8>) -> Seq<u8> {
    Seq::new(m.len(), |j: int| f(block_at(m, b, j / (b as int)))[j % (b as int)])
}

/// What is XORed into block `i` of a CBC encryption before the block map `e`
/// is applied: the initial value for the first block, the ciphertext of
/// block `i - 1` after that.
pub open spec fn cbc_chain(
    e: spec_fn(Seq<u8>) -> Seq<u8>,
    b: nat,
    m: Seq<u8>,
    iv: Seq<u8>,
    i: nat,
) -> Seq<u8>
    decreases i,
{
    if i == 0 {
        iv
    } else {
        e(xor_bytes(block_at(m, b, i - 1), cbc_chain(e, b, m, iv, (i - 1) as nat)))
    }
}

/// CBC encryption under the block map `e`: block `i` of the result is the
/// image of block `i` of `m` XORed with what came before it.
pub open spec fn cbc_encrypt(
    e: spec_fn(Seq<u8>) -> Seq<u8>,
    b: nat,
    m: Seq<u8>,
    iv: Seq<u8>,
) -> Seq<u8> {
    Seq::new(m.len(), |j: int| cbc_chain(e, b, m, iv, (j / (b as int) + 1) as nat)[j % (b as int)])
}

/// What is XORed onto block `i` of a CBC decryption after the block map is
/// applied: the initial value for the first block, block `i - 1` of the
/// ciphertext `m` after that.
pub open spec fn cbc_feedback(b: nat, m: Seq<u8>, iv: Seq<u8>, i: int) -> Seq<u8> {
    if i == 0 {
        iv
    } else {
        block_at(m, b, i - 1)
    }
}

/// CBC decryption under the block map `d`.
pub open spec fn cbc_decrypt(
    d: spec_fn(Seq<u8>) -> Seq<u8>,
    b: nat,
    m: Seq<u8>,
    iv: Seq<u8>,
) -> Seq<u8> {
    Seq::new(
        m.len(),
        |j: int|
            xor_bytes(
                d(block_at(m, b, j / (b as int))),
                cbc_feedback(b, m, iv, j / (b as int)),
            )[j % (b as int)],
    )
}

/// The OFB key stream after `k` applications of the block map `e`: the
/// initial value, encrypted `k` times over.
pub open spec fn ofb_stream(e: spec_fn(Seq<u8>) -> Seq<u8>, iv: Seq<u8>, k: nat) -> Seq<u8>
    decreases k,
{
    if k == 0 {
        iv
    } else {
        e(ofb_stream(e, iv, (k - 1) as nat))
    }
}

/// OFB under the block map `e`: byte `j` of `m` is XORed with byte
/// `j mod b` of the key stream block `j / b`, counted from the first
/// encryption of the initial value.
pub open spec fn ofb(e: spec_fn(Seq<u8>) -> Seq<u8>, b: nat, m: Seq<u8>, iv: Seq<u8>) -> Seq<u8> {
    Seq::new(
        m.len(),
        |j: int| m[j] ^ ofb_stream(e, iv, (j / (b as int) + 1) as nat)[j % (b as int)],
    )
}

/// The CFB shift register before the chunk that starts at byte `pos` of the
/// ciphertext `ct`, in chunks of `s` bytes: the initial value at first, and
/// after each chunk the register shifted left by `s` bytes with the
/// ciphertext chunk at its end.
pub open spec fn cfb_register(iv: Seq<u8>, ct: Seq<u8>, s: nat, pos: int) -> Seq<u8>
    decreases pos,
{
    if pos < s || s == 0 {
        iv
    } else {
        let r = cfb_register(iv, ct, s, pos - s);
        r.subrange(s as int, r.len() as int) + ct.subrange(pos - s, pos)
    }
}

/// CFB decryption under the block map `e` with a feedback of `s` bytes: each
/// byte of the ciphertext `ct` is XORed with a byte from the start of the
/// image of the register before its chunk.
pub open spec fn cfb_decrypt(
    e: spec_fn(Seq<u8>) -> Seq<u8>,
    s: nat,
    ct: Seq<u8>,
    iv: Seq<u8>,
) -> Seq<u8> {
    Seq::new(
        ct.len(),
        |j: int| e(cfb_register(iv, ct, s, chunk_start(j, s)))[j % (s as int)] ^ ct[j],
    )
}

/// The first `pos` bytes of a CFB encryption of `m`, for `pos` the end of a
/// chunk: what comes before the last chunk, then that chunk of `m` XORed with
/// the start of the image of the register that the ciphertext before it
/// leaves.
pub open spec fn cfb_encrypt_to(
    e: spec_fn(Seq<u8>) -> Seq<u8>,
    s: nat,
    m: Seq<u8>,
    iv: Seq<u8>,
    pos: int,
) -> Seq<u8>
    decreases pos,
{
    if pos <= 0 || s == 0 {
        Seq::empty()
    } else {
        proof {
            lemma_mod_decreases((pos - 1) as nat, s);
            lemma_mod_bound(pos - 1, s as int);
        }
        let lo = chunk_start(pos - 1, s);
        let done = cfb_encrypt_to(e, s, m, iv, lo);
        let t = e(cfb_register(iv, done, s, lo));
        done + Seq::new((pos - lo) as nat, |o: int| t[o] ^ m[lo + o])
    }
}

/// CFB encryption under the block map `e` with a feedback of `s` bytes.
pub open spec fn cfb_encrypt(
    e: spec_fn(Seq<u8>) -> Seq<u8>,
    s: nat,
    m: Seq<u8>,
    iv: Seq<u8>,
) -> Seq<u8> {
    cfb_encrypt_to(e, s, m, iv, m.len() as int)
}

/// The register before a chunk depends on the ciphertext before that chunk
/// alone.
pub proof fn lemma_cfb_register_prefix(iv: Seq<u8>, a: Seq<u8>, b: Seq<u8>, s: nat, pos: int)
    requires
        pos <= a.len(),
        pos <= b.len(),
        forall|j: int| 0 <= j < pos ==> a[j] == b[j],
    ensures
        cfb_register(iv, a, s, pos) == cfb_register(iv, b, s, pos),
    decreases pos,
{
    if pos >= s && s > 0 {
        lemma_cfb_register_prefix(iv, a, b, s, pos - s);
        assert(a.subrange(pos - s, pos) =~= b.subrange(pos - s, pos));
    }
}

/// The number of values that a counter of `w` bytes takes: 256 to the `w`.
pub open spec fn capacity(w: nat) -> nat
    decreases w,
{
    if w == 0 {
        1
    } else {
        256 * capacity((w - 1) as nat)
    }
}

/// The number that the bytes `s` spell, most significant byte first.
pub open spec fn be_value(s: Seq<u8>) -> nat
    decreases s.len(),
{
    if s.len() == 0 {
        0
    } else {
        256 * be_value(s.drop_last()) + s.last() as nat
    }
}

/// The `w` bytes that spell the number `v`, most significant byte first; of
/// a number that does not fit, the low `w` bytes.
pub open spec fn be_bytes(v: nat, w: nat) -> Seq<u8>
    decreases w,
{
    if w == 0 {
        Seq::empty()
    } else {
        be_bytes(v / 256, (w - 1) as nat).push((v % 256) as u8)
    }
}

/// Counter block `i` of CTR mode: the nonce, then the number `i` in the
/// bytes that are left of the `b`, most significant byte first.
pub open spec fn ctr_block(nonce: Seq<u8>, b: nat, i: nat) -> Seq<u8> {
    nonce + be_bytes(i, (b - nonce.len()) as nat)
}

/// CTR under the block map `e`: byte `j` of `m` is XORed with byte `j mod b`
/// of the image of counter block `j / b`.
pub open spec fn ctr(e: spec_fn(Seq<u8>) -> Seq<u8>, b: nat, m: Seq<u8>, nonce: Seq<u8>) -> Seq<
    u8,
> {
    Seq::new(
        m.len(),
        |j: int| m[j] ^ e(ctr_block(nonce, b, (j / (b as int)) as nat))[j % (b as int)],
    )
}

/// A counter of any width takes at least one value.
pub proof fn lemma_capacity_positive(w: nat)
    ensures
        capacity(w) > 0,
    decreases w,
{
    if w > 0 {
        lemma_capacity_positive((w - 1) as nat);
    }
}

/// The bytes of a number have the width asked for, and spell the number
/// back where it fits.
pub proof fn lemma_be_bytes(v: nat, w: nat)
    ensures
        be_bytes(v, w).len() == w,
        v < capacity(w) ==> be_value(be_bytes(v, w)) == v,
    decreases w,
{
    if w > 0 {
        lemma_be_bytes(v / 256, (w - 1) as nat);
        let s = be_bytes(v, w);
        assert(s.drop_last() =~= be_bytes(v / 256, (w - 1) as nat));
        assert(s.last() == (v % 256) as u8);
    }
}

/// The number that bytes spell is below the capacity of their width, and
/// the bytes of that number are the bytes themselves.
pub proof fn lemma_be_value(s: Seq<u8>)
    ensures
        be_value(s) < capacity(s.len()),
        be_bytes(be_value(s), s.len()) == s,
    decreases s.len(),
{
    if s.len() > 0 {
        lemma_be_value(s.drop_last());
        let v = be_value(s);
        assert(v / 256 == be_value(s.drop_last()));
        assert(v % 256 == s.last() as nat);
        assert(be_bytes(v, s.len()) =~= s);
    } else {
        assert(be_bytes(be_value(s), s.len()) =~= s);
    }
}

/// The bytes of the number 0 are all 0, whatever their width.
pub proof fn lemma_be_bytes_zero(w: nat)
    ensures
        be_bytes(0, w).len() == w,
        forall|t: int| 0 <= t < w ==> be_bytes(0, w)[t] == 0,
    decreases w,
{
    if w > 0 {
        lemma_be_bytes_zero((w - 1) as nat);
    }
}

/// Bytes that are all 255 spell the last number that their width holds.
pub proof fn lemma_be_value_full(s: Seq<u8>)
    requires
        forall|t: int| 0 <= t < s.len() ==> s[t] == 255,
    ensures
        be_value(s) + 1 == capacity(s.len()),
    decreases s.len(),
{
    if s.len() > 0 {
        lemma_be_value_full(s.drop_last());
    }
}

/// Adding one with carry: where `after` is `before` with the byte at `p` raised by
/// one and the bytes after it turned from 255 to 0, it spells the number
/// after the one that `before` spells.
pub proof fn lemma_be_value_carry(before: Seq<u8>, after: Seq<u8>, p: int)
    requires
        before.len() == after.len(),
        0 <= p < before.len(),
        forall|t: int| 0 <= t < p ==> after[t] == before[t],
        after[p] == before[p] + 1,
        forall|t: int| p < t < before.len() ==> before[t] == 255 && after[t] == 0,
    ensures
        be_value(after) == be_value(before) + 1,
    decreases before.len(),
{
    if p == before.len() - 1 {
        assert(after.drop_last() =~= before.drop_last());
    } else {
        lemma_be_value_carry(before.drop_last(), after.drop_last(), p);
    }
}

} // verus!
