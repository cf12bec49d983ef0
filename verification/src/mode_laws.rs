//! What holds of the modes of operation under every block cipher: each mode's
//! decryption takes back what its encryption made.

use vstd::prelude::*;
use crate::gf256::{lemma_xor_laws, xor_bytes};
use crate::mode::DefaultCounter;
use crate::mode_spec::{
    be_value, block_at, capacity, cbc_chain, cbc_decrypt, cbc_encrypt, cbc_feedback, cfb_decrypt,
    cfb_encrypt, cfb_encrypt_to, cfb_register, chunk_start, ctr, ctr_block, ecb, inverts,
    lemma_be_value, lemma_be_value_full, lemma_cfb_register_prefix, lemma_chunk_index,
    lemma_index_in_block, ofb, ofb_stream,
};
use vstd::arithmetic::div_mod::{
    lemma_fundamental_div_mod, lemma_fundamental_div_mod_converse, lemma_mod_bound,
    lemma_mod_decreases,
};

verus! {

/// An index into a text whose length is a multiple of `b` lies in a whole
/// block of the text.
proof fn lemma_block_of(j: int, len: int, b: int)
    requires
        b > 0,
        0 <= j < len,
        len % b == 0,
    ensures
        0 <= j / b,
        0 <= j % b < b,
        (j / b) * b + j % b == j,
        (j / b) * b + b <= len,
        ((j / b) + 1) * b == (j / b) * b + b,
        (j / b) * b <= j < ((j / b) + 1) * b,
{
    lemma_fundamental_div_mod(j, b);
    lemma_fundamental_div_mod(len, b);
    lemma_mod_bound(j, b);
    let q = j / b;
    let n = len / b;
    assert(b * q == q * b) by (nonlinear_arith);
    assert((q + 1) * b == q * b + b) by (nonlinear_arith);
    assert(0 <= q) by (nonlinear_arith)
        requires
            b > 0,
            j >= 0,
            j == b * q + j % b,
            j % b < b,
    ;
    assert(q * b + b <= len) by (nonlinear_arith)
        requires
            b > 0,
            q * b <= j,
            j < len,
            len == b * n,
    ;
}

/// Block `i` of an ECB image is the image of block `i`.
proof fn lemma_ecb_block(f: spec_fn(Seq<u8>) -> Seq<u8>, b: nat, m: Seq<u8>, i: int)
    requires
        b > 0,
        0 <= i,
        i * b + b <= m.len(),
        f(block_at(m, b, i)).len() == b,
    ensures
        block_at(ecb(f, b, m), b, i) == f(block_at(m, b, i)),
{
    let c = ecb(f, b, m);
    assert((i + 1) * (b as int) == i * b + b) by (nonlinear_arith);
    assert forall|t: int| 0 <= t < b implies block_at(c, b, i)[t] == f(block_at(m, b, i))[t] by {
        lemma_index_in_block(i * b + t, b as int, i);
    }
    assert(block_at(c, b, i) =~= f(block_at(m, b, i)));
}

/// ECB decryption takes back what ECB encryption made of a text of whole
/// blocks.
pub proof fn lemma_ecb_round_trip(
    d: spec_fn(Seq<u8>) -> Seq<u8>,
    e: spec_fn(Seq<u8>) -> Seq<u8>,
    b: nat,
    m: Seq<u8>,
)
    requires
        inverts(d, e, b),
        b > 0,
        m.len() % b == 0,
    ensures
        ecb(d, b, ecb(e, b, m)) == m,
{
    let c = ecb(e, b, m);
    assert forall|j: int| 0 <= j < m.len() implies ecb(d, b, c)[j] == m[j] by {
        let i = j / (b as int);
        lemma_block_of(j, m.len() as int, b as int);
        assert(block_at(m, b, i).len() == b);
        lemma_ecb_block(e, b, m, i);
    }
    assert(ecb(d, b, c) =~= m);
}

/// Block `i` of a CBC encryption is link `i + 1` of its chain.
proof fn lemma_cbc_block(
    e: spec_fn(Seq<u8>) -> Seq<u8>,
    b: nat,
    m: Seq<u8>,
    iv: Seq<u8>,
    i: int,
)
    requires
        b > 0,
        0 <= i,
        i * b + b <= m.len(),
        cbc_chain(e, b, m, iv, (i + 1) as nat).len() == b,
    ensures
        block_at(cbc_encrypt(e, b, m, iv), b, i) == cbc_chain(e, b, m, iv, (i + 1) as nat),
{
    let c = cbc_encrypt(e, b, m, iv);
    assert((i + 1) * (b as int) == i * b + b) by (nonlinear_arith);
    assert forall|t: int| 0 <= t < b implies block_at(c, b, i)[t] == cbc_chain(
        e,
        b,
        m,
        iv,
        (i + 1) as nat,
    )[t] by {
        lemma_index_in_block(i * b + t, b as int, i);
    }
    assert(block_at(c, b, i) =~= cbc_chain(e, b, m, iv, (i + 1) as nat));
}

/// Every link of a CBC chain over a text of whole blocks is a block.
proof fn lemma_cbc_chain_len(
    e: spec_fn(Seq<u8>) -> Seq<u8>,
    b: nat,
    m: Seq<u8>,
    iv: Seq<u8>,
    i: nat,
)
    requires
        forall|x: Seq<u8>| x.len() == b ==> (#[trigger] e(x)).len() == b,
        b > 0,
        iv.len() == b,
        i * b <= m.len(),
    ensures
        cbc_chain(e, b, m, iv, i).len() == b,
    decreases i,
{
    if i > 0 {
        assert((i - 1) * (b as int) + b == i * b) by (nonlinear_arith);
        assert(0 <= (i - 1) * (b as int)) by (nonlinear_arith)
            requires
                i >= 1,
                b > 0,
        ;
        lemma_cbc_chain_len(e, b, m, iv, (i - 1) as nat);
        assert(block_at(m, b, i - 1).len() == b);
        assert(xor_bytes(block_at(m, b, i - 1), cbc_chain(e, b, m, iv, (i - 1) as nat)).len() == b);
    }
}

/// CBC decryption takes back what CBC encryption made of a text of whole
/// blocks, whatever the initial value.
pub proof fn lemma_cbc_round_trip(
    d: spec_fn(Seq<u8>) -> Seq<u8>,
    e: spec_fn(Seq<u8>) -> Seq<u8>,
    b: nat,
    m: Seq<u8>,
    iv: Seq<u8>,
)
    requires
        inverts(d, e, b),
        b > 0,
        m.len() % b == 0,
        iv.len() == b,
    ensures
        cbc_decrypt(d, b, cbc_encrypt(e, b, m, iv), iv) == m,
{
    let c = cbc_encrypt(e, b, m, iv);
    assert forall|j: int| 0 <= j < m.len() implies cbc_decrypt(d, b, c, iv)[j] == m[j] by {
        let i = j / (b as int);
        let t = j % (b as int);
        lemma_block_of(j, m.len() as int, b as int);
        let p = block_at(m, b, i);
        let before = cbc_chain(e, b, m, iv, i as nat);
        lemma_cbc_chain_len(e, b, m, iv, i as nat);
        lemma_cbc_chain_len(e, b, m, iv, (i + 1) as nat);
        lemma_cbc_block(e, b, m, iv, i);
        assert(xor_bytes(p, before).len() == b);
        assert(d(block_at(c, b, i)) == xor_bytes(p, before));
        if i > 0 {
            assert((i - 1) * (b as int) + b == i * b) by (nonlinear_arith);
            assert(0 <= (i - 1) * (b as int)) by (nonlinear_arith)
                requires
                    i >= 1,
                    b > 0,
            ;
            lemma_cbc_block(e, b, m, iv, i - 1);
        }
        assert(cbc_feedback(b, c, iv, i) == before);
        lemma_xor_laws(p[t], before[t], 0);
    }
    assert(cbc_decrypt(d, b, c, iv) =~= m);
}

/// OFB is its own inverse, whatever the block map, the text and the initial
/// value.
pub proof fn lemma_ofb_round_trip(
    e: spec_fn(Seq<u8>) -> Seq<u8>,
    b: nat,
    m: Seq<u8>,
    iv: Seq<u8>,
)
    ensures
        ofb(e, b, ofb(e, b, m, iv), iv) == m,
{
    let c = ofb(e, b, m, iv);
    assert forall|j: int| 0 <= j < m.len() implies ofb(e, b, c, iv)[j] == m[j] by {
        lemma_xor_laws(m[j], ofb_stream(e, iv, (j / (b as int) + 1) as nat)[j % (b as int)], 0);
    }
    assert(ofb(e, b, c, iv) =~= m);
}

/// CTR is its own inverse, whatever the block map, the text and the nonce.
pub proof fn lemma_ctr_round_trip(
    e: spec_fn(Seq<u8>) -> Seq<u8>,
    b: nat,
    m: Seq<u8>,
    nonce: Seq<u8>,
)
    ensures
        ctr(e, b, ctr(e, b, m, nonce), nonce) == m,
{
    let c = ctr(e, b, m, nonce);
    assert forall|j: int| 0 <= j < m.len() implies ctr(e, b, c, nonce)[j] == m[j] by {
        lemma_xor_laws(m[j], e(ctr_block(nonce, b, (j / (b as int)) as nat))[j % (b as int)], 0);
    }
    assert(ctr(e, b, c, nonce) =~= m);
}

/// The first `pos` bytes of a CFB encryption are `pos` bytes, each the byte
/// of the text XORed with the key byte that the ciphertext before its chunk
/// gives.
proof fn lemma_cfb_encrypt_to(
    e: spec_fn(Seq<u8>) -> Seq<u8>,
    s: nat,
    m: Seq<u8>,
    iv: Seq<u8>,
    pos: int,
)
    requires
        s > 0,
        0 <= pos <= m.len(),
    ensures
        cfb_encrypt_to(e, s, m, iv, pos).len() == pos,
        forall|j: int|
            0 <= j < pos ==> #[trigger] cfb_encrypt_to(e, s, m, iv, pos)[j] == e(
                cfb_register(iv, cfb_encrypt_to(e, s, m, iv, pos), s, chunk_start(j, s)),
            )[j % (s as int)] ^ m[j],
    decreases pos,
{
    if pos > 0 {
        lemma_mod_decreases((pos - 1) as nat, s);
        lemma_mod_bound(pos - 1, s as int);
        let lo = chunk_start(pos - 1, s);
        let x = cfb_encrypt_to(e, s, m, iv, pos);
        let done = cfb_encrypt_to(e, s, m, iv, lo);
        lemma_cfb_encrypt_to(e, s, m, iv, lo);
        lemma_chunk_start(pos - 1, s);
        assert forall|j: int| 0 <= j < pos implies #[trigger] x[j] == e(
            cfb_register(iv, x, s, chunk_start(j, s)),
        )[j % (s as int)] ^ m[j] by {
            if j < lo {
                lemma_mod_decreases(j as nat, s);
                lemma_mod_bound(j, s as int);
                lemma_cfb_register_prefix(iv, done, x, s, chunk_start(j, s));
                assert(x[j] == done[j]);
            } else {
                lemma_chunk_index(lo, s, j - lo);
                lemma_cfb_register_prefix(iv, done, x, s, lo);
            }
        }
    }
}

/// A chunk starts at a multiple of the chunk size.
proof fn lemma_chunk_start(j: int, s: nat)
    requires
        s > 0,
        j >= 0,
    ensures
        0 <= chunk_start(j, s) <= j,
        j - chunk_start(j, s) < s,
        chunk_start(j, s) % (s as int) == 0,
{
    lemma_fundamental_div_mod(j, s as int);
    lemma_mod_bound(j, s as int);
    lemma_mod_decreases(j as nat, s);
    let q = j / (s as int);
    assert((s as int) * q == q * (s as int) + 0) by (nonlinear_arith);
    lemma_fundamental_div_mod_converse(chunk_start(j, s), s as int, q, 0);
}

/// CFB decryption takes back what CFB encryption made, for every feedback
/// width of at least one byte, whatever the block map, the text and the
/// initial value.
pub proof fn lemma_cfb_round_trip(
    e: spec_fn(Seq<u8>) -> Seq<u8>,
    s: nat,
    m: Seq<u8>,
    iv: Seq<u8>,
)
    requires
        s > 0,
    ensures
        cfb_decrypt(e, s, cfb_encrypt(e, s, m, iv), iv) == m,
{
    let c = cfb_encrypt(e, s, m, iv);
    lemma_cfb_encrypt_to(e, s, m, iv, m.len() as int);
    assert forall|j: int| 0 <= j < m.len() implies cfb_decrypt(e, s, c, iv)[j] == m[j] by {
        let k = e(cfb_register(iv, c, s, chunk_start(j, s)))[j % (s as int)];
        assert(c[j] == k ^ m[j]);
        lemma_xor_laws(m[j], k, 0);
        lemma_xor_laws(k, k ^ m[j], 0);
    }
    assert(cfb_decrypt(e, s, c, iv) =~= m);
}

/// Bytes that are not all 255 spell a number that is not the last of their
/// width.
proof fn lemma_be_value_not_full(s: Seq<u8>)
    requires
        exists|t: int| 0 <= t < s.len() && s[t] != 255,
    ensures
        be_value(s) + 1 < capacity(s.len()),
    decreases s.len(),
{
    let t = choose|t: int| 0 <= t < s.len() && s[t] != 255;
    lemma_be_value(s.drop_last());
    if s.last() == 255 {
        assert(s.drop_last()[t] != 255);
        lemma_be_value_not_full(s.drop_last());
    }
}

/// A counter stands below the number of values that it takes, and it is
/// exhausted exactly when it stands at the last of them: a counter that
/// starts at 0 can be advanced one time less than it takes values, and no
/// further.
pub proof fn lemma_counter_exhausted<const T: usize>(c: DefaultCounter<T>)
    requires
        c.wf(),
    ensures
        c.count() < c.limit(),
        c.exhausted() <==> c.count() + 1 == c.limit(),
{
    let s = c.inner@.subrange(c.nonce_len as int, T as int);
    lemma_be_value(s);
    if c.exhausted() {
        lemma_be_value_full(s);
    } else {
        let t = choose|t: int| c.nonce_len <= t < T && c.inner@[t] != 255;
        assert(s[t - c.nonce_len] != 255);
        lemma_be_value_not_full(s);
    }
}

} // verus!
