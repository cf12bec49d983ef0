//! The AES block cipher: the round transforms on a 16-byte state, the key
//! schedule for 128-, 192- and 256-bit keys, and the cipher and its inverse.
//!
//! A state is held in column-major order: the byte in row `r` of column `c`
//! sits at index `4 * c + r`. The specifications speak of states, words and
//! keys as sequences of bytes.

use vstd::prelude::*;
use crate::gf256::{gf_mul, lemma_xor_laws, xor_bytes};
use crate::mode::BlockCipher;
use crate::mode_spec::inverts;
use crate::tables::{lemma_inv_s_box, INV_S_BOX, RC, S_BOX};

verus! {

/// The substitution of one byte.
pub open spec fn sub_byte(b: u8) -> u8 {
    S_BOX[b as int]
}

/// The inverse substitution of one byte.
pub open spec fn inv_sub_byte(b: u8) -> u8 {
    INV_S_BOX[b as int]
}

/// A word rotated left by one byte.
pub open spec fn rot_word(w: Seq<u8>) -> Seq<u8> {
    Seq::new(4, |i: int| w[(i + 1) % 4])
}

/// A word with each byte substituted.
pub open spec fn sub_word(w: Seq<u8>) -> Seq<u8> {
    Seq::new(4, |i: int| sub_byte(w[i]))
}

/// A word of the key schedule: four bytes.
#[derive(Clone, Copy)]
pub struct Word(pub [u8; 4]);

impl View for Word {
    type V = Seq<u8>;

    open spec fn view(&self) -> Seq<u8> {
        self.0@
    }
}

impl Word {
    /// Rotates the word left by one byte.
    pub fn rot(self) -> (res: Self)
        ensures
            res@ == rot_word(self@),
    {
        let res = Word([self.0[1], self.0[2], self.0[3], self.0[0]]);
        assert(res@ =~= rot_word(self@));
        res
    }

    /// Substitutes each byte of the word.
    pub fn sub(self) -> (res: Self)
        ensures
            res@ == sub_word(self@),
    {
        let res = Word(
            [
                S_BOX[self.0[0] as usize],
                S_BOX[self.0[1] as usize],
                S_BOX[self.0[2] as usize],
                S_BOX[self.0[3] as usize],
            ],
        );
        assert(res@ =~= sub_word(self@));
        res
    }
}

impl core::ops::BitXor for Word {
    type Output = Self;

    fn bitxor(self, rhs: Self) -> (res: Self)
        ensures
            res@ == xor_bytes(self@, rhs@),
    {
        let res = Word(
            [self.0[0] ^ rhs.0[0], self.0[1] ^ rhs.0[1], self.0[2] ^ rhs.0[2], self.0[3] ^ rhs.0[3]],
        );
        assert(res@ =~= xor_bytes(self@, rhs@));
        res
    }
}

impl vstd::std_specs::ops::BitXorSpecImpl for Word {
    open spec fn obeys_bitxor_spec() -> bool {
        true
    }

    open spec fn bitxor_req(self, rhs: Self) -> bool {
        true
    }

    open spec fn bitxor_spec(self, rhs: Self) -> Self {
        Word([self.0[0] ^ rhs.0[0], self.0[1] ^ rhs.0[1], self.0[2] ^ rhs.0[2], self.0[3] ^ rhs.0[3]])
    }
}

/// Word `i` of the schedule that the key `key`, of `n` words, expands to.
///
/// The first `n` words are the key itself. Each later word is the word `n`
/// places back, XORed with the word before it; that word is first rotated,
/// substituted and given a round constant where `i` is a multiple of `n`, and
/// only substituted where `n` is 8 and `i` is 4 past a multiple of it.
pub open spec fn key_word(key: Seq<u8>, n: nat, i: nat) -> Seq<u8>
    decreases i,
{
    if n == 0 || i < n {
        key.subrange((4 * i) as int, (4 * i + 4) as int)
    } else {
        let back = key_word(key, n, (i - n) as nat);
        let prev = key_word(key, n, (i - 1) as nat);
        if i % n == 0 {
            xor_bytes(
                xor_bytes(back, sub_word(rot_word(prev))),
                seq![RC[i / n - 1], 0u8, 0u8, 0u8],
            )
        } else if n > 6 && i % n == 4 {
            xor_bytes(back, sub_word(prev))
        } else {
            xor_bytes(back, prev)
        }
    }
}

/// Round key `r` of the schedule: words `4 * r` to `4 * r + 3`, in order.
pub open spec fn round_key(key: Seq<u8>, n: nat, r: nat) -> Seq<u8> {
    Seq::new(16, |k: int| key_word(key, n, (4 * r + k / 4) as nat)[k % 4])
}

/// The schedule of a key of `n` words: `n + 7` round keys.
pub open spec fn key_schedule(key: Seq<u8>, n: nat) -> Seq<Seq<u8>> {
    Seq::new(n + 7, |r: int| round_key(key, n, r as nat))
}

/// A list of round keys as a sequence of byte sequences.
pub open spec fn round_keys_view(keys: Seq<[u8; 16]>) -> Seq<Seq<u8>> {
    Seq::new(keys.len(), |r: int| keys[r]@)
}

/// An AES key of 128, 192 or 256 bits.
#[derive(Debug)]
pub enum AESkey {
    K128([u8; 16]),
    K192([u8; 24]),
    K256([u8; 32]),
}

impl AESkey {
    /// The bytes of the key.
    pub open spec fn bytes(&self) -> Seq<u8> {
        match self {
            AESkey::K128(k) => k@,
            AESkey::K192(k) => k@,
            AESkey::K256(k) => k@,
        }
    }

    /// The length of the key in words: 4, 6 or 8.
    pub open spec fn words(&self) -> nat {
        match self {
            AESkey::K128(_) => 4,
            AESkey::K192(_) => 6,
            AESkey::K256(_) => 8,
        }
    }

    /// The number of round keys: 11, 13 or 15.
    pub open spec fn rounds(&self) -> nat {
        self.words() + 7
    }

    /// The round keys that the key expands to.
    pub open spec fn schedule(&self) -> Seq<Seq<u8>> {
        key_schedule(self.bytes(), self.words())
    }

    /// Expands the key into its round keys.
    pub fn key_expansion(&self) -> (res: Vec<[u8; 16]>)
        ensures
            res.len() == self.rounds(),
            round_keys_view(res@) == self.schedule(),
    {
        match self {
            AESkey::K128(k) => AESkey::key_expansion_inner(11, k.as_slice(), 4),
            AESkey::K192(k) => AESkey::key_expansion_inner(13, k.as_slice(), 6),
            AESkey::K256(k) => AESkey::key_expansion_inner(15, k.as_slice(), 8),
        }
    }

    /// Expands the key `k` of `n` words into `r` round keys.
    pub fn key_expansion_inner(r: usize, k: &[u8], n: usize) -> (res: Vec<[u8; 16]>)
        requires
            n == 4 || n == 6 || n == 8,
            r == n + 7,
            k@.len() == 4 * n,
        ensures
            res.len() == r,
            round_keys_view(res@) == key_schedule(k@, n as nat),
    {
        let mut w: Vec<Word> = Vec::with_capacity(4 * r);
        let mut i: usize = 0;
        while i < 4 * r
            invariant
                n == 4 || n == 6 || n == 8,
                r == n + 7,
                k@.len() == 4 * n,
                i <= 4 * r,
                w.len() == i,
                forall|j: int| 0 <= j < i ==> (#[trigger] w[j])@ == key_word(
                    k@,
                    n as nat,
                    j as nat,
                ),
            decreases 4 * r - i,
        {
            let v: Word;
            if i < n {
                v = Word([k[4 * i], k[4 * i + 1], k[4 * i + 2], k[4 * i + 3]]);
                assert(v@ =~= key_word(k@, n as nat, i as nat));
            } else if i % n == 0 {
                assert(1 <= i / n <= 10) by (nonlinear_arith)
                    requires
                        n <= i < 4 * (n + 7),
                        4 <= n <= 8,
                ;
                let rc = Word([RC[i / n - 1], 0, 0, 0]);
                assert(rc@ =~= seq![RC[i / n - 1], 0u8, 0u8, 0u8]);
                v = w[i - n] ^ w[i - 1].rot().sub() ^ rc;
            } else if n > 6 && i % n == 4 {
                v = w[i - n] ^ w[i - 1].sub();
            } else {
                v = w[i - n] ^ w[i - 1];
            }
            w.push(v);
            i += 1;
        }

        let mut res: Vec<[u8; 16]> = Vec::with_capacity(r);
        let mut i: usize = 0;
        while i < r
            invariant
                r == n + 7,
                n <= 8,
                i <= r,
                w.len() == 4 * r,
                forall|j: int| 0 <= j < 4 * r ==> (#[trigger] w[j])@ == key_word(
                    k@,
                    n as nat,
                    j as nat,
                ),
                res.len() == i,
                forall|j: int| 0 <= j < i ==> (#[trigger] res[j])@ == round_key(
                    k@,
                    n as nat,
                    j as nat,
                ),
            decreases r - i,
        {
            let mut key = [0u8; 16];
            let mut j: usize = 0;
            while j < 4
                invariant
                    i < r,
                    r <= 15,
                    j <= 4,
                    w.len() == 4 * r,
                    forall|t: int| 0 <= t < 4 * j ==> #[trigger] key[t] == w[4 * i + t / 4]@[t % 4],
                decreases 4 - j,
            {
                let mut l: usize = 0;
                while l < 4
                    invariant
                        i < r,
                        r <= 15,
                        j < 4,
                        l <= 4,
                        w.len() == 4 * r,
                        forall|t: int| 0 <= t < 4 * j + l ==> #[trigger] key[t] == w[4 * i + t / 4]@[t % 4],
                    decreases 4 - l,
                {
                    key[4 * j + l] = w[4 * i + j].0[l];
                    l += 1;
                }
                j += 1;
            }
            assert forall|t: int| 0 <= t < 16 implies key@[t] == round_key(k@, n as nat, i as nat)[t] by {
                assert(key[t] == w[4 * i + t / 4]@[t % 4]);
            }
            assert(key@ =~= round_key(k@, n as nat, i as nat));
            res.push(key);
            i += 1;
        }
        assert(round_keys_view(res@) =~= key_schedule(k@, n as nat));
        res
    }
}

/// The first row of the matrix that multiplies each column in MixColumns;
/// the other rows are its rotations to the right.
pub const MIX: [u8; 4] = [2, 3, 1, 1];

/// The first row of the matrix of InvMixColumns.
pub const INV_MIX: [u8; 4] = [14, 11, 13, 9];

/// The state XORed with a round key.
pub open spec fn add_round_key(s: Seq<u8>, k: Seq<u8>) -> Seq<u8> {
    Seq::new(16, |i: int| s[i] ^ k[i])
}

/// The state with each byte substituted.
pub open spec fn sub_bytes(s: Seq<u8>) -> Seq<u8> {
    Seq::new(16, |i: int| sub_byte(s[i]))
}

/// The state with each byte substituted back.
pub open spec fn inv_sub_bytes(s: Seq<u8>) -> Seq<u8> {
    Seq::new(16, |i: int| inv_sub_byte(s[i]))
}

/// The state with row `r` rotated left by `r` places.
pub open spec fn shift_rows(s: Seq<u8>) -> Seq<u8> {
    Seq::new(16, |k: int| s[(4 * (k / 4) + 5 * (k % 4)) % 16])
}

/// The state with row `r` rotated right by `r` places.
pub open spec fn inv_shift_rows(s: Seq<u8>) -> Seq<u8> {
    Seq::new(16, |k: int| s[(4 * (k / 4) + 13 * (k % 4)) % 16])
}

/// The sum of the first `c` products in row `row` of the matrix with first
/// row `coef`, applied to column `col` of the state.
pub open spec fn mix_sum(coef: Seq<u8>, s: Seq<u8>, col: int, row: int, c: nat) -> u8
    decreases c,
{
    if c == 0 {
        0
    } else {
        mix_sum(coef, s, col, row, (c - 1) as nat) ^ gf_mul(
            coef[(c - 1 + 4 - row) % 4],
            s[4 * col + c - 1],
        )
    }
}

/// Each column of the state multiplied by the circulant matrix with first
/// row `coef`.
pub open spec fn mix_with(coef: Seq<u8>, s: Seq<u8>) -> Seq<u8> {
    Seq::new(16, |k: int| mix_sum(coef, s, k / 4, k % 4, 4))
}

/// The state with each column multiplied by the MixColumns matrix.
pub open spec fn mix_columns(s: Seq<u8>) -> Seq<u8> {
    mix_with(MIX@, s)
}

/// The state with each column multiplied by the InvMixColumns matrix.
pub open spec fn inv_mix_columns(s: Seq<u8>) -> Seq<u8> {
    mix_with(INV_MIX@, s)
}

/// A 16-byte cipher state.
#[derive(Clone, Copy)]
pub struct AESBlock(pub [u8; 16]);

impl View for AESBlock {
    type V = Seq<u8>;

    open spec fn view(&self) -> Seq<u8> {
        self.0@
    }
}

impl From<&[u8; 16]> for AESBlock {
    fn from(value: &[u8; 16]) -> (res: Self) {
        Self(*value)
    }
}

impl vstd::std_specs::convert::FromSpecImpl<&[u8; 16]> for AESBlock {
    open spec fn obeys_from_spec() -> bool {
        true
    }

    open spec fn from_spec(value: &[u8; 16]) -> Self {
        AESBlock(*value)
    }
}

impl From<[u8; 16]> for AESBlock {
    fn from(value: [u8; 16]) -> (res: Self) {
        Self(value)
    }
}

impl vstd::std_specs::convert::FromSpecImpl<[u8; 16]> for AESBlock {
    open spec fn obeys_from_spec() -> bool {
        true
    }

    open spec fn from_spec(value: [u8; 16]) -> Self {
        AESBlock(value)
    }
}

impl AESBlock {
    /// The block that holds the 16 bytes of `value`.
    pub fn from_slice(value: &[u8]) -> (res: Self)
        requires
            value@.len() == 16,
        ensures
            res@ == value@,
    {
        let mut tmp = [0u8; 16];
        let mut i: usize = 0;
        while i < 16
            invariant
                i <= 16,
                value@.len() == 16,
                forall|t: int| 0 <= t < i ==> tmp[t] == value[t],
            decreases 16 - i,
        {
            tmp[i] = value[i];
            i += 1;
        }
        assert(tmp@ =~= value@);
        Self(tmp)
    }

    /// XORs the state with the round key `k`.
    pub fn add_round_key(&self, k: [u8; 16]) -> (res: Self)
        ensures
            res@ == add_round_key(self@, k@),
    {
        let mut tmp = [0u8; 16];
        let mut i: usize = 0;
        while i < 16
            invariant
                i <= 16,
                forall|t: int| 0 <= t < i ==> tmp[t] == self.0[t] ^ k[t],
            decreases 16 - i,
        {
            tmp[i] = self.0[i] ^ k[i];
            i += 1;
        }
        assert(tmp@ =~= add_round_key(self@, k@));
        Self(tmp)
    }

    /// Substitutes each byte of the state.
    pub fn sub_bytes(self) -> (res: Self)
        ensures
            res@ == sub_bytes(self@),
    {
        let mut tmp = [0u8; 16];
        let mut i: usize = 0;
        while i < 16
            invariant
                i <= 16,
                forall|t: int| 0 <= t < i ==> tmp[t] == sub_byte(self.0[t]),
            decreases 16 - i,
        {
            tmp[i] = S_BOX[self.0[i] as usize];
            i += 1;
        }
        assert(tmp@ =~= sub_bytes(self@));
        Self(tmp)
    }

    /// Substitutes each byte of the state back.
    pub fn inv_sub_bytes(self) -> (res: Self)
        ensures
            res@ == inv_sub_bytes(self@),
    {
        let mut tmp = [0u8; 16];
        let mut i: usize = 0;
        while i < 16
            invariant
                i <= 16,
                forall|t: int| 0 <= t < i ==> tmp[t] == inv_sub_byte(self.0[t]),
            decreases 16 - i,
        {
            tmp[i] = INV_S_BOX[self.0[i] as usize];
            i += 1;
        }
        assert(tmp@ =~= inv_sub_bytes(self@));
        Self(tmp)
    }

    /// Rotates row `r` of the state left by `r` places.
    pub fn shift_rows(self) -> (res: Self)
        ensures
            res@ == shift_rows(self@),
    {
        let mut tmp = [0u8; 16];
        let mut i: usize = 0;
        while i < 4
            invariant
                i <= 4,
                forall|k: int|
                    0 <= k < 16 && k % 4 < i ==> #[trigger] tmp[k] == self.0[(4 * (k / 4) + 5 * (k % 4))
                        % 16],
            decreases 4 - i,
        {
            let mut j: usize = 0;
            while j < 4
                invariant
                    i < 4,
                    j <= 4,
                    forall|k: int|
                        0 <= k < 16 && (k % 4 < i || (k % 4 == i && k / 4 < j)) ==> #[trigger] tmp[k]
                            == self.0[(4 * (k / 4) + 5 * (k % 4)) % 16],
                decreases 4 - j,
            {
                tmp[4 * j + i] = self.0[(4 * j + 5 * i) % 16];
                j += 1;
            }
            i += 1;
        }
        assert(tmp@ =~= shift_rows(self@));
        Self(tmp)
    }

    /// Rotates row `r` of the state right by `r` places.
    pub fn inv_shift_rows(self) -> (res: Self)
        ensures
            res@ == inv_shift_rows(self@),
    {
        let mut tmp = [0u8; 16];
        let mut i: usize = 0;
        while i < 4
            invariant
                i <= 4,
                forall|k: int|
                    0 <= k < 16 && k % 4 < i ==> #[trigger] tmp[k] == self.0[(4 * (k / 4) + 13 * (k
                        % 4)) % 16],
            decreases 4 - i,
        {
            let mut j: usize = 0;
            while j < 4
                invariant
                    i < 4,
                    j <= 4,
                    forall|k: int|
                        0 <= k < 16 && (k % 4 < i || (k % 4 == i && k / 4 < j)) ==> #[trigger] tmp[k]
                            == self.0[(4 * (k / 4) + 13 * (k % 4)) % 16],
                decreases 4 - j,
            {
                tmp[4 * j + i] = self.0[(4 * j + 13 * i) % 16];
                j += 1;
            }
            i += 1;
        }
        assert(tmp@ =~= inv_shift_rows(self@));
        Self(tmp)
    }

    /// Multiplies each column of the state by the circulant matrix with first
    /// row `coef`.
    fn mix_by(self, coef: [u8; 4]) -> (res: Self)
        ensures
            res@ == mix_with(coef@, self@),
    {
        let mut tmp = [0u8; 16];
        let mut col: usize = 0;
        while col < 4
            invariant
                col <= 4,
                forall|k: int|
                    0 <= k < 4 * col ==> #[trigger] tmp[k] == mix_sum(
                        coef@,
                        self@,
                        k / 4,
                        k % 4,
                        4,
                    ),
            decreases 4 - col,
        {
            let mut row: usize = 0;
            while row < 4
                invariant
                    col < 4,
                    row <= 4,
                    forall|k: int|
                        0 <= k < 4 * col + row ==> #[trigger] tmp[k] == mix_sum(
                            coef@,
                            self@,
                            k / 4,
                            k % 4,
                            4,
                        ),
                decreases 4 - row,
            {
                let mut acc: u8 = 0;
                let mut c: usize = 0;
                while c < 4
                    invariant
                        col < 4,
                        row < 4,
                        c <= 4,
                        acc == mix_sum(coef@, self@, col as int, row as int, c as nat),
                    decreases 4 - c,
                {
                    acc ^= crate::gf256::mul(coef[(c + 4 - row) % 4], self.0[4 * col + c]);
                    c += 1;
                }
                tmp[4 * col + row] = acc;
                row += 1;
            }
            col += 1;
        }
        assert(tmp@ =~= mix_with(coef@, self@));
        Self(tmp)
    }

    /// Multiplies each column of the state by the MixColumns matrix.
    pub fn mix_columns(self) -> (res: Self)
        ensures
            res@ == mix_columns(self@),
    {
        self.mix_by(MIX)
    }

    /// Multiplies each column of the state by the InvMixColumns matrix.
    pub fn inv_mix_columns(self) -> (res: Self)
        ensures
            res@ == inv_mix_columns(self@),
    {
        self.mix_by(INV_MIX)
    }
}

/// One full round of the cipher.
pub open spec fn round(s: Seq<u8>, k: Seq<u8>) -> Seq<u8> {
    add_round_key(mix_columns(shift_rows(sub_bytes(s))), k)
}

/// One full round of the inverse cipher.
pub open spec fn inv_round(s: Seq<u8>, k: Seq<u8>) -> Seq<u8> {
    inv_sub_bytes(inv_shift_rows(inv_mix_columns(add_round_key(s, k))))
}

/// The state after the first round key and the full rounds `1..=i`.
pub open spec fn rounds_through(keys: Seq<Seq<u8>>, block: Seq<u8>, i: nat) -> Seq<u8>
    decreases i,
{
    if i == 0 {
        add_round_key(block, keys[0])
    } else {
        round(rounds_through(keys, block, (i - 1) as nat), keys[i as int])
    }
}

/// The state `s` taken back through the full rounds `i`, `i - 1`, ..., 1
/// and the first round key.
pub open spec fn inv_rounds_from(keys: Seq<Seq<u8>>, s: Seq<u8>, i: nat) -> Seq<u8>
    decreases i,
{
    if i == 0 {
        add_round_key(s, keys[0])
    } else {
        inv_rounds_from(keys, inv_round(s, keys[i as int]), (i - 1) as nat)
    }
}

/// The encryption of `block` under the round keys `keys`: the first round
/// key, a full round for each key but the first and the last, and a last
/// round without MixColumns.
pub open spec fn cipher(keys: Seq<Seq<u8>>, block: Seq<u8>) -> Seq<u8> {
    let full = (keys.len() - 2) as nat;
    add_round_key(shift_rows(sub_bytes(rounds_through(keys, block, full))), keys[keys.len() - 1])
}

/// The decryption of `block` under the round keys `keys`: the steps of
/// `cipher` undone, last to first.
pub open spec fn inv_cipher(keys: Seq<Seq<u8>>, block: Seq<u8>) -> Seq<u8> {
    let full = (keys.len() - 2) as nat;
    inv_rounds_from(
        keys,
        inv_sub_bytes(inv_shift_rows(add_round_key(block, keys[keys.len() - 1]))),
        full,
    )
}

/// AddRoundKey is its own inverse.
pub proof fn lemma_add_round_key_twice(s: Seq<u8>, k: Seq<u8>)
    requires
        s.len() == 16,
    ensures
        add_round_key(add_round_key(s, k), k) == s,
{
    assert forall|i: int| 0 <= i < 16 implies add_round_key(add_round_key(s, k), k)[i] == s[i] by {
        lemma_xor_laws(s[i], k[i], 0);
    }
    assert(add_round_key(add_round_key(s, k), k) =~= s);
}

/// InvSubBytes undoes SubBytes.
pub proof fn lemma_inv_sub_bytes(s: Seq<u8>)
    requires
        s.len() == 16,
    ensures
        inv_sub_bytes(sub_bytes(s)) == s,
{
    lemma_inv_s_box();
    assert(inv_sub_bytes(sub_bytes(s)) =~= s);
}

/// InvShiftRows undoes ShiftRows.
pub proof fn lemma_inv_shift_rows(s: Seq<u8>)
    requires
        s.len() == 16,
    ensures
        inv_shift_rows(shift_rows(s)) == s,
{
    assert(inv_shift_rows(shift_rows(s)) =~= s);
}

/// The matrix of InvMixColumns times that of MixColumns is the identity, row
/// by row, on any column `(a0, a1, a2, a3)` with image `(m0, m1, m2, m3)`.
proof fn lemma_inv_mix_column(a0: u8, a1: u8, a2: u8, a3: u8, m0: u8, m1: u8, m2: u8, m3: u8)
    by (bit_vector)
    requires
        m0 == 0 ^ gf_mul(2, a0) ^ gf_mul(3, a1) ^ gf_mul(1, a2) ^ gf_mul(1, a3),
        m1 == 0 ^ gf_mul(1, a0) ^ gf_mul(2, a1) ^ gf_mul(3, a2) ^ gf_mul(1, a3),
        m2 == 0 ^ gf_mul(1, a0) ^ gf_mul(1, a1) ^ gf_mul(2, a2) ^ gf_mul(3, a3),
        m3 == 0 ^ gf_mul(3, a0) ^ gf_mul(1, a1) ^ gf_mul(1, a2) ^ gf_mul(2, a3),
    ensures
        0 ^ gf_mul(14, m0) ^ gf_mul(11, m1) ^ gf_mul(13, m2) ^ gf_mul(9, m3) == a0,
        0 ^ gf_mul(9, m0) ^ gf_mul(14, m1) ^ gf_mul(11, m2) ^ gf_mul(13, m3) == a1,
        0 ^ gf_mul(13, m0) ^ gf_mul(9, m1) ^ gf_mul(14, m2) ^ gf_mul(11, m3) == a2,
        0 ^ gf_mul(11, m0) ^ gf_mul(13, m1) ^ gf_mul(9, m2) ^ gf_mul(14, m3) == a3,
{
}

/// InvMixColumns undoes MixColumns.
pub proof fn lemma_inv_mix_columns(s: Seq<u8>)
    requires
        s.len() == 16,
    ensures
        inv_mix_columns(mix_columns(s)) == s,
{
    let m = mix_columns(s);
    assert forall|k: int| 0 <= k < 16 implies inv_mix_columns(m)[k] == s[k] by {
        let col = k / 4;
        let row = k % 4;
        reveal_with_fuel(mix_sum, 5);
        lemma_inv_mix_column(
            s[4 * col],
            s[4 * col + 1],
            s[4 * col + 2],
            s[4 * col + 3],
            m[4 * col],
            m[4 * col + 1],
            m[4 * col + 2],
            m[4 * col + 3],
        );
    }
    assert(inv_mix_columns(m) =~= s);
}

/// A full round of the inverse cipher undoes a full round of the cipher
/// under the same round key.
pub proof fn lemma_inv_round(s: Seq<u8>, k: Seq<u8>)
    requires
        s.len() == 16,
    ensures
        inv_round(round(s, k), k) == s,
{
    let a = sub_bytes(s);
    let b = shift_rows(a);
    let c = mix_columns(b);
    lemma_add_round_key_twice(c, k);
    lemma_inv_mix_columns(b);
    lemma_inv_shift_rows(a);
    lemma_inv_sub_bytes(s);
}

/// The inverse rounds take the state after round `i` back to the block.
proof fn lemma_inv_rounds_from(keys: Seq<Seq<u8>>, block: Seq<u8>, i: nat)
    requires
        block.len() == 16,
    ensures
        rounds_through(keys, block, i).len() == 16,
        inv_rounds_from(keys, rounds_through(keys, block, i), i) == block,
    decreases i,
{
    if i == 0 {
        lemma_add_round_key_twice(block, keys[0]);
    } else {
        lemma_inv_rounds_from(keys, block, (i - 1) as nat);
        lemma_inv_round(rounds_through(keys, block, (i - 1) as nat), keys[i as int]);
    }
}

/// Decryption undoes encryption under the same round keys, whatever the
/// keys and the block.
pub proof fn lemma_inv_cipher(keys: Seq<Seq<u8>>, block: Seq<u8>)
    requires
        block.len() == 16,
    ensures
        cipher(keys, block).len() == 16,
        inv_cipher(keys, cipher(keys, block)) == block,
{
    let full = (keys.len() - 2) as nat;
    let s = rounds_through(keys, block, full);
    lemma_inv_rounds_from(keys, block, full);
    let a = sub_bytes(s);
    let b = shift_rows(a);
    lemma_add_round_key_twice(b, keys[keys.len() - 1]);
    lemma_inv_shift_rows(a);
    lemma_inv_sub_bytes(s);
}

/// For a key of any of the three widths, decrypting what was encrypted under
/// the key's schedule gives the block back.
pub proof fn lemma_aes_round_trip(key: AESkey, block: Seq<u8>)
    requires
        block.len() == 16,
    ensures
        inv_cipher(key.schedule(), cipher(key.schedule(), block)) == block,
{
    lemma_inv_cipher(key.schedule(), block);
}

/// An AES cipher: the round keys of one key.
#[derive(Debug)]
pub struct AES {
    round_keys: Vec<[u8; 16]>,
}

impl AES {
    #[verifier::type_invariant]
    spec fn well_formed(&self) -> bool {
        self.round_keys.len() == 11 || self.round_keys.len() == 13 || self.round_keys.len() == 15
    }

    /// The round keys of the cipher.
    pub closed spec fn schedule(&self) -> Seq<Seq<u8>> {
        round_keys_view(self.round_keys@)
    }

    /// The cipher for `key`.
    pub fn new(key: AESkey) -> (aes: Self)
        ensures
            aes.schedule() == key.schedule(),
    {
        Self { round_keys: key.key_expansion() }
    }

    /// Encrypts one block.
    pub fn encrypt(&self, in_bytes: [u8; 16]) -> (out: [u8; 16])
        ensures
            out@ == cipher(self.schedule(), in_bytes@),
    {
        proof {
            use_type_invariant(self);
        }
        let keys = &self.round_keys;
        let round = keys.len();
        let mut bytes = AESBlock(in_bytes);
        bytes = bytes.add_round_key(keys[0]);
        let mut i: usize = 1;
        while i < round - 1
            invariant
                round == keys.len(),
                round >= 2,
                keys == &self.round_keys,
                1 <= i <= round - 1,
                bytes@ == rounds_through(self.schedule(), in_bytes@, (i - 1) as nat),
            decreases round - i,
        {
            bytes = bytes.sub_bytes().shift_rows().mix_columns().add_round_key(keys[i]);
            i += 1;
        }
        bytes.sub_bytes().shift_rows().add_round_key(keys[round - 1]).0
    }

    /// Decrypts one block.
    pub fn decrypt(&self, in_bytes: [u8; 16]) -> (out: [u8; 16])
        ensures
            out@ == inv_cipher(self.schedule(), in_bytes@),
    {
        proof {
            use_type_invariant(self);
        }
        let keys = &self.round_keys;
        let round = keys.len();
        let mut bytes = AESBlock(in_bytes);
        bytes = bytes.add_round_key(keys[round - 1]).inv_shift_rows().inv_sub_bytes();
        let mut i: usize = round - 2;
        while i >= 1
            invariant
                round == keys.len(),
                round >= 2,
                keys == &self.round_keys,
                i <= round - 2,
                inv_rounds_from(self.schedule(), bytes@, i as nat) == inv_cipher(
                    self.schedule(),
                    in_bytes@,
                ),
            decreases i,
        {
            bytes = bytes.add_round_key(keys[i]).inv_mix_columns().inv_shift_rows().inv_sub_bytes();
            i -= 1;
        }
        bytes.add_round_key(keys[0]).0
    }
}

impl BlockCipher<16> for AES {
    open spec fn modelled(&self) -> bool {
        true
    }

    open spec fn encryptor(&self) -> spec_fn(Seq<u8>) -> Seq<u8> {
        |block: Seq<u8>| cipher(self.schedule(), block)
    }

    open spec fn decryptor(&self) -> spec_fn(Seq<u8>) -> Seq<u8> {
        |block: Seq<u8>| inv_cipher(self.schedule(), block)
    }

    fn _encrypt(&self, in_bytes: [u8; 16]) -> (out: [u8; 16]) {
        self.encrypt(in_bytes)
    }

    fn _decrypt(&self, in_bytes: [u8; 16]) -> (out: [u8; 16]) {
        self.decrypt(in_bytes)
    }
}

/// As a block cipher for the modes, AES decrypts what it encrypted to the
/// block that it was.
pub proof fn lemma_aes_inverts(aes: AES)
    ensures
        inverts(aes.decryptor(), aes.encryptor(), 16),
{
    let e = aes.encryptor();
    let d = aes.decryptor();
    assert forall|x: Seq<u8>| x.len() == 16 implies (#[trigger] e(x)).len() == 16 && d(e(x))
        == x by {
        lemma_inv_cipher(aes.schedule(), x);
    }
}

} // verus!
