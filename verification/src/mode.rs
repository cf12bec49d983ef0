//! Modes of operation over any block cipher of a fixed block size.
//!
//! A block cipher maps a block of `TEXT_SIZE` bytes to a block of the same
//! size, forward and backward. Under a cipher whose block maps are known,
//! each mode writes to the output what the function of its name in
//! `mode_spec` makes of the input under those maps.

use vstd::prelude::*;
use vstd::pervasive::unreached;
use crate::gf256::{lemma_xor_laws, xor_bytes};
use crate::mode_spec::{
    be_bytes, be_value, blocks_spanned, capacity, cbc_chain, cbc_decrypt, cbc_encrypt,
    cbc_feedback, cfb_decrypt, cfb_encrypt, cfb_encrypt_to, cfb_register, chunk_start, ctr,
    ctr_block, ecb, inverts, lemma_be_bytes, lemma_be_bytes_zero, lemma_be_value,
    lemma_be_value_carry, lemma_be_value_full, lemma_block_bounds, lemma_block_count,
    lemma_blocks_spanned, lemma_capacity_positive, lemma_cfb_register_prefix, lemma_chunk_index,
    lemma_index_in_block, lemma_next_chunk, lemma_next_index, ofb, ofb_stream,
};

verus! {

/// A block cipher with blocks of `TEXT_SIZE` bytes.
///
/// A cipher offers its two block operations, `_encrypt` and `_decrypt`, and
/// has the modes from them. A verified cipher also says which maps its block
/// operations compute: it gives `encryptor` and `decryptor` and declares
/// itself `modelled`. For such a cipher each mode states exactly what it
/// writes. A cipher whose block operations are not verified gives none of the
/// three; the modes then run on it as on any other, and state of what they
/// write only its length.
pub trait BlockCipher<const TEXT_SIZE: usize>: Sized {
    /// Whether `encryptor` and `decryptor` are the maps that `_encrypt` and
    /// `_decrypt` compute. Where a cipher does not say so, they are not known
    /// to be.
    open spec fn modelled(&self) -> bool {
        false
    }

    /// The map that `_encrypt` applies to a block, for a modelled cipher.
    open spec fn encryptor(&self) -> spec_fn(Seq<u8>) -> Seq<u8> {
        |block: Seq<u8>| block
    }

    /// The map that `_decrypt` applies to a block, for a modelled cipher.
    open spec fn decryptor(&self) -> spec_fn(Seq<u8>) -> Seq<u8> {
        |block: Seq<u8>| block
    }

    /// Encrypts one block.
    fn _encrypt(&self, in_bytes: [u8; TEXT_SIZE]) -> (out: [u8; TEXT_SIZE])
        ensures
            self.modelled() ==> out@ == (self.encryptor())(in_bytes@),
    ;

    /// Decrypts one block.
    fn _decrypt(&self, in_bytes: [u8; TEXT_SIZE]) -> (out: [u8; TEXT_SIZE])
        ensures
            self.modelled() ==> out@ == (self.decryptor())(in_bytes@),
    ;

    /// Encrypts `in_bytes` block by block into `out_bytes`: ECB mode.
    fn encrypt_ecb(&self, in_bytes: &[u8], out_bytes: &mut [u8])
        requires
            in_bytes.len() > 0,
            TEXT_SIZE > 0,
            in_bytes.len() % TEXT_SIZE == 0,
            old(out_bytes).len() == in_bytes.len(),
        ensures
            final(out_bytes).len() == old(out_bytes).len(),
            self.modelled() ==> final(out_bytes)@ == ecb(
                self.encryptor(),
                TEXT_SIZE as nat,
                in_bytes@,
            ),
    {
        let blocks = in_bytes.len() / TEXT_SIZE;
        let mut i: usize = 0;
        while i < blocks
            invariant
                TEXT_SIZE > 0,
                in_bytes.len() % TEXT_SIZE == 0,
                blocks == in_bytes.len() / TEXT_SIZE,
                i <= blocks,
                out_bytes.len() == in_bytes.len(),
                forall|j: int|
                    self.modelled() && 0 <= j < i * TEXT_SIZE ==> out_bytes@[j] == ecb(
                        self.encryptor(),
                        TEXT_SIZE as nat,
                        in_bytes@,
                    )[j],
            decreases blocks - i,
        {
            proof {
                lemma_block_bounds(in_bytes.len() as int, TEXT_SIZE as int, i as int);
            }
            let block = read_block::<TEXT_SIZE>(in_bytes, i * TEXT_SIZE);
            let enc = self._encrypt(block);
            write_block::<TEXT_SIZE>(out_bytes, i * TEXT_SIZE, &enc);
            proof {
                assert forall|j: int|
                    self.modelled() && 0 <= j < (i + 1) * TEXT_SIZE implies out_bytes@[j]
                    == ecb(self.encryptor(), TEXT_SIZE as nat, in_bytes@)[j] by {
                    if j >= i * TEXT_SIZE {
                        lemma_index_in_block(j, TEXT_SIZE as int, i as int);
                    }
                }
            }
            i += 1;
        }
        proof {
            lemma_block_count(in_bytes.len() as int, TEXT_SIZE as int);
            if self.modelled() {
                assert(out_bytes@ =~= ecb(self.encryptor(), TEXT_SIZE as nat, in_bytes@));
            }
        }
    }

    /// Decrypts `in_bytes` block by block into `out_bytes`: ECB mode.
    fn decrypt_ecb(&self, in_bytes: &[u8], out_bytes: &mut [u8])
        requires
            in_bytes.len() > 0,
            TEXT_SIZE > 0,
            in_bytes.len() % TEXT_SIZE == 0,
            old(out_bytes).len() == in_bytes.len(),
        ensures
            final(out_bytes).len() == old(out_bytes).len(),
            self.modelled() ==> final(out_bytes)@ == ecb(
                self.decryptor(),
                TEXT_SIZE as nat,
                in_bytes@,
            ),
    {
        let blocks = in_bytes.len() / TEXT_SIZE;
        let mut i: usize = 0;
        while i < blocks
            invariant
                TEXT_SIZE > 0,
                in_bytes.len() % TEXT_SIZE == 0,
                blocks == in_bytes.len() / TEXT_SIZE,
                i <= blocks,
                out_bytes.len() == in_bytes.len(),
                forall|j: int|
                    self.modelled() && 0 <= j < i * TEXT_SIZE ==> out_bytes@[j] == ecb(
                        self.decryptor(),
                        TEXT_SIZE as nat,
                        in_bytes@,
                    )[j],
            decreases blocks - i,
        {
            proof {
                lemma_block_bounds(in_bytes.len() as int, TEXT_SIZE as int, i as int);
            }
            let block = read_block::<TEXT_SIZE>(in_bytes, i * TEXT_SIZE);
            let dec = self._decrypt(block);
            write_block::<TEXT_SIZE>(out_bytes, i * TEXT_SIZE, &dec);
            proof {
                assert forall|j: int|
                    self.modelled() && 0 <= j < (i + 1) * TEXT_SIZE implies out_bytes@[j] == ecb(
                    self.decryptor(),
                    TEXT_SIZE as nat,
                    in_bytes@,
                )[j] by {
                    if j >= i * TEXT_SIZE {
                        lemma_index_in_block(j, TEXT_SIZE as int, i as int);
                    }
                }
            }
            i += 1;
        }
        proof {
            lemma_block_count(in_bytes.len() as int, TEXT_SIZE as int);
            if self.modelled() {
                assert(out_bytes@ =~= ecb(self.decryptor(), TEXT_SIZE as nat, in_bytes@));
            }
        }
    }

    /// Encrypts `in_bytes` into `out_bytes` in CBC mode from the initial
    /// value `iv`.
    fn encrypt_cbc(&self, in_bytes: &[u8], iv: [u8; TEXT_SIZE], out_bytes: &mut [u8])
        requires
            in_bytes.len() > 0,
            TEXT_SIZE > 0,
            in_bytes.len() % TEXT_SIZE == 0,
            old(out_bytes).len() == in_bytes.len(),
        ensures
            final(out_bytes).len() == old(out_bytes).len(),
            self.modelled() ==> final(out_bytes)@ == cbc_encrypt(
                self.encryptor(),
                TEXT_SIZE as nat,
                in_bytes@,
                iv@,
            ),
    {
        let blocks = in_bytes.len() / TEXT_SIZE;
        let mut prev = iv;
        let mut i: usize = 0;
        while i < blocks
            invariant
                TEXT_SIZE > 0,
                in_bytes.len() % TEXT_SIZE == 0,
                blocks == in_bytes.len() / TEXT_SIZE,
                i <= blocks,
                out_bytes.len() == in_bytes.len(),
                self.modelled() ==> prev@ == cbc_chain(
                    self.encryptor(),
                    TEXT_SIZE as nat,
                    in_bytes@,
                    iv@,
                    i as nat,
                ),
                forall|j: int|
                    self.modelled() && 0 <= j < i * TEXT_SIZE ==> out_bytes@[j] == cbc_encrypt(
                        self.encryptor(),
                        TEXT_SIZE as nat,
                        in_bytes@,
                        iv@,
                    )[j],
            decreases blocks - i,
        {
            proof {
                lemma_block_bounds(in_bytes.len() as int, TEXT_SIZE as int, i as int);
            }
            let block = read_block::<TEXT_SIZE>(in_bytes, i * TEXT_SIZE);
            let enc = self._encrypt(xor_block::<TEXT_SIZE>(&block, &prev));
            write_block::<TEXT_SIZE>(out_bytes, i * TEXT_SIZE, &enc);
            proof {
                assert(self.modelled() ==> enc@ == cbc_chain(
                    self.encryptor(),
                    TEXT_SIZE as nat,
                    in_bytes@,
                    iv@,
                    (i + 1) as nat,
                ));
                assert forall|j: int|
                    self.modelled() && 0 <= j < (i + 1) * TEXT_SIZE implies out_bytes@[j]
                    == cbc_encrypt(self.encryptor(), TEXT_SIZE as nat, in_bytes@, iv@)[j] by {
                    if j >= i * TEXT_SIZE {
                        lemma_index_in_block(j, TEXT_SIZE as int, i as int);
                    }
                }
            }
            prev = enc;
            i += 1;
        }
        proof {
            lemma_block_count(in_bytes.len() as int, TEXT_SIZE as int);
            assert(self.modelled() ==> out_bytes@ =~= cbc_encrypt(
                self.encryptor(),
                TEXT_SIZE as nat,
                in_bytes@,
                iv@,
            ));
        }
    }

    /// Decrypts `in_bytes` into `out_bytes` in CBC mode from the initial
    /// value `iv`.
    fn decrypt_cbc(&self, in_bytes: &[u8], iv: [u8; TEXT_SIZE], out_bytes: &mut [u8])
        requires
            in_bytes.len() > 0,
            TEXT_SIZE > 0,
            in_bytes.len() % TEXT_SIZE == 0,
            old(out_bytes).len() == in_bytes.len(),
        ensures
            final(out_bytes).len() == old(out_bytes).len(),
            self.modelled() ==> final(out_bytes)@ == cbc_decrypt(
                self.decryptor(),
                TEXT_SIZE as nat,
                in_bytes@,
                iv@,
            ),
    {
        let blocks = in_bytes.len() / TEXT_SIZE;
        let mut prev = iv;
        let mut i: usize = 0;
        while i < blocks
            invariant
                TEXT_SIZE > 0,
                in_bytes.len() % TEXT_SIZE == 0,
                blocks == in_bytes.len() / TEXT_SIZE,
                i <= blocks,
                out_bytes.len() == in_bytes.len(),
                prev@ == cbc_feedback(TEXT_SIZE as nat, in_bytes@, iv@, i as int),
                forall|j: int|
                    self.modelled() && 0 <= j < i * TEXT_SIZE ==> out_bytes@[j] == cbc_decrypt(
                        self.decryptor(),
                        TEXT_SIZE as nat,
                        in_bytes@,
                        iv@,
                    )[j],
            decreases blocks - i,
        {
            proof {
                lemma_block_bounds(in_bytes.len() as int, TEXT_SIZE as int, i as int);
            }
            let block = read_block::<TEXT_SIZE>(in_bytes, i * TEXT_SIZE);
            let dec = self._decrypt(block);
            let plain = xor_block::<TEXT_SIZE>(&dec, &prev);
            write_block::<TEXT_SIZE>(out_bytes, i * TEXT_SIZE, &plain);
            proof {
                assert forall|j: int|
                    self.modelled() && 0 <= j < (i + 1) * TEXT_SIZE implies out_bytes@[j]
                    == cbc_decrypt(self.decryptor(), TEXT_SIZE as nat, in_bytes@, iv@)[j] by {
                    if j >= i * TEXT_SIZE {
                        lemma_index_in_block(j, TEXT_SIZE as int, i as int);
                    }
                }
            }
            prev = block;
            i += 1;
        }
        proof {
            lemma_block_count(in_bytes.len() as int, TEXT_SIZE as int);
            assert(self.modelled() ==> out_bytes@ =~= cbc_decrypt(
                self.decryptor(),
                TEXT_SIZE as nat,
                in_bytes@,
                iv@,
            ));
        }
    }

    /// Encrypts `in_bytes` into `out_bytes` in OFB mode from the initial
    /// value `iv`.
    fn encrypt_ofb(&self, in_bytes: &[u8], iv: [u8; TEXT_SIZE], out_bytes: &mut [u8])
        requires
            TEXT_SIZE > 0,
            old(out_bytes).len() == in_bytes.len(),
        ensures
            final(out_bytes).len() == old(out_bytes).len(),
            self.modelled() ==> final(out_bytes)@ == ofb(
                self.encryptor(),
                TEXT_SIZE as nat,
                in_bytes@,
                iv@,
            ),
    {
        let mut e = iv;
        let mut i: usize = 0;
        while i < in_bytes.len()
            invariant
                TEXT_SIZE > 0,
                i <= in_bytes.len(),
                out_bytes.len() == in_bytes.len(),
                self.modelled() ==> e@ == ofb_stream(
                    self.encryptor(),
                    iv@,
                    if i % TEXT_SIZE == 0 {
                        i as nat / TEXT_SIZE as nat
                    } else {
                        i as nat / TEXT_SIZE as nat + 1
                    },
                ),
                forall|j: int|
                    self.modelled() && 0 <= j < i ==> out_bytes@[j] == ofb(
                        self.encryptor(),
                        TEXT_SIZE as nat,
                        in_bytes@,
                        iv@,
                    )[j],
            decreases in_bytes.len() - i,
        {
            proof {
                lemma_next_index(i as int, TEXT_SIZE as int);
            }
            if i % TEXT_SIZE == 0 {
                e = self._encrypt(e);
            }
            out_bytes[i] = in_bytes[i] ^ e[i % TEXT_SIZE];
            i += 1;
        }
        proof {
            if self.modelled() {
                assert(out_bytes@ =~= ofb(self.encryptor(), TEXT_SIZE as nat, in_bytes@, iv@));
            }
        }
    }

    /// Decrypts `in_bytes` into `out_bytes` in OFB mode from the initial
    /// value `iv`: the same operation as encryption.
    fn decrypt_ofb(&self, in_bytes: &[u8], iv: [u8; TEXT_SIZE], out_bytes: &mut [u8])
        requires
            TEXT_SIZE > 0,
            old(out_bytes).len() == in_bytes.len(),
        ensures
            final(out_bytes).len() == old(out_bytes).len(),
            self.modelled() ==> final(out_bytes)@ == ofb(
                self.encryptor(),
                TEXT_SIZE as nat,
                in_bytes@,
                iv@,
            ),
    {
        self.encrypt_ofb(in_bytes, iv, out_bytes)
    }

    /// CFB with a feedback of `n` bits, in either direction: each chunk of
    /// `n / 8` bytes is XORed with the start of the encrypted shift register,
    /// and the ciphertext chunk is shifted into the register.
    fn _cfb_n(
        &self,
        in_bytes: &[u8],
        iv: [u8; TEXT_SIZE],
        out_bytes: &mut [u8],
        n: usize,
        is_encrypt: bool,
    )
        requires
            n % 8 == 0,
            0 < n,
            n / 8 <= TEXT_SIZE,
            old(out_bytes).len() == in_bytes.len(),
        ensures
            final(out_bytes).len() == old(out_bytes).len(),
            self.modelled() && is_encrypt ==> final(out_bytes)@ == cfb_encrypt(
                self.encryptor(),
                (n / 8) as nat,
                in_bytes@,
                iv@,
            ),
            self.modelled() && !is_encrypt ==> final(out_bytes)@ == cfb_decrypt(
                self.encryptor(),
                (n / 8) as nat,
                in_bytes@,
                iv@,
            ),
    {
        let block = n / 8;
        let ghost s = block as nat;
        let ghost enc = self.encryptor();
        let mut e = iv;
        let mut pos: usize = 0;
        while pos < in_bytes.len()
            invariant
                0 < block <= TEXT_SIZE,
                s == block,
                enc == self.encryptor(),
                pos <= in_bytes.len(),
                out_bytes.len() == in_bytes.len(),
                pos < in_bytes.len() ==> pos % block == 0,
                self.modelled() && is_encrypt ==> out_bytes@.subrange(0, pos as int)
                    == cfb_encrypt_to(
                    enc,
                    s,
                    in_bytes@,
                    iv@,
                    pos as int,
                ),
                is_encrypt && pos < in_bytes.len() ==> e@ == cfb_register(
                    iv@,
                    out_bytes@.subrange(0, pos as int),
                    s,
                    pos as int,
                ),
                !is_encrypt && pos < in_bytes.len() ==> e@ == cfb_register(
                    iv@,
                    in_bytes@,
                    s,
                    pos as int,
                ),
                self.modelled() && !is_encrypt ==> forall|j: int|
                    0 <= j < pos ==> out_bytes@[j] == cfb_decrypt(enc, s, in_bytes@, iv@)[j],
            decreases in_bytes.len() - pos,
        {
            let ghost reg = e@;
            let ghost out_before = out_bytes@;
            let e1 = self._encrypt(e);
            let mut t: usize = 0;
            while t < TEXT_SIZE - block
                invariant
                    0 < block <= TEXT_SIZE,
                    t <= TEXT_SIZE - block,
                    forall|u: int| 0 <= u < t ==> e@[u] == reg[u + block],
                    forall|u: int| t <= u < TEXT_SIZE ==> e@[u] == reg[u],
                decreases TEXT_SIZE - block - t,
            {
                e[t] = e[t + block];
                t += 1;
            }
            let take = if in_bytes.len() - pos < block {
                in_bytes.len() - pos
            } else {
                block
            };
            let mut o: usize = 0;
            while o < take
                invariant
                    0 < block <= TEXT_SIZE,
                    s == block,
                    pos % block == 0,
                    o <= take <= block,
                    pos + take <= in_bytes.len(),
                    out_bytes.len() == in_bytes.len(),
                    forall|u: int| 0 <= u < TEXT_SIZE - block ==> e@[u] == reg[u + block],
                    forall|u: int|
                        TEXT_SIZE - block <= u < TEXT_SIZE - block + o ==> #[trigger] e@[u]
                            == if is_encrypt {
                            out_bytes@[pos + u - (TEXT_SIZE - block)]
                        } else {
                            in_bytes@[pos + u - (TEXT_SIZE - block)]
                        },
                    out_before.len() == out_bytes.len(),
                    forall|j: int| 0 <= j < pos ==> out_bytes@[j] == out_before[j],
                    forall|j: int|
                        pos <= j < pos + o ==> #[trigger] out_bytes@[j] == e1@[j - pos]
                            ^ in_bytes@[j],
                decreases take - o,
            {
                let ib = in_bytes[pos + o];
                let ob = e1[o] ^ ib;
                out_bytes[pos + o] = ob;
                e[TEXT_SIZE - block + o] = if is_encrypt {
                    ob
                } else {
                    ib
                };
                o += 1;
            }
            proof {
                let next = pos + take;
                let ct = if is_encrypt {
                    out_bytes@.subrange(0, next as int)
                } else {
                    in_bytes@
                };
                let ct_before = if is_encrypt {
                    out_before.subrange(0, pos as int)
                } else {
                    in_bytes@
                };
                lemma_cfb_register_prefix(iv@, ct_before, ct, s, pos as int);
                assert(reg == cfb_register(iv@, ct, s, pos as int));
                lemma_chunk_index(pos as int, s, take - 1);
                if self.modelled() && is_encrypt {
                    let done = cfb_encrypt_to(enc, s, in_bytes@, iv@, pos as int);
                    assert(done =~= out_bytes@.subrange(0, pos as int));
                    assert(done =~= ct_before);
                    assert(out_bytes@.subrange(0, next as int) =~= cfb_encrypt_to(
                        enc,
                        s,
                        in_bytes@,
                        iv@,
                        next as int,
                    ));
                }
                if self.modelled() && !is_encrypt {
                    assert forall|j: int| 0 <= j < next implies out_bytes@[j] == cfb_decrypt(
                        enc,
                        s,
                        in_bytes@,
                        iv@,
                    )[j] by {
                        if j >= pos {
                            lemma_chunk_index(pos as int, s, j - pos);
                            assert(out_bytes@[j] == e1@[j - pos] ^ in_bytes@[j]);
                            assert(chunk_start(j, s) == pos);
                            assert(j % (s as int) == j - pos);
                        } else {
                            assert(out_bytes@[j] == out_before[j]);
                        }
                    }
                }
                if next < in_bytes.len() {
                    lemma_chunk_index(pos as int, s, 0);
                    lemma_next_chunk(pos as int, s);
                    assert(e@ =~= cfb_register(iv@, ct, s, next as int));
                }
            }
            pos += take;
        }
        proof {
            if self.modelled() && is_encrypt {
                assert(out_bytes@ =~= out_bytes@.subrange(0, pos as int));
            }
            if self.modelled() && !is_encrypt {
                assert(out_bytes@ =~= cfb_decrypt(enc, s, in_bytes@, iv@));
            }
        }
    }

    /// Encrypts `in_bytes` into `out_bytes` in CFB mode with a feedback of a
    /// whole block, from the initial value `iv`.
    fn encrypt_cfb(&self, in_bytes: &[u8], iv: [u8; TEXT_SIZE], out_bytes: &mut [u8])
        requires
            0 < TEXT_SIZE,
            TEXT_SIZE * 8 <= usize::MAX,
            old(out_bytes).len() == in_bytes.len(),
        ensures
            final(out_bytes).len() == old(out_bytes).len(),
            self.modelled() ==> final(out_bytes)@ == cfb_encrypt(
                self.encryptor(),
                TEXT_SIZE as nat,
                in_bytes@,
                iv@,
            ),
    {
        self._cfb_n(in_bytes, iv, out_bytes, TEXT_SIZE * 8, true);
    }

    /// Decrypts `in_bytes` into `out_bytes` in CFB mode with a feedback of a
    /// whole block, from the initial value `iv`.
    fn decrypt_cfb(&self, in_bytes: &[u8], iv: [u8; TEXT_SIZE], out_bytes: &mut [u8])
        requires
            0 < TEXT_SIZE,
            TEXT_SIZE * 8 <= usize::MAX,
            old(out_bytes).len() == in_bytes.len(),
        ensures
            final(out_bytes).len() == old(out_bytes).len(),
            self.modelled() ==> final(out_bytes)@ == cfb_decrypt(
                self.encryptor(),
                TEXT_SIZE as nat,
                in_bytes@,
                iv@,
            ),
    {
        self._cfb_n(in_bytes, iv, out_bytes, TEXT_SIZE * 8, false);
    }

    /// Encrypts `in_bytes` into `out_bytes` in CFB mode with a feedback of
    /// `n` bits, from the initial value `iv`.
    fn encrypt_cfb_n(&self, in_bytes: &[u8], iv: [u8; TEXT_SIZE], out_bytes: &mut [u8], n: usize)
        requires
            n % 8 == 0,
            0 < n,
            n / 8 <= TEXT_SIZE,
            old(out_bytes).len() == in_bytes.len(),
        ensures
            final(out_bytes).len() == old(out_bytes).len(),
            self.modelled() ==> final(out_bytes)@ == cfb_encrypt(
                self.encryptor(),
                (n / 8) as nat,
                in_bytes@,
                iv@,
            ),
    {
        self._cfb_n(in_bytes, iv, out_bytes, n, true);
    }

    /// Decrypts `in_bytes` into `out_bytes` in CFB mode with a feedback of
    /// `n` bits, from the initial value `iv`.
    fn decrypt_cfb_n(&self, in_bytes: &[u8], iv: [u8; TEXT_SIZE], out_bytes: &mut [u8], n: usize)
        requires
            n % 8 == 0,
            0 < n,
            n / 8 <= TEXT_SIZE,
            old(out_bytes).len() == in_bytes.len(),
        ensures
            final(out_bytes).len() == old(out_bytes).len(),
            self.modelled() ==> final(out_bytes)@ == cfb_decrypt(
                self.encryptor(),
                (n / 8) as nat,
                in_bytes@,
                iv@,
            ),
    {
        self._cfb_n(in_bytes, iv, out_bytes, n, false)
    }

    /// Encrypts `in_bytes` into `out_bytes` in CTR mode: block `i` of the
    /// key stream is the encryption of `nonce` followed by the number `i`.
    fn encrypt_ctr(&self, in_bytes: &[u8], nonce: &[u8], out_bytes: &mut [u8])
        requires
            nonce.len() < TEXT_SIZE,
            blocks_spanned(in_bytes.len() as nat, TEXT_SIZE as nat) < capacity(
                (TEXT_SIZE - nonce.len()) as nat,
            ),
            old(out_bytes).len() == in_bytes.len(),
        ensures
            final(out_bytes).len() == old(out_bytes).len(),
            self.modelled() ==> final(out_bytes)@ == ctr(
                self.encryptor(),
                TEXT_SIZE as nat,
                in_bytes@,
                nonce@,
            ),
    {
        let mut e = [0u8; TEXT_SIZE];
        let mut c: DefaultCounter<TEXT_SIZE> = DefaultCounter::new(nonce);
        let mut i: usize = 0;
        while i < in_bytes.len()
            invariant
                nonce.len() < TEXT_SIZE,
                blocks_spanned(in_bytes.len() as nat, TEXT_SIZE as nat) < capacity(
                    (TEXT_SIZE - nonce.len()) as nat,
                ),
                i <= in_bytes.len(),
                out_bytes.len() == in_bytes.len(),
                c.wf(),
                c.nonce_len == nonce.len(),
                c.inner@ == ctr_block(
                    nonce@,
                    TEXT_SIZE as nat,
                    if i % TEXT_SIZE == 0 {
                        i as nat / TEXT_SIZE as nat
                    } else {
                        i as nat / TEXT_SIZE as nat + 1
                    },
                ),
                self.modelled() && i % TEXT_SIZE != 0 ==> e@ == (self.encryptor())(
                    ctr_block(nonce@, TEXT_SIZE as nat, i as nat / TEXT_SIZE as nat),
                ),
                forall|j: int|
                    self.modelled() && 0 <= j < i ==> out_bytes@[j] == ctr(
                        self.encryptor(),
                        TEXT_SIZE as nat,
                        in_bytes@,
                        nonce@,
                    )[j],
            decreases in_bytes.len() - i,
        {
            proof {
                lemma_next_index(i as int, TEXT_SIZE as int);
            }
            if i % TEXT_SIZE == 0 {
                e = self._encrypt(c.inner);
                proof {
                    let k = i as nat / TEXT_SIZE as nat;
                    let w = (TEXT_SIZE - nonce.len()) as nat;
                    lemma_blocks_spanned(i as int, in_bytes.len() as int, TEXT_SIZE as int);
                    lemma_be_bytes(k, w);
                    assert(c.inner@.subrange(c.nonce_len as int, TEXT_SIZE as int) =~= be_bytes(
                        k,
                        w,
                    ));
                    assert(c.inner@.subrange(0, c.nonce_len as int) =~= nonce@);
                }
                c.next();
            }
            out_bytes[i] = in_bytes[i] ^ e[i % TEXT_SIZE];
            i += 1;
        }
        proof {
            if self.modelled() {
                assert(out_bytes@ =~= ctr(self.encryptor(), TEXT_SIZE as nat, in_bytes@, nonce@));
            }
        }
    }

    /// Decrypts `in_bytes` into `out_bytes` in CTR mode: the same operation
    /// as encryption.
    fn decrypt_ctr(&self, in_bytes: &[u8], nonce: &[u8], out_bytes: &mut [u8])
        requires
            nonce.len() < TEXT_SIZE,
            blocks_spanned(in_bytes.len() as nat, TEXT_SIZE as nat) < capacity(
                (TEXT_SIZE - nonce.len()) as nat,
            ),
            old(out_bytes).len() == in_bytes.len(),
        ensures
            final(out_bytes).len() == old(out_bytes).len(),
            self.modelled() ==> final(out_bytes)@ == ctr(
                self.encryptor(),
                TEXT_SIZE as nat,
                in_bytes@,
                nonce@,
            ),
    {
        self.encrypt_ctr(in_bytes, nonce, out_bytes);
    }
}

/// The bytewise XOR of two blocks.
pub fn xor_block<const B: usize>(a: &[u8; B], b: &[u8; B]) -> (res: [u8; B])
    ensures
        res@ == xor_bytes(a@, b@),
{
    let mut res = [0u8; B];
    let mut j: usize = 0;
    while j < B
        invariant
            j <= B,
            forall|t: int| 0 <= t < j ==> res[t] == a[t] ^ b[t],
        decreases B - j,
    {
        res[j] = a[j] ^ b[j];
        j += 1;
    }
    assert(res@ =~= xor_bytes(a@, b@));
    res
}

/// The `B` bytes of `src` from index `at`.
pub fn read_block<const B: usize>(src: &[u8], at: usize) -> (res: [u8; B])
    requires
        at + B <= src.len(),
    ensures
        res@ == src@.subrange(at as int, at + B),
{
    let mut res = [0u8; B];
    let mut j: usize = 0;
    while j < B
        invariant
            at + B <= src.len(),
            j <= B,
            forall|t: int| 0 <= t < j ==> res[t] == src[at + t],
        decreases B - j,
    {
        res[j] = src[at + j];
        j += 1;
    }
    assert(res@ =~= src@.subrange(at as int, at + B));
    res
}

/// Writes `block` over the `B` bytes of `dst` from index `at`.
pub fn write_block<const B: usize>(dst: &mut [u8], at: usize, block: &[u8; B])
    requires
        at + B <= old(dst).len(),
    ensures
        final(dst).len() == old(dst).len(),
        forall|t: int| 0 <= t < at ==> final(dst)@[t] == old(dst)@[t],
        forall|t: int| at <= t < at + B ==> final(dst)@[t] == block@[t - at],
        forall|t: int| at + B <= t < old(dst).len() ==> final(dst)@[t] == old(dst)@[t],
{
    let mut j: usize = 0;
    while j < B
        invariant
            at + B <= dst.len(),
            dst.len() == old(dst).len(),
            j <= B,
            forall|t: int| 0 <= t < at ==> dst@[t] == old(dst)@[t],
            forall|t: int| at <= t < at + j ==> dst@[t] == block@[t - at],
            forall|t: int| at + j <= t < dst.len() ==> dst@[t] == old(dst)@[t],
        decreases B - j,
    {
        dst[at + j] = block[j];
        j += 1;
    }
}

/// The counter of CTR mode: a block that starts with the nonce and holds a
/// number in the bytes after it, most significant byte first.
pub struct DefaultCounter<const T: usize> {
    pub inner: [u8; T],
    pub nonce_len: usize,
}

impl<const T: usize> DefaultCounter<T> {
    /// The nonce leaves room for a counter.
    pub open spec fn wf(&self) -> bool {
        self.nonce_len < T
    }

    /// The nonce that the block starts with.
    pub open spec fn nonce(&self) -> Seq<u8> {
        self.inner@.subrange(0, self.nonce_len as int)
    }

    /// The number that the counter stands at.
    pub open spec fn count(&self) -> nat {
        be_value(self.inner@.subrange(self.nonce_len as int, T as int))
    }

    /// The number of values that the counter takes.
    pub open spec fn limit(&self) -> nat {
        capacity((T - self.nonce_len) as nat)
    }

    /// Whether the counter stands at its last value, so that it cannot be
    /// advanced.
    pub open spec fn exhausted(&self) -> bool {
        forall|t: int| self.nonce_len <= t < T ==> self.inner@[t] == 255
    }

    /// The counter for `nonce`, at 0.
    pub fn new(nonce: &[u8]) -> (c: Self)
        requires
            nonce.len() < T,
        ensures
            c.wf(),
            c.nonce_len == nonce.len(),
            c.nonce() == nonce@,
            c.count() == 0,
            c.inner@ == ctr_block(nonce@, T as nat, 0),
    {
        let mut inner = [0u8; T];
        let mut i: usize = 0;
        while i < T
            invariant
                nonce.len() < T,
                i <= T,
                forall|t: int| 0 <= t < i && t < nonce.len() ==> inner[t] == nonce[t],
                forall|t: int| nonce.len() <= t < i ==> inner[t] == 0,
            decreases T - i,
        {
            inner[i] = if i < nonce.len() {
                nonce[i]
            } else {
                0
            };
            i += 1;
        }
        let c = Self { inner, nonce_len: nonce.len() };
        proof {
            let w = (T - nonce.len()) as nat;
            lemma_be_bytes_zero(w);
            lemma_capacity_positive(w);
            lemma_be_bytes(0, w);
            assert(c.inner@ =~= ctr_block(nonce@, T as nat, 0));
            assert(c.nonce() =~= nonce@);
            assert(c.inner@.subrange(c.nonce_len as int, T as int) =~= be_bytes(0, w));
        }
        c
    }

    /// Whether the counter stands at its last value.
    pub fn is_exhausted(&self) -> (res: bool)
        requires
            self.wf(),
        ensures
            res == self.exhausted(),
    {
        let mut i: usize = self.nonce_len;
        while i < T
            invariant
                self.nonce_len <= i <= T,
                forall|t: int| self.nonce_len <= t < i ==> self.inner@[t] == 255,
            decreases T - i,
        {
            if self.inner[i] != 255 {
                return false;
            }
            i += 1;
        }
        true
    }

    /// Advances the counter by one.
    pub fn next(&mut self)
        requires
            old(self).wf(),
            old(self).count() + 1 < old(self).limit(),
        ensures
            final(self).wf(),
            final(self).nonce_len == old(self).nonce_len,
            final(self).nonce() == old(self).nonce(),
            final(self).count() == old(self).count() + 1,
            final(self).inner@ == ctr_block(
                old(self).nonce(),
                T as nat,
                old(self).count() + 1,
            ),
    {
        let ghost before = self.inner@.subrange(self.nonce_len as int, T as int);
        let mut p: usize = T;
        while p > self.nonce_len
            invariant
                self.nonce_len == old(self).nonce_len,
                before == old(self).inner@.subrange(self.nonce_len as int, T as int),
                self.nonce_len <= p <= T,
                forall|t: int| 0 <= t < p ==> self.inner@[t] == old(self).inner@[t],
                forall|t: int| p <= t < T ==> old(self).inner@[t] == 255 && self.inner@[t] == 0,
            decreases p,
        {
            p -= 1;
            if self.inner[p] == 255 {
                self.inner[p] = 0;
            } else {
                self.inner[p] = self.inner[p] + 1;
                proof {
                    let after = self.inner@.subrange(self.nonce_len as int, T as int);
                    lemma_be_value_carry(before, after, p - self.nonce_len);
                    lemma_be_value(after);
                    assert(self.nonce() =~= old(self).nonce());
                    assert(self.inner@ =~= ctr_block(
                        old(self).nonce(),
                        T as nat,
                        old(self).count() + 1,
                    ));
                }
                return;
            }
        }
        proof {
            lemma_be_value_full(before);
        }
        unreached()
    }
}

/// A toy cipher on blocks of 4 bytes, for trying the modes: it rotates the
/// block left by one byte and flips every bit.
pub struct BlockCipherTester;

impl BlockCipher<4> for BlockCipherTester {
    open spec fn modelled(&self) -> bool {
        true
    }

    open spec fn encryptor(&self) -> spec_fn(Seq<u8>) -> Seq<u8> {
        |block: Seq<u8>| Seq::new(4, |i: int| block[(i + 1) % 4] ^ 0xff)
    }

    open spec fn decryptor(&self) -> spec_fn(Seq<u8>) -> Seq<u8> {
        |block: Seq<u8>| Seq::new(4, |i: int| block[(i + 3) % 4] ^ 0xff)
    }

    fn _encrypt(&self, in_bytes: [u8; 4]) -> (out: [u8; 4]) {
        let out = [
            in_bytes[1] ^ 0xff,
            in_bytes[2] ^ 0xff,
            in_bytes[3] ^ 0xff,
            in_bytes[0] ^ 0xff,
        ];
        assert(out@ =~= (self.encryptor())(in_bytes@));
        out
    }

    fn _decrypt(&self, in_bytes: [u8; 4]) -> (out: [u8; 4]) {
        let out = [
            in_bytes[3] ^ 0xff,
            in_bytes[0] ^ 0xff,
            in_bytes[1] ^ 0xff,
            in_bytes[2] ^ 0xff,
        ];
        assert(out@ =~= (self.decryptor())(in_bytes@));
        out
    }
}

/// The toy cipher's decryption takes back what its encryption made of a
/// block.
pub proof fn lemma_tester_inverts(t: BlockCipherTester)
    ensures
        inverts(t.decryptor(), t.encryptor(), 4),
{
    let e = t.encryptor();
    let d = t.decryptor();
    assert forall|x: Seq<u8>| x.len() == 4 implies (#[trigger] e(x)).len() == 4 && d(e(x)) == x by {
        assert forall|i: int| 0 <= i < 4 implies d(e(x))[i] == x[i] by {
            lemma_xor_laws(x[i], 0xff, 0);
        }
        assert(d(e(x)) =~= x);
    }
}

} // verus!
