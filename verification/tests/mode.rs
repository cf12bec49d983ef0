use std::array;

use aes_cipher::aes::{AESkey, AES};
use aes_cipher::mode::{read_block, write_block, xor_block, BlockCipher, BlockCipherTester};

fn unhex(s: &str) -> Vec<u8> {
    let digits: Vec<u8> = s.bytes().map(|c| (c as char).to_digit(16).unwrap() as u8).collect();
    digits.chunks(2).map(|p| p[0] * 16 + p[1]).collect()
}

fn sample_aes() -> AES {
    AES::new(AESkey::K128(unhex("2b7e151628aed2a6abf7158809cf4f3c").try_into().unwrap()))
}

fn sample_iv() -> [u8; 16] {
    array::from_fn(|i| i as u8)
}

fn sample_text() -> Vec<u8> {
    unhex("6bc1bee22e409f96e93d7e117393172aae2d8a571e03ac9c9eb76fac45af8e51")
}

#[test]
fn test_ecb() {
    let b = BlockCipherTester;
    let res: [u8; 16] = array::from_fn(|i| i as u8);
    let mut out_bytes = [0; 16];
    let mut out_out_bytes = [0; 16];
    b.encrypt_ecb(&res, &mut out_bytes);
    b.decrypt_ecb(&out_bytes, &mut out_out_bytes);
    assert!(res == out_out_bytes);
}

#[test]
fn test_cbc() {
    let b = BlockCipherTester;
    let res: [u8; 16] = array::from_fn(|i| i as u8);
    let mut out_bytes = [0; 16];
    let mut out_out_bytes = [0; 16];
    let iv = [11, 12, 13, 14];
    b.encrypt_cbc(&res, iv, &mut out_bytes);
    b.decrypt_cbc(&out_bytes, iv, &mut out_out_bytes);
    assert!(out_out_bytes == res);
}

#[test]
fn test_ofb() {
    let b = BlockCipherTester;
    let res: [u8; 14] = array::from_fn(|i| i as u8);
    let mut out_bytes = [0; 14];
    let mut out_out_bytes = [0; 14];
    let iv = [11, 12, 13, 14];
    b.encrypt_ofb(&res, iv, &mut out_bytes);
    b.decrypt_ofb(&out_bytes, iv, &mut out_out_bytes);
    assert!(out_out_bytes == res);
}

#[test]
fn test_cfb() {
    let b = BlockCipherTester;
    let res: [u8; 13] = array::from_fn(|i| i as u8);
    let mut out_bytes = [0; 13];
    let mut out_out_bytes = [0; 13];
    let iv = [11, 12, 13, 14];
    b.encrypt_cfb(&res, iv, &mut out_bytes);
    b.decrypt_cfb(&out_bytes, iv, &mut out_out_bytes);
    assert!(out_out_bytes == res);
}

#[test]
fn test_cfb_n() {
    let b = BlockCipherTester;
    let res: [u8; 13] = array::from_fn(|i| i as u8);
    let mut out_bytes = [0; 13];
    let mut out_out_bytes = [0; 13];
    let iv = [11, 12, 13, 14];
    b.encrypt_cfb_n(&res, iv, &mut out_bytes, 24);
    b.decrypt_cfb_n(&out_bytes, iv, &mut out_out_bytes, 24);
    assert!(out_out_bytes == res);
}

#[test]
fn test_ctr() {
    let b = BlockCipherTester;
    let res: [u8; 20] = array::from_fn(|i| i as u8);
    let mut out_bytes = [0; 20];
    let mut out_out_bytes = [0; 20];
    let nonce = [11, 12, 13];
    b.encrypt_ctr(&res, &nonce, &mut out_bytes);
    b.decrypt_ctr(&out_bytes, &nonce, &mut out_out_bytes);
    assert!(out_out_bytes == res);
}

#[test]
fn tester_cipher_blocks() {
    let b = BlockCipherTester;
    assert_eq!(b._encrypt([1, 2, 3, 4]), [0xfd, 0xfc, 0xfb, 0xfe]);
    assert_eq!(b._decrypt([0xfd, 0xfc, 0xfb, 0xfe]), [1, 2, 3, 4]);
    assert_eq!(b._decrypt([1, 2, 3, 4]), [0xfb, 0xfe, 0xfd, 0xfc]);
}

#[test]
fn tester_ecb_exact() {
    let b = BlockCipherTester;
    let text: [u8; 16] = array::from_fn(|i| i as u8);
    let mut out = [0u8; 16];
    b.encrypt_ecb(&text, &mut out);
    assert_eq!(
        out,
        [0xfe, 0xfd, 0xfc, 0xff, 0xfa, 0xf9, 0xf8, 0xfb, 0xf6, 0xf5, 0xf4, 0xf7, 0xf2, 0xf1, 0xf0, 0xf3]
    );
    let mut one = [0u8; 4];
    b.encrypt_ecb(&[1, 2, 3, 4], &mut one);
    assert_eq!(one, [0xfd, 0xfc, 0xfb, 0xfe]);
}

#[test]
fn tester_cbc_exact() {
    let b = BlockCipherTester;
    let text: [u8; 16] = array::from_fn(|i| i as u8);
    let mut out = [0u8; 16];
    b.encrypt_cbc(&text, [11, 12, 13, 14], &mut out);
    assert_eq!(
        out,
        [0xf2, 0xf0, 0xf2, 0xf4, 0x0a, 0x0b, 0x0c, 0x09, 0xfd, 0xf9, 0xfd, 0xfd, 0x0b, 0x0c, 0x0d, 0x0e]
    );
}

#[test]
fn tester_ofb_exact() {
    let b = BlockCipherTester;
    let text: [u8; 14] = array::from_fn(|i| i as u8);
    let mut out = [0u8; 14];
    b.encrypt_ofb(&text, [11, 12, 13, 14], &mut out);
    assert_eq!(
        out,
        [0xf3, 0xf3, 0xf3, 0xf7, 0x09, 0x0b, 0x0d, 0x0b, 0xf9, 0xfd, 0xf9, 0xf9, 0x07, 0x01]
    );
    let mut again = [0u8; 14];
    b.encrypt_ofb(&out, [11, 12, 13, 14], &mut again);
    assert_eq!(again, text);
}

#[test]
fn tester_cfb_exact() {
    let b = BlockCipherTester;
    let text: [u8; 13] = array::from_fn(|i| i as u8);
    let mut out = [0u8; 13];
    b.encrypt_cfb(&text, [11, 12, 13, 14], &mut out);
    assert_eq!(
        out,
        [0xf3, 0xf3, 0xf3, 0xf7, 0x08, 0x09, 0x0e, 0x0b, 0xfe, 0xf8, 0xfe, 0xfc, 0x0b]
    );
    let mut wide = [0u8; 13];
    b.encrypt_cfb_n(&text, [11, 12, 13, 14], &mut wide, 32);
    assert_eq!(wide, out);
}

#[test]
fn tester_cfb_n_exact() {
    let b = BlockCipherTester;
    let text: [u8; 13] = array::from_fn(|i| i as u8);
    let expected = [0xf3, 0xf3, 0xf3, 0x0f, 0x08, 0x09, 0xf6, 0xf0, 0xfe, 0x00, 0x05, 0x0a, 0xf3];
    let mut out = [0u8; 13];
    b.encrypt_cfb_n(&text, [11, 12, 13, 14], &mut out, 24);
    assert_eq!(out, expected);
    let mut narrow = [0u8; 13];
    b.encrypt_cfb_n(&text, [11, 12, 13, 14], &mut narrow, 8);
    assert_eq!(narrow, expected);
}

#[test]
fn tester_cfb_n_round_trip_for_each_width() {
    let b = BlockCipherTester;
    let text: [u8; 23] = array::from_fn(|i| (7 * i + 3) as u8);
    for n in [8usize, 16, 24, 32] {
        let mut out = [0u8; 23];
        let mut back = [0u8; 23];
        b.encrypt_cfb_n(&text, [9, 8, 7, 6], &mut out, n);
        b.decrypt_cfb_n(&out, [9, 8, 7, 6], &mut back, n);
        assert_eq!(back, text);
        assert_ne!(out, text);
    }
}

#[test]
fn tester_ctr_exact() {
    let b = BlockCipherTester;
    let text: [u8; 20] = array::from_fn(|i| i as u8);
    let mut out = [0u8; 20];
    b.encrypt_ctr(&text, &[11, 12, 13], &mut out);
    assert_eq!(
        out,
        [
            0xf3, 0xf3, 0xfd, 0xf7, 0xf7, 0xf7, 0xf8, 0xf3, 0xfb, 0xfb, 0xf7, 0xff, 0xff, 0xff,
            0xf2, 0xfb, 0xe3, 0xe3, 0xe9, 0xe7
        ]
    );
    let mut short = [0u8; 10];
    b.encrypt_ctr(&text[..10], &[7], &mut short);
    assert_eq!(short, [0xff, 0xfe, 0xfd, 0xfb, 0xfb, 0xfa, 0xf8, 0xff, 0xf7, 0xf6]);
}

#[test]
fn ctr_is_deterministic() {
    let b = BlockCipherTester;
    let text: [u8; 20] = array::from_fn(|i| (i * i) as u8);
    let mut first = [0u8; 20];
    let mut second = [1u8; 20];
    b.encrypt_ctr(&text, &[1, 2], &mut first);
    b.encrypt_ctr(&text, &[1, 2], &mut second);
    assert_eq!(first, second);
}

#[test]
fn ctr_uses_every_counter_value_of_a_one_byte_counter() {
    let b = BlockCipherTester;
    let text = [0u8; 4 * 255];
    let mut out = [0u8; 4 * 255];
    b.encrypt_ctr(&text, &[1, 2, 3], &mut out);
    assert_eq!(&out[..4], &[0xfd, 0xfc, 0xff, 0xfe]);
    assert_eq!(&out[4 * 254..], &[0xfd, 0xfc, 0x01, 0xfe]);
}

#[test]
fn modes_accept_an_empty_text() {
    let b = BlockCipherTester;
    let mut out: [u8; 0] = [];
    b.encrypt_ofb(&[], [1, 2, 3, 4], &mut out);
    b.encrypt_cfb(&[], [1, 2, 3, 4], &mut out);
    b.decrypt_cfb_n(&[], [1, 2, 3, 4], &mut out, 16);
    b.encrypt_ctr(&[], &[1], &mut out);
    assert_eq!(out.len(), 0);
}

#[test]
fn aes_ecb_vector() {
    let a = sample_aes();
    let text = sample_text();
    let mut out = vec![0u8; 32];
    a.encrypt_ecb(&text, &mut out);
    assert_eq!(out, unhex("3ad77bb40d7a3660a89ecaf32466ef97f5d3d58503b9699de785895a96fdbaaf"));
    let mut back = vec![0u8; 32];
    a.decrypt_ecb(&out, &mut back);
    assert_eq!(back, text);
}

#[test]
fn aes_cbc_vector() {
    let a = sample_aes();
    let text = sample_text();
    let mut out = vec![0u8; 32];
    a.encrypt_cbc(&text, sample_iv(), &mut out);
    assert_eq!(out, unhex("7649abac8119b246cee98e9b12e9197d5086cb9b507219ee95db113a917678b2"));
    let mut back = vec![0u8; 32];
    a.decrypt_cbc(&out, sample_iv(), &mut back);
    assert_eq!(back, text);
}

#[test]
fn aes_ofb_vector() {
    let a = sample_aes();
    let text = sample_text();
    let mut out = vec![0u8; 32];
    a.encrypt_ofb(&text, sample_iv(), &mut out);
    assert_eq!(out, unhex("3b3fd92eb72dad20333449f8e83cfb4a7789508d16918f03f53c52dac54ed825"));
    let mut back = vec![0u8; 32];
    a.decrypt_ofb(&out, sample_iv(), &mut back);
    assert_eq!(back, text);
}

#[test]
fn aes_cfb_vectors() {
    let a = sample_aes();
    let text = sample_text();
    let mut out = vec![0u8; 32];
    a.encrypt_cfb(&text, sample_iv(), &mut out);
    assert_eq!(out, unhex("3b3fd92eb72dad20333449f8e83cfb4ac8a64537a0b3a93fcde3cdad9f1ce58b"));
    let mut back = vec![0u8; 32];
    a.decrypt_cfb(&out, sample_iv(), &mut back);
    assert_eq!(back, text);

    let mut narrow = vec![0u8; 18];
    a.encrypt_cfb_n(&text[..18], sample_iv(), &mut narrow, 8);
    assert_eq!(narrow, unhex("3b79424c9c0dd436bace9e0ed4586a4f32b9"));
    let mut narrow_back = vec![0u8; 18];
    a.decrypt_cfb_n(&narrow, sample_iv(), &mut narrow_back, 8);
    assert_eq!(narrow_back, &text[..18]);
}

#[test]
fn aes_ctr_vector() {
    let a = sample_aes();
    let text = sample_text();
    let nonce = unhex("f0f1f2f3f4f5f6f7f8f9fafb");
    let mut out = vec![0u8; 20];
    a.encrypt_ctr(&text[..20], &nonce, &mut out);
    assert_eq!(out, unhex("22e52fb177d865b2f7c6b512692d114ded6c1c72"));
    let mut back = vec![0u8; 20];
    a.decrypt_ctr(&out, &nonce, &mut back);
    assert_eq!(back, &text[..20]);
}

#[test]
fn block_helpers() {
    let src: [u8; 10] = array::from_fn(|i| (10 + i) as u8);
    let b: [u8; 4] = read_block::<4>(&src, 3);
    assert_eq!(b, [13, 14, 15, 16]);
    assert_eq!(xor_block::<4>(&b, &[1, 2, 3, 4]), [12, 12, 12, 20]);
    let mut dst = [0u8; 8];
    write_block::<4>(&mut dst, 2, &b);
    assert_eq!(dst, [0, 0, 13, 14, 15, 16, 0, 0]);
}

/// A cipher written outside the library: it gives the modes its two block
/// operations and nothing else.
struct Shuffle(u8);

impl BlockCipher<8> for Shuffle {
    fn _encrypt(&self, in_bytes: [u8; 8]) -> [u8; 8] {
        array::from_fn(|i| in_bytes[(i + 3) % 8].wrapping_add(self.0).rotate_left(3))
    }

    fn _decrypt(&self, in_bytes: [u8; 8]) -> [u8; 8] {
        array::from_fn(|i| in_bytes[(i + 5) % 8].rotate_right(3).wrapping_sub(self.0))
    }
}

#[test]
fn modes_run_on_a_cipher_from_outside() {
    let c = Shuffle(0x5a);
    let block: [u8; 8] = array::from_fn(|i| (11 * i + 1) as u8);
    assert_eq!(c._decrypt(c._encrypt(block)), block);

    let text: [u8; 24] = array::from_fn(|i| (5 * i + 2) as u8);
    let iv = [8, 7, 6, 5, 4, 3, 2, 1];
    let mut out = [0u8; 24];
    let mut back = [0u8; 24];

    c.encrypt_ecb(&text, &mut out);
    assert_eq!(&out[..8], &c._encrypt(text[..8].try_into().unwrap()));
    c.decrypt_ecb(&out, &mut back);
    assert_eq!(back, text);

    c.encrypt_cbc(&text, iv, &mut out);
    c.decrypt_cbc(&out, iv, &mut back);
    assert_eq!(back, text);

    let short = &text[..19];
    let mut out = [0u8; 19];
    let mut back = [0u8; 19];
    c.encrypt_ofb(short, iv, &mut out);
    c.decrypt_ofb(&out, iv, &mut back);
    assert_eq!(&back, short);
    c.encrypt_cfb(short, iv, &mut out);
    c.decrypt_cfb(&out, iv, &mut back);
    assert_eq!(&back, short);
    c.encrypt_cfb_n(short, iv, &mut out, 40);
    c.decrypt_cfb_n(&out, iv, &mut back, 40);
    assert_eq!(&back, short);
    c.encrypt_ctr(short, &[1, 2, 3, 4, 5], &mut out);
    assert_eq!(out[0], short[0] ^ c._encrypt([1, 2, 3, 4, 5, 0, 0, 0])[0]);
    assert_eq!(out[8], short[8] ^ c._encrypt([1, 2, 3, 4, 5, 0, 0, 1])[0]);
    c.decrypt_ctr(&out, &[1, 2, 3, 4, 5], &mut back);
    assert_eq!(&back, short);
}
