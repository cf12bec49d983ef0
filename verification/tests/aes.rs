use aes_cipher::aes::{AESBlock, AESkey, Word, AES, INV_MIX, MIX};
use aes_cipher::mode::BlockCipher;

fn unhex(s: &str) -> Vec<u8> {
    let digits: Vec<u8> = s.bytes().map(|c| (c as char).to_digit(16).unwrap() as u8).collect();
    digits.chunks(2).map(|p| p[0] * 16 + p[1]).collect()
}

fn block(s: &str) -> [u8; 16] {
    unhex(s).try_into().unwrap()
}

#[test]
fn shift_rows() {
    let v = AESBlock([0, 1, 2, 3, 4, 5, 6, 7, 8, 9, 10, 11, 12, 13, 14, 15]);
    assert_eq!(v.clone().shift_rows().0, [0, 5, 10, 15, 4, 9, 14, 3, 8, 13, 2, 7, 12, 1, 6, 11]);
    assert_eq!(v.clone().inv_shift_rows().0, [0, 13, 10, 7, 4, 1, 14, 11, 8, 5, 2, 15, 12, 9, 6, 3]);
}

#[test]
fn mix_columns() {
    let v = AESBlock([0xdbu8, 0x13, 0x53, 0x45, 0xf2, 0x0a, 0x22, 0x5c, 0x1, 0x1, 0x1, 0x1, 0x2d, 0x26, 0x31, 0x4c]);
    let ans = AESBlock([0x8eu8, 0x4d, 0xa1, 0xbc, 0x9f, 0xdc, 0x58, 0x9d, 0x1, 0x1, 0x1, 0x1, 0x4d, 0x7e, 0xbd, 0xf8]);
    assert_eq!(v.clone().mix_columns().0, ans.0);
    assert_eq!(ans.clone().inv_mix_columns().0, v.0);
}

#[test]
fn aes_encrypt() {
    let a = AES::new(
        AESkey::K128(*b"!\xf4\x02\xf2[\x1a\x0f\xd7\"\xb81i\xe1\x05\t\xf8")
    );
    assert_eq!(a.encrypt(*b"s\xdf\xffW\xfe$\xe8\x07\xbdO\xb1\xbcN\x07\xcds"), *b"\x9c)\xe4l\xf1\xce\x04\xe8=:k\x16{{\xe1J");

    let b = AES::new(
        AESkey::K192(*b"\x01kG\xc4\xa2XI\nRA\xea\xc9m\xde\x81\xb8\"\xbd \xd5_\xa2A\x0e")
    );
    assert_eq!(b.encrypt(*b"s\xdf\xffW\xfe$\xe8\x07\xbdO\xb1\xbcN\x07\xcds"), *b"\xfa\xe3\xc6v\x8f\x90Xj>Rg,b\x05\xca\xb4");

    let c = AES::new(
        AESkey::K256(*b"\xa8\x19@\x8c\xe5\x01\x0c\xa2\xe0\x9e\xf5\x9a\xc3\xd8\x9f_\xf8Y]\x02\xb5$\xe6\x1b\xf8\xaf\xa8\x94\xa9]YO")
    );
    assert_eq!(c.encrypt(*b"s\xdf\xffW\xfe$\xe8\x07\xbdO\xb1\xbcN\x07\xcds"), *b"e\x13\xa2\xa4\xc7R\xca@3\xc0\xde\xf6\xab:\xe8\xcb");
}

#[test]
fn aes_decrypt() {
    let ans = *b"s\xdf\xffW\xfe$\xe8\x07\xbdO\xb1\xbcN\x07\xcds";
    let a = AES::new(
        AESkey::K128(*b"!\xf4\x02\xf2[\x1a\x0f\xd7\"\xb81i\xe1\x05\t\xf8")
    );
    assert_eq!(a.decrypt(*b"\x9c)\xe4l\xf1\xce\x04\xe8=:k\x16{{\xe1J"), ans);

    let b = AES::new(
        AESkey::K192(*b"\x01kG\xc4\xa2XI\nRA\xea\xc9m\xde\x81\xb8\"\xbd \xd5_\xa2A\x0e")
    );
    assert_eq!(b.decrypt(*b"\xfa\xe3\xc6v\x8f\x90Xj>Rg,b\x05\xca\xb4"), ans);

    let c = AES::new(
        AESkey::K256(*b"\xa8\x19@\x8c\xe5\x01\x0c\xa2\xe0\x9e\xf5\x9a\xc3\xd8\x9f_\xf8Y]\x02\xb5$\xe6\x1b\xf8\xaf\xa8\x94\xa9]YO")
    );
    assert_eq!(c.decrypt(*b"e\x13\xa2\xa4\xc7R\xca@3\xc0\xde\xf6\xab:\xe8\xcb"), ans);
}

#[test]
fn encrypt_matches_the_hex_table() {
    let plain = block("73dfff57fe24e807bd4fb1bc4e07cd73");
    let a = AES::new(AESkey::K128(block("21f402f25b1a0fd722b83169e10509f8")));
    assert_eq!(a.encrypt(plain), block("9c29e46cf1ce04e83d3a6b167b7be14a"));
    let b = AES::new(AESkey::K192(
        unhex("016b47c4a258490a5241eac96dde81b822bd20d55fa2410e").try_into().unwrap(),
    ));
    assert_eq!(b.encrypt(plain), block("fae3c6768f90586a3e52672c6205cab4"));
    let c = AES::new(AESkey::K256(
        unhex("a819408ce5010ca2e09ef59ac3d89f5ff8595d02b524e61bf8afa894a95d594f")
            .try_into()
            .unwrap(),
    ));
    assert_eq!(c.encrypt(plain), block("6513a2a4c752ca4033c0def6ab3ae8cb"));
    assert_eq!(a.decrypt(block("9c29e46cf1ce04e83d3a6b167b7be14a")), plain);
    assert_eq!(b.decrypt(block("fae3c6768f90586a3e52672c6205cab4")), plain);
    assert_eq!(c.decrypt(block("6513a2a4c752ca4033c0def6ab3ae8cb")), plain);
}

#[test]
fn encrypt_standard_vectors() {
    let plain = block("00112233445566778899aabbccddeeff");
    let k128: [u8; 16] = std::array::from_fn(|i| i as u8);
    let k192: [u8; 24] = std::array::from_fn(|i| i as u8);
    let k256: [u8; 32] = std::array::from_fn(|i| i as u8);
    let a = AES::new(AESkey::K128(k128));
    let b = AES::new(AESkey::K192(k192));
    let c = AES::new(AESkey::K256(k256));
    assert_eq!(a.encrypt(plain), block("69c4e0d86a7b0430d8cdb78070b4c55a"));
    assert_eq!(b.encrypt(plain), block("dda97ca4864cdfe06eaf70a0ec0d7191"));
    assert_eq!(c.encrypt(plain), block("8ea2b7ca516745bfeafc49904b496089"));
    assert_eq!(a.decrypt(block("69c4e0d86a7b0430d8cdb78070b4c55a")), plain);
    assert_eq!(b.decrypt(block("dda97ca4864cdfe06eaf70a0ec0d7191")), plain);
    assert_eq!(c.decrypt(block("8ea2b7ca516745bfeafc49904b496089")), plain);
}

#[test]
fn decrypt_undoes_encrypt_for_each_key_width() {
    for seed in 0u8..40 {
        let plain: [u8; 16] = std::array::from_fn(|i| seed.wrapping_mul(31).wrapping_add(7 * i as u8));
        let k128: [u8; 16] = std::array::from_fn(|i| seed.wrapping_add(13 * i as u8));
        let k192: [u8; 24] = std::array::from_fn(|i| seed.wrapping_mul(3).wrapping_add(5 * i as u8));
        let k256: [u8; 32] = std::array::from_fn(|i| seed.wrapping_mul(7).wrapping_add(11 * i as u8));
        let a = AES::new(AESkey::K128(k128));
        let b = AES::new(AESkey::K192(k192));
        let c = AES::new(AESkey::K256(k256));
        assert_eq!(a.decrypt(a.encrypt(plain)), plain);
        assert_eq!(b.decrypt(b.encrypt(plain)), plain);
        assert_eq!(c.decrypt(c.encrypt(plain)), plain);
        assert_ne!(a.encrypt(plain), plain);
    }
}

#[test]
fn key_expansion_gives_the_known_round_keys() {
    let k = AESkey::K128(block("2b7e151628aed2a6abf7158809cf4f3c"));
    let keys = k.key_expansion();
    assert_eq!(keys.len(), 11);
    assert_eq!(keys[0], block("2b7e151628aed2a6abf7158809cf4f3c"));
    assert_eq!(keys[10], block("d014f9a8c9ee2589e13f0cc8b6630ca6"));

    let k128: [u8; 16] = std::array::from_fn(|i| i as u8);
    let keys = AESkey::K128(k128).key_expansion();
    assert_eq!(keys[1], block("d6aa74fdd2af72fadaa678f1d6ab76fe"));
    assert_eq!(keys[10], block("13111d7fe3944a17f307a78b4d2b30c5"));

    let k192: [u8; 24] = std::array::from_fn(|i| i as u8);
    let keys = AESkey::K192(k192).key_expansion();
    assert_eq!(keys.len(), 13);
    assert_eq!(keys[12], block("a4970a331a78dc09c418c271e3a41d5d"));

    let k256: [u8; 32] = std::array::from_fn(|i| i as u8);
    let keys = AESkey::K256(k256).key_expansion();
    assert_eq!(keys.len(), 15);
    assert_eq!(keys[2], block("a573c29fa176c498a97fce93a572c09c"));
    assert_eq!(keys[14], block("24fc79ccbf0979e9371ac23c6d68de36"));
}

#[test]
fn key_expansion_inner_agrees_with_key_expansion() {
    let k192: [u8; 24] = std::array::from_fn(|i| (3 * i + 1) as u8);
    assert_eq!(AESkey::key_expansion_inner(13, &k192, 6), AESkey::K192(k192).key_expansion());
}

#[test]
fn word_operations() {
    let w = Word([0x09, 0xcf, 0x4f, 0x3c]);
    assert_eq!(w.rot().0, [0xcf, 0x4f, 0x3c, 0x09]);
    assert_eq!(w.rot().sub().0, [0x8a, 0x84, 0xeb, 0x01]);
    assert_eq!((w ^ Word([0xff, 0x0f, 0xf0, 0x3c])).0, [0xf6, 0xc0, 0xbf, 0x00]);
}

#[test]
fn block_transforms() {
    let v = AESBlock(block("00102030405060708090a0b0c0d0e0f0"));
    let k = block("000102030405060708090a0b0c0d0e0f");
    assert_eq!(v.add_round_key(k).0, block("00112233445566778899aabbccddeeff"));
    let s = AESBlock(block("00102030405060708090a0b0c0d0e0f0")).sub_bytes();
    assert_eq!(s.0, block("63cab7040953d051cd60e0e7ba70e18c"));
    assert_eq!(s.inv_sub_bytes().0, block("00102030405060708090a0b0c0d0e0f0"));
    let b = AESBlock::from_slice(&k[..]);
    assert_eq!(b.0, k);
    let c: AESBlock = k.into();
    assert_eq!(c.0, k);
    let d: AESBlock = (&k).into();
    assert_eq!(d.0, k);
    assert_eq!(MIX, [2, 3, 1, 1]);
    assert_eq!(INV_MIX, [14, 11, 13, 9]);
}

#[test]
fn inverse_transforms_undo_the_transforms() {
    for seed in 0u8..=255 {
        let v: [u8; 16] = std::array::from_fn(|i| seed.wrapping_mul(17).wrapping_add((29 * i) as u8));
        assert_eq!(AESBlock(v).shift_rows().inv_shift_rows().0, v);
        assert_eq!(AESBlock(v).mix_columns().inv_mix_columns().0, v);
        assert_eq!(AESBlock(v).sub_bytes().inv_sub_bytes().0, v);
        assert_eq!(AESBlock(v).add_round_key(v).0, [0u8; 16]);
    }
}

#[test]
fn aes_is_a_block_cipher_for_the_modes() {
    let a = AES::new(AESkey::K128(block("2b7e151628aed2a6abf7158809cf4f3c")));
    let plain = block("6bc1bee22e409f96e93d7e117393172a");
    assert_eq!(a._encrypt(plain), block("3ad77bb40d7a3660a89ecaf32466ef97"));
    assert_eq!(a._decrypt(block("3ad77bb40d7a3660a89ecaf32466ef97")), plain);
}
