//! The constant tables of AES: the substitution table, its inverse and the
//! round constants of the key schedule, each with the proof that it holds the
//! values that its definition in GF(2^8) gives.

use vstd::prelude::*;
use crate::gf256::{gf_inv, gf_inv_by_log, gf_mul, lemma_gf_inv_by_log};

verus! {

/// The substitution table: entry `i` is the affine image of the inverse of `i`.
pub const S_BOX: [u8; 256] = [
    0x63, 0x7c, 0x77, 0x7b, 0xf2, 0x6b, 0x6f, 0xc5, 0x30, 0x01, 0x67, 0x2b, 0xfe, 0xd7, 0xab, 0x76,
    0xca, 0x82, 0xc9, 0x7d, 0xfa, 0x59, 0x47, 0xf0, 0xad, 0xd4, 0xa2, 0xaf, 0x9c, 0xa4, 0x72, 0xc0,
    0xb7, 0xfd, 0x93, 0x26, 0x36, 0x3f, 0xf7, 0xcc, 0x34, 0xa5, 0xe5, 0xf1, 0x71, 0xd8, 0x31, 0x15,
    0x04, 0xc7, 0x23, 0xc3, 0x18, 0x96, 0x05, 0x9a, 0x07, 0x12, 0x80, 0xe2, 0xeb, 0x27, 0xb2, 0x75,
    0x09, 0x83, 0x2c, 0x1a, 0x1b, 0x6e, 0x5a, 0xa0, 0x52, 0x3b, 0xd6, 0xb3, 0x29, 0xe3, 0x2f, 0x84,
    0x53, 0xd1, 0x00, 0xed, 0x20, 0xfc, 0xb1, 0x5b, 0x6a, 0xcb, 0xbe, 0x39, 0x4a, 0x4c, 0x58, 0xcf,
    0xd0, 0xef, 0xaa, 0xfb, 0x43, 0x4d, 0x33, 0x85, 0x45, 0xf9, 0x02, 0x7f, 0x50, 0x3c, 0x9f, 0xa8,
    0x51, 0xa3, 0x40, 0x8f, 0x92, 0x9d, 0x38, 0xf5, 0xbc, 0xb6, 0xda, 0x21, 0x10, 0xff, 0xf3, 0xd2,
    0xcd, 0x0c, 0x13, 0xec, 0x5f, 0x97, 0x44, 0x17, 0xc4, 0xa7, 0x7e, 0x3d, 0x64, 0x5d, 0x19, 0x73,
    0x60, 0x81, 0x4f, 0xdc, 0x22, 0x2a, 0x90, 0x88, 0x46, 0xee, 0xb8, 0x14, 0xde, 0x5e, 0x0b, 0xdb,
    0xe0, 0x32, 0x3a, 0x0a, 0x49, 0x06, 0x24, 0x5c, 0xc2, 0xd3, 0xac, 0x62, 0x91, 0x95, 0xe4, 0x79,
    0xe7, 0xc8, 0x37, 0x6d, 0x8d, 0xd5, 0x4e, 0xa9, 0x6c, 0x56, 0xf4, 0xea, 0x65, 0x7a, 0xae, 0x08,
    0xba, 0x78, 0x25, 0x2e, 0x1c, 0xa6, 0xb4, 0xc6, 0xe8, 0xdd, 0x74, 0x1f, 0x4b, 0xbd, 0x8b, 0x8a,
    0x70, 0x3e, 0xb5, 0x66, 0x48, 0x03, 0xf6, 0x0e, 0x61, 0x35, 0x57, 0xb9, 0x86, 0xc1, 0x1d, 0x9e,
    0xe1, 0xf8, 0x98, 0x11, 0x69, 0xd9, 0x8e, 0x94, 0x9b, 0x1e, 0x87, 0xe9, 0xce, 0x55, 0x28, 0xdf,
    0x8c, 0xa1, 0x89, 0x0d, 0xbf, 0xe6, 0x42, 0x68, 0x41, 0x99, 0x2d, 0x0f, 0xb0, 0x54, 0xbb, 0x16,
];

/// The inverse substitution table: the inverse permutation of `S_BOX`.
pub const INV_S_BOX: [u8; 256] = [
    0x52, 0x09, 0x6a, 0xd5, 0x30, 0x36, 0xa5, 0x38, 0xbf, 0x40, 0xa3, 0x9e, 0x81, 0xf3, 0xd7, 0xfb,
    0x7c, 0xe3, 0x39, 0x82, 0x9b, 0x2f, 0xff, 0x87, 0x34, 0x8e, 0x43, 0x44, 0xc4, 0xde, 0xe9, 0xcb,
    0x54, 0x7b, 0x94, 0x32, 0xa6, 0xc2, 0x23, 0x3d, 0xee, 0x4c, 0x95, 0x0b, 0x42, 0xfa, 0xc3, 0x4e,
    0x08, 0x2e, 0xa1, 0x66, 0x28, 0xd9, 0x24, 0xb2, 0x76, 0x5b, 0xa2, 0x49, 0x6d, 0x8b, 0xd1, 0x25,
    0x72, 0xf8, 0xf6, 0x64, 0x86, 0x68, 0x98, 0x16, 0xd4, 0xa4, 0x5c, 0xcc, 0x5d, 0x65, 0xb6, 0x92,
    0x6c, 0x70, 0x48, 0x50, 0xfd, 0xed, 0xb9, 0xda, 0x5e, 0x15, 0x46, 0x57, 0xa7, 0x8d, 0x9d, 0x84,
    0x90, 0xd8, 0xab, 0x00, 0x8c, 0xbc, 0xd3, 0x0a, 0xf7, 0xe4, 0x58, 0x05, 0xb8, 0xb3, 0x45, 0x06,
    0xd0, 0x2c, 0x1e, 0x8f, 0xca, 0x3f, 0x0f, 0x02, 0xc1, 0xaf, 0xbd, 0x03, 0x01, 0x13, 0x8a, 0x6b,
    0x3a, 0x91, 0x11, 0x41, 0x4f, 0x67, 0xdc, 0xea, 0x97, 0xf2, 0xcf, 0xce, 0xf0, 0xb4, 0xe6, 0x73,
    0x96, 0xac, 0x74, 0x22, 0xe7, 0xad, 0x35, 0x85, 0xe2, 0xf9, 0x37, 0xe8, 0x1c, 0x75, 0xdf, 0x6e,
    0x47, 0xf1, 0x1a, 0x71, 0x1d, 0x29, 0xc5, 0x89, 0x6f, 0xb7, 0x62, 0x0e, 0xaa, 0x18, 0xbe, 0x1b,
    0xfc, 0x56, 0x3e, 0x4b, 0xc6, 0xd2, 0x79, 0x20, 0x9a, 0xdb, 0xc0, 0xfe, 0x78, 0xcd, 0x5a, 0xf4,
    0x1f, 0xdd, 0xa8, 0x33, 0x88, 0x07, 0xc7, 0x31, 0xb1, 0x12, 0x10, 0x59, 0x27, 0x80, 0xec, 0x5f,
    0x60, 0x51, 0x7f, 0xa9, 0x19, 0xb5, 0x4a, 0x0d, 0x2d, 0xe5, 0x7a, 0x9f, 0x93, 0xc9, 0x9c, 0xef,
    0xa0, 0xe0, 0x3b, 0x4d, 0xae, 0x2a, 0xf5, 0xb0, 0xc8, 0xeb, 0xbb, 0x3c, 0x83, 0x53, 0x99, 0x61,
    0x17, 0x2b, 0x04, 0x7e, 0xba, 0x77, 0xd6, 0x26, 0xe1, 0x69, 0x14, 0x63, 0x55, 0x21, 0x0c, 0x7d,
];

/// The round constants: the powers of `x` in GF(2^8), from `x^0`.
pub const RC: [u8; 10] = [
    0x01, 0x02, 0x04, 0x08, 0x10, 0x20, 0x40, 0x80, 0x1b, 0x36,
];

/// `v` rotated left by `k` bits, for `0 < k < 8`.
pub open spec fn rotl8(v: u8, k: u8) -> u8 {
    (v << k) | (v >> ((8 - k) as u8))
}

/// The affine map over GF(2) that follows the inversion in the substitution.
pub open spec fn affine(v: u8) -> u8 {
    v ^ rotl8(v, 1) ^ rotl8(v, 2) ^ rotl8(v, 3) ^ rotl8(v, 4) ^ 0x63
}

/// The substitution of one byte: inversion in GF(2^8), then the affine map.
#[verifier::opaque]
pub open spec fn s_box_of(i: u8) -> u8 {
    affine(gf_inv(i))
}

/// The entries 0x00 to 0x3f of `S_BOX`, each held against the substitution
/// of its index.
proof fn lemma_s_box_quarter_0()
    ensures
        forall|i: u8| 0x00 <= i <= 0x3f ==> S_BOX[i as int] == #[trigger] s_box_of(i),
{
    assert(s_box_of(0x00) == 0x63 && s_box_of(0x01) == 0x7c && s_box_of(0x02) == 0x77
        && s_box_of(0x03) == 0x7b && s_box_of(0x04) == 0xf2 && s_box_of(0x05) == 0x6b
        && s_box_of(0x06) == 0x6f && s_box_of(0x07) == 0xc5 && s_box_of(0x08) == 0x30
        && s_box_of(0x09) == 0x01 && s_box_of(0x0a) == 0x67 && s_box_of(0x0b) == 0x2b
        && s_box_of(0x0c) == 0xfe && s_box_of(0x0d) == 0xd7 && s_box_of(0x0e) == 0xab
        && s_box_of(0x0f) == 0x76 && s_box_of(0x10) == 0xca && s_box_of(0x11) == 0x82
        && s_box_of(0x12) == 0xc9 && s_box_of(0x13) == 0x7d && s_box_of(0x14) == 0xfa
        && s_box_of(0x15) == 0x59 && s_box_of(0x16) == 0x47 && s_box_of(0x17) == 0xf0
        && s_box_of(0x18) == 0xad && s_box_of(0x19) == 0xd4 && s_box_of(0x1a) == 0xa2
        && s_box_of(0x1b) == 0xaf && s_box_of(0x1c) == 0x9c && s_box_of(0x1d) == 0xa4
        && s_box_of(0x1e) == 0x72 && s_box_of(0x1f) == 0xc0 && s_box_of(0x20) == 0xb7
        && s_box_of(0x21) == 0xfd && s_box_of(0x22) == 0x93 && s_box_of(0x23) == 0x26
        && s_box_of(0x24) == 0x36 && s_box_of(0x25) == 0x3f && s_box_of(0x26) == 0xf7
        && s_box_of(0x27) == 0xcc && s_box_of(0x28) == 0x34 && s_box_of(0x29) == 0xa5
        && s_box_of(0x2a) == 0xe5 && s_box_of(0x2b) == 0xf1 && s_box_of(0x2c) == 0x71
        && s_box_of(0x2d) == 0xd8 && s_box_of(0x2e) == 0x31 && s_box_of(0x2f) == 0x15
        && s_box_of(0x30) == 0x04 && s_box_of(0x31) == 0xc7 && s_box_of(0x32) == 0x23
        && s_box_of(0x33) == 0xc3 && s_box_of(0x34) == 0x18 && s_box_of(0x35) == 0x96
        && s_box_of(0x36) == 0x05 && s_box_of(0x37) == 0x9a && s_box_of(0x38) == 0x07
        && s_box_of(0x39) == 0x12 && s_box_of(0x3a) == 0x80 && s_box_of(0x3b) == 0xe2
        && s_box_of(0x3c) == 0xeb && s_box_of(0x3d) == 0x27 && s_box_of(0x3e) == 0xb2
        && s_box_of(0x3f) == 0x75) by (bit_vector);
}

/// The entries 0x40 to 0x7f of `S_BOX`, each held against the substitution
/// of its index.
proof fn lemma_s_box_quarter_1()
    ensures
        forall|i: u8| 0x40 <= i <= 0x7f ==> S_BOX[i as int] == #[trigger] s_box_of(i),
{
    assert(s_box_of(0x40) == 0x09 && s_box_of(0x41) == 0x83 && s_box_of(0x42) == 0x2c
        && s_box_of(0x43) == 0x1a && s_box_of(0x44) == 0x1b && s_box_of(0x45) == 0x6e
        && s_box_of(0x46) == 0x5a && s_box_of(0x47) == 0xa0 && s_box_of(0x48) == 0x52
        && s_box_of(0x49) == 0x3b && s_box_of(0x4a) == 0xd6 && s_box_of(0x4b) == 0xb3
        && s_box_of(0x4c) == 0x29 && s_box_of(0x4d) == 0xe3 && s_box_of(0x4e) == 0x2f
        && s_box_of(0x4f) == 0x84 && s_box_of(0x50) == 0x53 && s_box_of(0x51) == 0xd1
        && s_box_of(0x52) == 0x00 && s_box_of(0x53) == 0xed && s_box_of(0x54) == 0x20
        && s_box_of(0x55) == 0xfc && s_box_of(0x56) == 0xb1 && s_box_of(0x57) == 0x5b
        && s_box_of(0x58) == 0x6a && s_box_of(0x59) == 0xcb && s_box_of(0x5a) == 0xbe
        && s_box_of(0x5b) == 0x39 && s_box_of(0x5c) == 0x4a && s_box_of(0x5d) == 0x4c
        && s_box_of(0x5e) == 0x58 && s_box_of(0x5f) == 0xcf && s_box_of(0x60) == 0xd0
        && s_box_of(0x61) == 0xef && s_box_of(0x62) == 0xaa && s_box_of(0x63) == 0xfb
        && s_box_of(0x64) == 0x43 && s_box_of(0x65) == 0x4d && s_box_of(0x66) == 0x33
        && s_box_of(0x67) == 0x85 && s_box_of(0x68) == 0x45 && s_box_of(0x69) == 0xf9
        && s_box_of(0x6a) == 0x02 && s_box_of(0x6b) == 0x7f && s_box_of(0x6c) == 0x50
        && s_box_of(0x6d) == 0x3c && s_box_of(0x6e) == 0x9f && s_box_of(0x6f) == 0xa8
        && s_box_of(0x70) == 0x51 && s_box_of(0x71) == 0xa3 && s_box_of(0x72) == 0x40
        && s_box_of(0x73) == 0x8f && s_box_of(0x74) == 0x92 && s_box_of(0x75) == 0x9d
        && s_box_of(0x76) == 0x38 && s_box_of(0x77) == 0xf5 && s_box_of(0x78) == 0xbc
        && s_box_of(0x79) == 0xb6 && s_box_of(0x7a) == 0xda && s_box_of(0x7b) == 0x21
        && s_box_of(0x7c) == 0x10 && s_box_of(0x7d) == 0xff && s_box_of(0x7e) == 0xf3
        && s_box_of(0x7f) == 0xd2) by (bit_vector);
}

/// The entries 0x80 to 0xbf of `S_BOX`, each held against the substitution
/// of its index.
proof fn lemma_s_box_quarter_2()
    ensures
        forall|i: u8| 0x80 <= i <= 0xbf ==> S_BOX[i as int] == #[trigger] s_box_of(i),
{
    assert(s_box_of(0x80) == 0xcd && s_box_of(0x81) == 0x0c && s_box_of(0x82) == 0x13
        && s_box_of(0x83) == 0xec && s_box_of(0x84) == 0x5f && s_box_of(0x85) == 0x97
        && s_box_of(0x86) == 0x44 && s_box_of(0x87) == 0x17 && s_box_of(0x88) == 0xc4
        && s_box_of(0x89) == 0xa7 && s_box_of(0x8a) == 0x7e && s_box_of(0x8b) == 0x3d
        && s_box_of(0x8c) == 0x64 && s_box_of(0x8d) == 0x5d && s_box_of(0x8e) == 0x19
        && s_box_of(0x8f) == 0x73 && s_box_of(0x90) == 0x60 && s_box_of(0x91) == 0x81
        && s_box_of(0x92) == 0x4f && s_box_of(0x93) == 0xdc && s_box_of(0x94) == 0x22
        && s_box_of(0x95) == 0x2a && s_box_of(0x96) == 0x90 && s_box_of(0x97) == 0x88
        && s_box_of(0x98) == 0x46 && s_box_of(0x99) == 0xee && s_box_of(0x9a) == 0xb8
        && s_box_of(0x9b) == 0x14 && s_box_of(0x9c) == 0xde && s_box_of(0x9d) == 0x5e
        && s_box_of(0x9e) == 0x0b && s_box_of(0x9f) == 0xdb && s_box_of(0xa0) == 0xe0
        && s_box_of(0xa1) == 0x32 && s_box_of(0xa2) == 0x3a && s_box_of(0xa3) == 0x0a
        && s_box_of(0xa4) == 0x49 && s_box_of(0xa5) == 0x06 && s_box_of(0xa6) == 0x24
        && s_box_of(0xa7) == 0x5c && s_box_of(0xa8) == 0xc2 && s_box_of(0xa9) == 0xd3
        && s_box_of(0xaa) == 0xac && s_box_of(0xab) == 0x62 && s_box_of(0xac) == 0x91
        && s_box_of(0xad) == 0x95 && s_box_of(0xae) == 0xe4 && s_box_of(0xaf) == 0x79
        && s_box_of(0xb0) == 0xe7 && s_box_of(0xb1) == 0xc8 && s_box_of(0xb2) == 0x37
        && s_box_of(0xb3) == 0x6d && s_box_of(0xb4) == 0x8d && s_box_of(0xb5) == 0xd5
        && s_box_of(0xb6) == 0x4e && s_box_of(0xb7) == 0xa9 && s_box_of(0xb8) == 0x6c
        && s_box_of(0xb9) == 0x56 && s_box_of(0xba) == 0xf4 && s_box_of(0xbb) == 0xea
        && s_box_of(0xbc) == 0x65 && s_box_of(0xbd) == 0x7a && s_box_of(0xbe) == 0xae
        && s_box_of(0xbf) == 0x08) by (bit_vector);
}

/// The entries 0xc0 to 0xff of `S_BOX`, each held against the substitution
/// of its index.
proof fn lemma_s_box_quarter_3()
    ensures
        forall|i: u8| 0xc0 <= i <= 0xff ==> S_BOX[i as int] == #[trigger] s_box_of(i),
{
    assert(s_box_of(0xc0) == 0xba && s_box_of(0xc1) == 0x78 && s_box_of(0xc2) == 0x25
        && s_box_of(0xc3) == 0x2e && s_box_of(0xc4) == 0x1c && s_box_of(0xc5) == 0xa6
        && s_box_of(0xc6) == 0xb4 && s_box_of(0xc7) == 0xc6 && s_box_of(0xc8) == 0xe8
        && s_box_of(0xc9) == 0xdd && s_box_of(0xca) == 0x74 && s_box_of(0xcb) == 0x1f
        && s_box_of(0xcc) == 0x4b && s_box_of(0xcd) == 0xbd && s_box_of(0xce) == 0x8b
        && s_box_of(0xcf) == 0x8a && s_box_of(0xd0) == 0x70 && s_box_of(0xd1) == 0x3e
        && s_box_of(0xd2) == 0xb5 && s_box_of(0xd3) == 0x66 && s_box_of(0xd4) == 0x48
        && s_box_of(0xd5) == 0x03 && s_box_of(0xd6) == 0xf6 && s_box_of(0xd7) == 0x0e
        && s_box_of(0xd8) == 0x61 && s_box_of(0xd9) == 0x35 && s_box_of(0xda) == 0x57
        && s_box_of(0xdb) == 0xb9 && s_box_of(0xdc) == 0x86 && s_box_of(0xdd) == 0xc1
        && s_box_of(0xde) == 0x1d && s_box_of(0xdf) == 0x9e && s_box_of(0xe0) == 0xe1
        && s_box_of(0xe1) == 0xf8 && s_box_of(0xe2) == 0x98 && s_box_of(0xe3) == 0x11
        && s_box_of(0xe4) == 0x69 && s_box_of(0xe5) == 0xd9 && s_box_of(0xe6) == 0x8e
        && s_box_of(0xe7) == 0x94 && s_box_of(0xe8) == 0x9b && s_box_of(0xe9) == 0x1e
        && s_box_of(0xea) == 0x87 && s_box_of(0xeb) == 0xe9 && s_box_of(0xec) == 0xce
        && s_box_of(0xed) == 0x55 && s_box_of(0xee) == 0x28 && s_box_of(0xef) == 0xdf
        && s_box_of(0xf0) == 0x8c && s_box_of(0xf1) == 0xa1 && s_box_of(0xf2) == 0x89
        && s_box_of(0xf3) == 0x0d && s_box_of(0xf4) == 0xbf && s_box_of(0xf5) == 0xe6
        && s_box_of(0xf6) == 0x42 && s_box_of(0xf7) == 0x68 && s_box_of(0xf8) == 0x41
        && s_box_of(0xf9) == 0x99 && s_box_of(0xfa) == 0x2d && s_box_of(0xfb) == 0x0f
        && s_box_of(0xfc) == 0xb0 && s_box_of(0xfd) == 0x54 && s_box_of(0xfe) == 0xbb
        && s_box_of(0xff) == 0x16) by (bit_vector);
}

/// Every entry of `S_BOX` is the substitution of its index.
pub proof fn lemma_s_box_derivation()
    ensures
        forall|i: u8| S_BOX[i as int] == #[trigger] s_box_of(i),
{
    lemma_s_box_quarter_0();
    lemma_s_box_quarter_1();
    lemma_s_box_quarter_2();
    lemma_s_box_quarter_3();
}

/// The table as it is built from the powers of 3: the entry of 0 is 0x63,
/// and the entry of a nonzero `i` is the affine image of the inverse that the
/// logarithm of `i` gives.
pub proof fn lemma_s_box_by_log()
    ensures
        S_BOX[0] == 0x63,
        forall|i: u8| i != 0 ==> #[trigger] S_BOX[i as int] == affine(gf_inv_by_log(i)),
{
    lemma_s_box_derivation();
    assert forall|i: u8| i != 0 implies #[trigger] S_BOX[i as int] == affine(gf_inv_by_log(i)) by {
        lemma_gf_inv_by_log(i);
        assert(S_BOX[i as int] == s_box_of(i));
        reveal(s_box_of);
    }
}

/// `INV_S_BOX` undoes `S_BOX`, and `S_BOX` undoes `INV_S_BOX`: the two tables
/// are permutations of the bytes, each the inverse of the other.
pub proof fn lemma_inv_s_box()
    ensures
        forall|i: u8| INV_S_BOX[#[trigger] S_BOX[i as int] as int] == i,
        forall|i: u8| S_BOX[#[trigger] INV_S_BOX[i as int] as int] == i,
{
}

/// The round constants start at 1, and each is the double of the one before.
pub proof fn lemma_round_constants()
    ensures
        RC[0] == 1,
        forall|j: int| 1 <= j < 10 ==> #[trigger] RC[j] == gf_mul(2, RC[j - 1]),
{
    assert(gf_mul(2, 0x01) == 0x02 && gf_mul(2, 0x02) == 0x04 && gf_mul(2, 0x04) == 0x08
        && gf_mul(2, 0x08) == 0x10 && gf_mul(2, 0x10) == 0x20 && gf_mul(2, 0x20) == 0x40
        && gf_mul(2, 0x40) == 0x80 && gf_mul(2, 0x80) == 0x1b && gf_mul(2, 0x1b) == 0x36) by (bit_vector);
}

} // verus!
