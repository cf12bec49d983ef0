use aes_cipher::gf256::mul;
use aes_cipher::tables::{INV_S_BOX, RC, S_BOX};

#[test]
fn mul_known_products() {
    assert_eq!(mul(0x57, 0x83), 0xc1);
    assert_eq!(mul(0x57, 0x13), 0xfe);
    assert_eq!(mul(3, 0xff), 0x1a);
    assert_eq!(mul(2, 0x80), 0x1b);
    assert_eq!(mul(0x53, 0xca), 1);
}

#[test]
fn mul_has_zero_and_one() {
    for a in 0u8..=255 {
        assert_eq!(mul(a, 0), 0);
        assert_eq!(mul(0, a), 0);
        assert_eq!(mul(a, 1), a);
        assert_eq!(mul(1, a), a);
    }
}

#[test]
fn mul_is_commutative_and_distributes_over_xor() {
    for a in 0u8..=255 {
        for b in 0u8..=255 {
            assert_eq!(mul(a, b), mul(b, a));
            assert_eq!(mul(a, b ^ 0x35), mul(a, b) ^ mul(a, 0x35));
        }
    }
}

#[test]
fn every_nonzero_element_has_one_inverse() {
    for a in 1u8..=255 {
        let inverses: Vec<u8> = (0u8..=255).filter(|&b| mul(a, b) == 1).collect();
        assert_eq!(inverses.len(), 1);
        let mut p = a;
        for _ in 0..253 {
            p = mul(p, a);
        }
        assert_eq!(p, inverses[0]);
        assert_eq!(mul(a, p), 1);
    }
}

#[test]
fn three_generates_the_nonzero_elements() {
    let mut seen = [false; 256];
    let mut v = 1u8;
    for _ in 0..255 {
        assert!(!seen[v as usize]);
        seen[v as usize] = true;
        v = mul(3, v);
    }
    assert_eq!(v, 1);
    assert!(!seen[0]);
}

#[test]
fn s_box_known_entries() {
    assert_eq!(S_BOX[0], 0x63);
    assert_eq!(S_BOX[1], 0x7c);
    assert_eq!(S_BOX[0x53], 0xed);
    assert_eq!(INV_S_BOX[0x63], 0);
    assert_eq!(INV_S_BOX[0xed], 0x53);
}

#[test]
fn s_box_is_derived_from_the_generator_three() {
    let mut exp = [0u8; 256];
    let mut log = [0u8; 256];
    let mut v = 1u8;
    for i in 0..256 {
        exp[i] = v;
        log[v as usize] = i as u8;
        v = mul(3, v);
    }
    assert_eq!(S_BOX[0], 0x63);
    for i in 1..256 {
        let inv = exp[255 - log[i] as usize];
        assert_eq!(mul(i as u8, inv), 1);
        let s = inv
            ^ inv.rotate_left(1)
            ^ inv.rotate_left(2)
            ^ inv.rotate_left(3)
            ^ inv.rotate_left(4)
            ^ 0x63;
        assert_eq!(S_BOX[i], s);
    }
}

#[test]
fn inv_s_box_inverts_s_box() {
    for i in 0..256 {
        assert_eq!(INV_S_BOX[S_BOX[i] as usize] as usize, i);
        assert_eq!(S_BOX[INV_S_BOX[i] as usize] as usize, i);
    }
}

#[test]
fn round_constants() {
    assert_eq!(RC, [0x01, 0x02, 0x04, 0x08, 0x10, 0x20, 0x40, 0x80, 0x1b, 0x36]);
    for j in 1..10 {
        assert_eq!(RC[j], mul(RC[j - 1], 2));
    }
}
