use aes_cipher::aes_ni::CPUID;
use aes_cipher::mode::DefaultCounter;

#[test]
fn counter_starts_at_zero_after_the_nonce() {
    let c: DefaultCounter<6> = DefaultCounter::new(&[9, 8, 7]);
    assert_eq!(c.inner, [9, 8, 7, 0, 0, 0]);
    assert_eq!(c.nonce_len, 3);
    assert!(!c.is_exhausted());
    let d: DefaultCounter<3> = DefaultCounter::new(&[]);
    assert_eq!(d.inner, [0, 0, 0]);
    assert_eq!(d.nonce_len, 0);
}

#[test]
fn counter_counts_with_carry() {
    let mut c: DefaultCounter<5> = DefaultCounter::new(&[1, 2]);
    c.next();
    assert_eq!(c.inner, [1, 2, 0, 0, 1]);
    for _ in 1..255 {
        c.next();
    }
    assert_eq!(c.inner, [1, 2, 0, 0, 255]);
    c.next();
    assert_eq!(c.inner, [1, 2, 0, 1, 0]);
    for _ in 256..65535 {
        c.next();
    }
    assert_eq!(c.inner, [1, 2, 0, 255, 255]);
    c.next();
    assert_eq!(c.inner, [1, 2, 1, 0, 0]);
    assert_eq!(c.nonce_len, 2);
}

#[test]
fn counter_is_exhausted_after_all_but_one_of_its_values() {
    let mut c: DefaultCounter<4> = DefaultCounter::new(&[11, 12, 13]);
    let mut steps = 0;
    while !c.is_exhausted() {
        c.next();
        steps += 1;
    }
    assert_eq!(steps, 255);
    assert_eq!(c.inner, [11, 12, 13, 255]);

    let mut d: DefaultCounter<3> = DefaultCounter::new(&[5]);
    let mut steps = 0;
    while !d.is_exhausted() {
        d.next();
        steps += 1;
    }
    assert_eq!(steps, 65535);
    assert_eq!(d.inner, [5, 255, 255]);
}

#[test]
fn cpuid_reports_the_aes_instructions() {
    let with = CPUID { eax: 0x000906ea, ebx: 0, edx: 0, ecx: 1 << 25 };
    let without = CPUID { eax: 0x000906ea, ebx: u32::MAX, edx: u32::MAX, ecx: !(1 << 25) };
    assert!(with.has_aes());
    assert!(!without.has_aes());
    assert!(CPUID { eax: 0, ebx: 0, edx: 0, ecx: u32::MAX }.has_aes());
}

#[test]
fn cpuid_reports_the_queries_it_answers() {
    let none = CPUID { eax: 0, ebx: 0, edx: 0, ecx: 0 };
    let some = CPUID { eax: 0x16, ebx: 0, edx: 0, ecx: 0 };
    assert!(none.answers(0));
    assert!(!none.answers(1));
    assert!(some.answers(1));
    assert!(some.answers(0x16));
    assert!(!some.answers(0x17));
}
