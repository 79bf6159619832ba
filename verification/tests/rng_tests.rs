use dab_core::XorShift64;

#[test]
fn seed_zero_is_usable_and_deterministic() {
    let mut a = XorShift64::new(0);
    let mut b = XorShift64::new(0);
    assert_eq!(a.next_u64(), b.next_u64());
    assert_eq!(a.next_u64(), b.next_u64());
}

#[test]
fn gen_index_stays_in_range() {
    let mut rng = XorShift64::new(1);
    for len in [1usize, 2, 7, 24] {
        for _ in 0..200 {
            let i = rng.gen_index(len);
            assert!(i < len);
        }
    }
}

#[test]
fn xorshift_step_exact_value() {
    // 1 → 1 ^ (1 << 13) = 0x2001; ^ (>> 7) = 0x2001 ^ 0x40 = 0x2041;
    // ^ (<< 17) = 0x2041 ^ 0x4082_0000 = 0x4082_2041.
    let mut rng = XorShift64::new(1);
    assert_eq!(rng.next_u64(), 0x4082_2041);
    // Seed zero is replaced by a fixed nonzero constant.
    let mut z = XorShift64::new(0);
    let mut r = XorShift64::new(0x9E37_79B9_7F4A_7C15);
    assert_eq!(z.next_u64(), r.next_u64());
}

#[test]
fn gen_index_of_one_is_zero() {
    let mut rng = XorShift64::new(77);
    for _ in 0..10 {
        assert_eq!(rng.gen_index(1), 0);
    }
}

#[test]
fn draws_are_never_zero_and_follow_the_seed() {
    let mut a = XorShift64::new(0);
    let mut b = XorShift64::new(0x9E37_79B9_7F4A_7C15);
    let mut c = XorShift64::new(12345);
    let mut d = XorShift64::new(12345);
    for _ in 0..1000 {
        let x = a.next_u64();
        assert_ne!(x, 0);
        assert_eq!(x, b.next_u64());
        let y = c.next_u64();
        assert_ne!(y, 0);
        assert_eq!(y, d.next_u64());
    }
}
