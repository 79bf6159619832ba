use dab_core::{BoxBits, EdgeBits};

#[test]
fn set_get_clear_round_trip() {
    let mut bb = EdgeBits::new();
    assert!(!bb.get(0));
    bb.set(0);
    bb.set(63);
    bb.set(64);
    bb.set(200);
    assert!(bb.get(0));
    assert!(bb.get(63));
    assert!(bb.get(64));
    assert!(bb.get(200));
    assert_eq!(bb.count_ones(), 4);
    bb.clear(64);
    assert!(!bb.get(64));
    assert_eq!(bb.count_ones(), 3);
}

#[test]
fn bitboard_is_copy() {
    fn assert_copy<T: Copy>(_: T) {}
    assert_copy(EdgeBits::new());
    assert_copy(BoxBits::new());
}

#[test]
fn toggle_flips_one_bit() {
    let mut bb = BoxBits::new();
    bb.toggle(70);
    assert!(bb.get(70));
    assert_eq!(bb.count_ones(), 1);
    bb.toggle(70);
    assert!(!bb.get(70));
    assert!(bb.is_empty());
}

#[test]
fn words_round_trip_and_capacity() {
    let bb = EdgeBits::from_words([1, 0, 1 << 3, u64::MAX]);
    assert_eq!(bb.words(), &[1, 0, 1 << 3, u64::MAX]);
    assert!(bb.get(0));
    assert!(bb.get(128 + 3));
    assert!(bb.get(255));
    assert_eq!(bb.count_ones(), 66);
    assert!(!bb.is_empty());
    assert_eq!(EdgeBits::capacity_bits(), 256);
    assert_eq!(BoxBits::capacity_bits(), 128);
    assert_eq!(BoxBits::default(), BoxBits::new());
}
