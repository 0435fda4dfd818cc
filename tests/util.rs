use ballmaker::util::is_power_of_2;

#[test]
fn powers_of_two() {
    for k in 0..usize::BITS {
        assert!(is_power_of_2(1usize << k));
    }
}

#[test]
fn not_powers_of_two() {
    for n in [0usize, 3, 5, 6, 7, 12, 100, usize::MAX] {
        assert!(!is_power_of_2(n));
    }
}
