use jqr::number::{count_bits, HIDDEN_BIT};

#[test]
fn count_bits_is_the_double_of_the_count() {
    let counts: [usize; 14] = [
        0,
        1,
        2,
        3,
        4,
        7,
        10,
        100,
        255,
        256,
        1_000_000,
        4503599627370495,
        4503599627370496,
        9007199254740991,
    ];
    for n in counts {
        assert_eq!(count_bits(n), (n as f64).to_bits());
    }
    assert_eq!(count_bits(3), 0x4008_0000_0000_0000);
    assert_eq!(count_bits(1), 1023 * HIDDEN_BIT);
}

#[test]
fn count_bits_rounds_to_the_nearest_double_ties_to_even() {
    let counts: [u64; 16] = [
        9007199254740992,
        9007199254740993,
        9007199254740994,
        9007199254740995,
        9007199254740996,
        9007199254740997,
        18014398509481983,
        18014398509481984,
        18014398509481985,
        18014398509481986,
        18014398509481987,
        1 << 62,
        (1 << 62) + 1,
        u64::MAX - 1024,
        u64::MAX - 1,
        u64::MAX,
    ];
    for n in counts {
        if let Ok(n) = usize::try_from(n) {
            assert_eq!(count_bits(n), (n as f64).to_bits());
        }
    }
}

#[test]
fn double_of_a_small_count_has_the_count_as_its_value() {
    // exponent field e and fraction field f: (2^52 + f) == n * 2^(1075 - e)
    for n in 1..2000usize {
        let bits = count_bits(n);
        let e = bits / HIDDEN_BIT;
        let f = bits % HIDDEN_BIT;
        assert!(1023 <= e && e <= 1075);
        assert_eq!(HIDDEN_BIT + f, (n as u64) << (1075 - e));
    }
}
