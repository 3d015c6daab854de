use sample_library::rounding::{
    divide_to_bits, order_key_of, round_ratio, stands_for_number, whole_of, DOUBLE, SINGLE,
};

#[test]
fn quotients_are_those_of_double_precision() {
    let ns = [
        0,
        1,
        2,
        3,
        44100,
        1_000_003,
        (1 << 53) - 1,
        1 << 53,
        (1 << 53) + 1,
        (1 << 53) + 3,
        u64::MAX / 3,
        u64::MAX - 1024,
        u64::MAX - 1023,
        u64::MAX,
    ];
    let ds = [0, 1, 2, 3, 7, 8000, 44100, 48000, 96000, 192000, u32::MAX];
    for n in ns {
        for d in ds {
            let expected = n as f64 / d as f64;
            let got = f64::from_bits(divide_to_bits(n, d));
            if expected.is_nan() {
                assert!(got.is_nan());
            } else {
                assert_eq!(got.to_bits(), expected.to_bits(), "{n} / {d}");
            }
        }
    }
    assert_eq!(f64::from_bits(divide_to_bits(44100, 44100)), 1.0);
    assert_eq!(f64::from_bits(divide_to_bits(66150, 44100)), 1.5);
}

#[test]
fn ratios_round_to_the_nearest() {
    for (n, d) in [(1u64, 3u64), (2, 3), (16777217, 1), (16777219, 1), (800, 7), (5, 800)] {
        let (m, e) = round_ratio(n, d, SINGLE);
        assert_eq!(m as f64 * 2f64.powi(e), (n as f64 / d as f64) as f32 as f64, "{n}/{d}");
    }
    let (m, e) = round_ratio(u64::MAX, 1, DOUBLE);
    assert_eq!(m as f64 * 2f64.powi(e), u64::MAX as f64);
}

#[test]
fn whole_parts_cut_the_fraction_off() {
    assert_eq!(whole_of(7, 2), 28);
    assert_eq!(whole_of(7, -1), 3);
    assert_eq!(whole_of(7, -3), 0);
    assert_eq!(whole_of(7, -200), 0);
}

#[test]
fn keys_order_doubles() {
    let samples = [
        f64::NEG_INFINITY,
        f64::MIN,
        -3.5,
        -1.0,
        -f64::MIN_POSITIVE,
        -5e-324,
        -0.0,
        0.0,
        5e-324,
        f64::MIN_POSITIVE,
        0.1,
        1.0,
        1.5,
        2.0,
        f64::MAX,
        f64::INFINITY,
    ];
    for a in samples {
        assert!(stands_for_number(a.to_bits()));
        for b in samples {
            let (x, y) = (order_key_of(a.to_bits()), order_key_of(b.to_bits()));
            assert_eq!(x.partial_cmp(&y), a.partial_cmp(&b), "{a} {b}");
        }
    }
    assert!(!stands_for_number(f64::NAN.to_bits()));
    assert!(!stands_for_number((-f64::NAN).to_bits()));
}
