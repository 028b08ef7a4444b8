use matte::{le_f32s, Single};

fn number(value: f32) -> Single {
    Single { bits: value.to_bits() }
}

/// The same number, bit for bit; what is no number has many patterns.
fn same(a: Single, b: f32) -> bool {
    a.bits == b.to_bits() || (f32::from_bits(a.bits).is_nan() && b.is_nan())
}

fn samples() -> Vec<f32> {
    let mut all = vec![
        0.0,
        -0.0,
        0.5,
        1.0,
        -1.0,
        1.5,
        2.5,
        -2.5,
        0.49999997,
        255.0,
        16777215.0,
        16777216.0,
        8388607.5,
        1e-45,
        -1e-45,
        1.1754944e-38,
        1.1754942e-38,
        3.4028235e38,
        -3.4028235e38,
        f32::INFINITY,
        f32::NEG_INFINITY,
        f32::NAN,
    ];
    let mut state = 12345u64;
    for _ in 0..300 {
        state = state.wrapping_mul(6364136223846793005).wrapping_add(1442695040888963407);
        all.push(f32::from_bits((state >> 32) as u32));
        // Values of everyday size, whose sums and quotients are inexact.
        all.push(((state >> 33) as f32) / 1e7 - 100.0);
    }
    all
}

#[test]
fn sums_and_differences_match_the_machine() {
    for a in samples() {
        for b in samples() {
            assert!(same(number(a).plus(&number(b)), a + b), "{a} + {b}");
            assert!(same(number(a).minus(&number(b)), a - b), "{a} - {b}");
        }
    }
}

#[test]
fn products_match_the_machine() {
    for a in samples() {
        for b in samples() {
            assert!(same(number(a).times(&number(b)), a * b), "{a} * {b}");
        }
    }
}

#[test]
fn quotients_match_the_machine() {
    for a in samples() {
        for b in samples() {
            assert!(same(number(a).over(&number(b)), a / b), "{a} / {b}");
        }
    }
}

#[test]
fn order_matches_the_machine() {
    for a in samples() {
        for b in samples() {
            assert_eq!(number(a).below(&number(b)), a < b, "{a} < {b}");
        }
    }
}

#[test]
fn whole_numbers_match_the_machine() {
    for a in samples() {
        assert!(same(number(a).to_nearest_whole(), a.round()), "{a}");
        assert_eq!(number(a).whole_part(u64::MAX), a as u64, "{a}");
        assert_eq!(number(a).whole_part(255), u64::from(a as u8), "{a}");
        assert!(same(number(a).negated(), -a), "{a}");
        assert!(
            same(number(a).held(&number(0.0), &number(255.0)), a.clamp(0.0, 255.0)),
            "{a}"
        );
    }
    for n in [0usize, 1, 320, 16777217, 16777219, 33554431, 4294967295] {
        assert!(same(Single::from_usize(n), n as f32), "{n}");
    }
    for n in 0..=255u8 {
        assert!(same(Single::from_u8(n), f32::from(n)), "{n}");
    }
}

#[test]
fn ratios_are_the_decimals_they_stand_for() {
    assert!(same(Single::ratio(1402, 1000), 1.402));
    assert!(same(Single::ratio(344_136, 1_000_000), 0.344_136));
    assert!(same(Single::ratio(714_136, 1_000_000), 0.714_136));
    assert!(same(Single::ratio(1772, 1000), 1.772));
    assert!(same(Single::ratio(1, 2), 0.5));
}

#[test]
fn bytes_hold_the_bit_pattern_lowest_first() {
    for a in samples() {
        let bytes = number(a).to_le_bytes();
        assert_eq!(bytes, a.to_le_bytes());
        let back = Single::from_le_bytes(bytes[0], bytes[1], bytes[2], bytes[3]);
        assert_eq!(back.bits, a.to_bits());
    }
}

#[test]
fn a_tensor_is_read_four_bytes_at_a_time() {
    let mut data: Vec<u8> = Vec::new();
    for value in [0.25f32, -3.0, 1e-40] {
        data.extend(value.to_le_bytes());
    }
    // What is left over at the end is no float.
    data.extend([1, 2, 3]);
    let bits: Vec<u32> = le_f32s(&data).iter().map(|n| n.bits).collect();
    assert_eq!(
        bits,
        vec![0.25f32.to_bits(), (-3.0f32).to_bits(), 1e-40f32.to_bits()]
    );
    assert!(le_f32s(&[1, 2, 3]).is_empty());
}
