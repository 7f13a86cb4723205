//! Numbers and lengths of time, held against what the machine computes.

use olea_core::number::Number;
use olea_core::time::Duration;

/// The number that a float stands for, in the one form in which it is held.
fn of(x: f32) -> Number {
    let bits = x.to_bits();
    let negative = bits >> 31 == 1;
    let exponent = ((bits >> 23) & 0xff) as i32;
    let fraction = bits & 0x7f_ffff;
    if x.is_nan() {
        Number::NotANumber
    } else if x.is_infinite() {
        Number::Infinite { negative }
    } else if exponent == 0 {
        Number::Finite { negative, mantissa: fraction, exponent: -149 }
    } else {
        Number::Finite { negative, mantissa: fraction | 0x80_0000, exponent: exponent - 150 }
    }
}

const SOME: [f32; 22] = [
    0.0, -0.0, 1.0, -1.0, 0.5, 2.0, 0.1, 0.3, 7.5, 8.75, 13.0, 44.1, 48_000.0, 65_535.5, 1.0e-3,
    -2.75, 3.4e38, 1.2e-38, 1.0e-45, -1.0e-45, 16_777_216.0, 0.007_5,
];

#[test]
fn decimals_are_read_as_the_nearest_number() {
    for text in [
        "0", "-0", "+1", "1.", ".5", "-.5", "0.1", "0.2", "0.3", "7.5", "13", "48000", "1e3", "1E-3",
        "1.5e+2", "16777217", "16777219", "3.4028235e38", "3.4028236e38", "1e39", "-1e39", "1e-45",
        "7e-46", "1e-46", "1.17549435e-38", "0.000001", "123456789", "9007199254740993",
        "0.1000000014901161193847656250", "1e400", "1e-400", "inf", "-inf", "+Infinity", "INFINITY",
        "00001.5", "1e00003",
    ] {
        let wanted: f32 = text.parse().unwrap();
        assert_eq!(Number::parse(text), Some(of(wanted)), "{text}");
    }
}

#[test]
fn what_is_no_number_is_not_read() {
    for text in [
        "", " ", "+", "-", ".", "e5", "1e", "1e+", "1 ", " 1", "1,5", "0x10", "1_000", "--1", "1.5.2",
        "in", "infi", "nanx", "1f", "true",
    ] {
        assert!(text.parse::<f32>().is_err(), "{text}");
        assert_eq!(Number::parse(text), None, "{text}");
    }
    for text in ["nan", "NaN", "-nan", "+NAN"] {
        assert!(text.parse::<f32>().unwrap().is_nan());
        assert_eq!(Number::parse(text), Some(Number::NotANumber));
    }
}

#[test]
fn products_and_quotients_are_rounded_once() {
    for a in SOME {
        for b in SOME {
            assert_eq!(of(a).times(of(b)), of(a * b), "{a} * {b}");
            if b != 0.0 {
                assert_eq!(of(a).over(of(b)), of(a / b), "{a} / {b}");
            }
            if a >= 0.0 && b >= 0.0 && a.is_sign_positive() && b.is_sign_positive() {
                assert_eq!(of(a).plus(of(b)), of(a + b), "{a} + {b}");
            }
        }
    }
}

#[test]
fn numbers_are_ordered_by_what_they_are_worth() {
    let mut all: Vec<f32> = SOME.to_vec();
    all.push(f32::INFINITY);
    all.push(f32::NEG_INFINITY);
    all.push(f32::NAN);
    for &a in &all {
        for &b in &all {
            assert_eq!(of(a).below(of(b)), a < b, "{a} < {b}");
            assert_eq!(of(a).at_most(of(b)), a <= b, "{a} <= {b}");
        }
        assert_eq!(of(a).clamp(of(0.0), of(2.0)), of(a.clamp(0.0, 2.0)), "{a}");
        assert_eq!(of(a).is_finite(), a.is_finite(), "{a}");
    }
}

#[test]
fn whole_parts_stop_at_the_limits() {
    let mut all: Vec<f32> = SOME.to_vec();
    all.extend([f32::INFINITY, f32::NEG_INFINITY, f32::NAN, 254.9, 255.0, 256.0, -32_769.0, 32_767.4]);
    for a in all {
        assert_eq!(of(a).truncate(u32::MAX), a as u32, "{a}");
        assert_eq!(of(a).truncate(0xFFFF), a as u16 as u32, "{a}");
        assert_eq!(of(a).truncate(0xFF), a as u8 as u32, "{a}");
        assert_eq!(of(a).to_sample(), a.clamp(-32_768.0, 32_767.0) as i16, "{a}");
    }
    for sample in [i16::MIN, -1, 0, 1, 900, i16::MAX] {
        assert_eq!(Number::of_sample(sample), of(sample as f32));
    }
}

#[test]
fn fractions_are_the_nearest_numbers() {
    assert_eq!(Number::ratio(1, 10), of(0.1));
    assert_eq!(Number::ratio(35, 4), of(8.75));
    assert_eq!(Number::ratio(0, 7), of(0.0));
    assert_eq!(Number::ratio(1, 3), of(1.0 / 3.0));
    assert_eq!(Number::ratio(16_777_217, 1), of(16_777_216.0));
    assert_eq!(Number::ratio(u64::MAX, 1), of(18_446_744_073_709_551_616.0));
}

#[test]
fn seconds_become_nanoseconds() {
    for x in [0.0f32, 0.08, 0.1, 0.35, 1.0, 2.5, 5.0, 7.3, 10.0, 180.0, 1.0e-9, 1.4e-9, 3.0e9] {
        let wanted = std::time::Duration::from_secs_f32(x);
        assert!(of(x).can_be_seconds());
        assert_eq!(of(x).seconds().nanos, wanted.as_nanos(), "{x}");
    }
    for x in [-1.0f32, f32::NAN, f32::INFINITY, 2.0e19] {
        assert!(std::time::Duration::try_from_secs_f32(x).is_err(), "{x}");
        assert!(!of(x).can_be_seconds(), "{x}");
    }
}

#[test]
fn lengths_of_time_saturate() {
    let second = Duration::from_secs(1);
    let minute = Duration::from_secs(60);

    assert_eq!(second.saturating_sub(minute), Duration::zero());
    assert_eq!(minute.saturating_sub(second), Duration::from_secs(59));
    assert_eq!(second.saturating_add(Duration::from_millis(500)), Duration::from_micros(1_500_000));
    assert_eq!(Duration { nanos: u128::MAX }.saturating_add(second).nanos, u128::MAX);
    assert_eq!(second.min(minute), second);
    assert_eq!(second.max(minute), minute);
    assert_eq!(Duration::from_millis(59_999).as_secs(), 59);
}

#[test]
fn lengths_of_time_are_shown_with_their_unit() {
    for nanos in [
        0u64, 1, 999, 1_000, 1_500, 350_000_000, 1_000_000, 1_250_000, 2_000_000_000, 2_500_000_000,
        30_000_000_000, 1_000_000_001, 120_000_000_000,
    ] {
        let mut shown = String::new();
        Duration { nanos: nanos.into() }.push_shown(&mut shown);
        assert_eq!(shown, format!("{:?}", std::time::Duration::from_nanos(nanos)));
    }
}
