use cart::float32::{infinity_reaches, number_eq, quotient_reaches, within_unit_interval, zero_reaches, F32};

fn f(x: f32) -> F32 {
    F32 { bits: x.to_bits() }
}

fn ratio(num: u64, den: u64) -> f32 {
    num as f32 / den as f32
}

const THRESHOLDS: [f32; 16] = [
    0.0,
    -0.0,
    0.3,
    0.5,
    1.0,
    1.25,
    2.0,
    -1.0,
    f32::NAN,
    f32::INFINITY,
    f32::NEG_INFINITY,
    f32::MIN_POSITIVE,
    1.0e-45,
    f32::MAX,
    0.1,
    0.33333334,
];

#[test]
fn a_fraction_at_the_default_threshold() {
    assert!(quotient_reaches(3, 10, f(0.3)));
    assert!(!quotient_reaches(299, 1000, f(0.3)));
    assert!(quotient_reaches(5, 4, f(1.25)));
    assert!(!quotient_reaches(6, 5, f(1.25)));
    assert!(quotient_reaches(7, 7, f(1.0)));
    assert!(!quotient_reaches(u64::MAX, 1, f(f32::NAN)));
    assert!(!quotient_reaches(u64::MAX, 1, f(f32::INFINITY)));
    assert!(quotient_reaches(0, 5, f(-0.0)));
}

#[test]
fn agrees_with_the_machine_on_small_counts() {
    for num in 0..60u64 {
        for den in 1..60u64 {
            for t in THRESHOLDS {
                assert_eq!(quotient_reaches(num, den, f(t)), ratio(num, den) >= t, "{} / {} >= {}", num, den, t);
            }
            // The quotient itself and its neighbours are the hardest thresholds.
            let bits = ratio(num, den).to_bits();
            for b in [bits.saturating_sub(1), bits, bits + 1] {
                let t = f32::from_bits(b);
                assert_eq!(quotient_reaches(num, den, f(t)), ratio(num, den) >= t);
            }
        }
    }
}

#[test]
fn agrees_with_the_machine_on_large_counts() {
    let mut seed: u64 = 7;
    let mut next = || {
        seed = seed.wrapping_mul(6364136223846793005).wrapping_add(1442695040888963407);
        seed
    };
    for _ in 0..20000 {
        let num = next() >> (next() % 64);
        let den = (next() >> (next() % 64)).max(1);
        let bits = ratio(num, den).to_bits();
        for b in [bits.saturating_sub(1), bits, bits + 1, next() as u32] {
            let t = f32::from_bits(b);
            assert_eq!(quotient_reaches(num, den, f(t)), ratio(num, den) >= t, "{} / {} >= {}", num, den, t);
        }
    }
}

#[test]
fn counts_are_rounded_before_the_division() {
    // 2^24 + 1 is no binary32 number: it rounds to 2^24.
    let n = (1u64 << 24) + 1;
    assert_eq!(ratio(n, 1 << 24), 1.0);
    assert!(!quotient_reaches(n, 1 << 24, f(f32::from_bits(1.0f32.to_bits() + 1))));
    assert!(quotient_reaches(1 << 24, n, f(1.0)));
}

#[test]
fn zero_and_infinity_against_thresholds() {
    for t in THRESHOLDS {
        assert_eq!(zero_reaches(f(t)), 0.0 >= t);
        assert_eq!(infinity_reaches(f(t)), f32::INFINITY >= t);
    }
}

#[test]
fn equality_of_numbers() {
    for a in THRESHOLDS {
        for b in THRESHOLDS {
            assert_eq!(number_eq(f(a), f(b)), a == b);
        }
    }
}

#[test]
fn the_unit_interval() {
    for t in THRESHOLDS {
        assert_eq!(within_unit_interval(f(t)), (0.0..=1.0).contains(&t));
    }
    assert!(within_unit_interval(f(f32::from_bits(1.0f32.to_bits() - 1))));
    assert!(!within_unit_interval(f(f32::from_bits(1.0f32.to_bits() + 1))));
}
