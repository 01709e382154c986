use tuners::ratio::{Ratio, RatioError};

#[test]
fn ratio_new() {
    let r = Ratio::new(3, 2).unwrap();

    assert_eq!(r.numer as f32 / r.denom as f32, 1.5);
}

#[test]
fn new_reduces() {
    let r = Ratio::new(10, 8).unwrap();

    assert_eq!(r, Ratio { numer: 5, denom: 4 });
}

#[test]
fn new_normalizes() {
    let r = Ratio::new(7, 8).unwrap();
    let r2 = Ratio::new(15, 4).unwrap();

    assert_eq!(r, Ratio { numer: 7, denom: 4 });
    assert_eq!(
        r2,
        Ratio {
            numer: 15,
            denom: 8
        }
    );
}

#[test]
fn any_non_1_1_octave_equivalence_is_an_octave() {
    let unison = Ratio::new(1, 1).unwrap();
    let octave_up = Ratio::new(2, 1).unwrap();
    let octave_down = Ratio::new(1, 2).unwrap();
    let octave_up_two = Ratio::new(4, 1).unwrap();
    let octave_down_two = Ratio::new(1, 4).unwrap();

    assert_eq!(unison, Ratio { numer: 1, denom: 1 });
    assert_eq!(octave_up, Ratio { numer: 2, denom: 1 });
    assert_eq!(octave_down, Ratio { numer: 2, denom: 1 });
    assert_eq!(octave_up_two, Ratio { numer: 2, denom: 1 });
    assert_eq!(octave_down_two, Ratio { numer: 2, denom: 1 });
}

#[test]
fn mul() {
    let r1 = Ratio::new(4, 3).unwrap();
    let r2 = Ratio::new(3, 2).unwrap();

    assert_eq!(r1.multiply(&r2).unwrap(), Ratio { numer: 2, denom: 1 });
}

#[test]
fn div() {
    let r1 = Ratio::new(4, 3).unwrap();
    let r2 = Ratio::new(3, 2).unwrap();

    assert_eq!(
        r1.divide(&r2).unwrap(),
        Ratio {
            numer: 16,
            denom: 9
        }
    );
    assert_eq!(r2.divide(&r1).unwrap(), Ratio { numer: 9, denom: 8 });
}

#[test]
fn complement() {
    let r1 = Ratio::new(4, 3).unwrap();
    let r2 = Ratio::new(3, 2).unwrap();

    assert_eq!(r1.complement().unwrap(), r2);
    assert_eq!(r2.negate().unwrap(), r1);
}

#[test]
fn pow() {
    let r = Ratio::new(3, 2).unwrap();

    assert_eq!(r.pow(0).unwrap(), Ratio { numer: 1, denom: 1 });
    assert_eq!(r.pow(1).unwrap(), r);
    assert_eq!(r.pow(2).unwrap(), Ratio { numer: 9, denom: 8 });
    assert_eq!(
        r.pow(-2).unwrap(),
        Ratio {
            numer: 16,
            denom: 9
        }
    );
}

#[test]
fn limit() {
    assert_eq!(Ratio::new(8, 7).unwrap().limit(), 7);
    assert_eq!(Ratio::new(9, 8).unwrap().limit(), 3);
    assert_eq!(Ratio::new(10, 9).unwrap().limit(), 5);
    assert_eq!(Ratio::new(22, 21).unwrap().limit(), 11);
}

#[test]
fn zero_terms_are_invalid() {
    assert_eq!(Ratio::new(0, 3), Err(RatioError::InvalidRatio));
    assert_eq!(Ratio::new(3, 0), Err(RatioError::InvalidRatio));
    assert_eq!(Ratio::new(0, 0), Err(RatioError::InvalidRatio));
}

#[test]
fn construction_overflow() {
    // Normalizing doubles the numerator past the representable range.
    assert_eq!(Ratio::new(u64::MAX - 2, u64::MAX), Err(RatioError::Overflow));
    // Far apart, but every doubling stays in range.
    assert_eq!(Ratio::new(1, 1 << 62).unwrap(), Ratio { numer: 2, denom: 1 });
}

#[test]
fn multiply_overflow() {
    let big = Ratio::new(u64::MAX, u64::MAX - 1).unwrap();
    assert_eq!(big.multiply(&big), Err(RatioError::Overflow));
}

#[test]
fn pow_overflow() {
    let r = Ratio::new(3, 2).unwrap();
    assert_eq!(r.pow(50), Err(RatioError::Overflow));
    assert_eq!(r.pow(-50), Err(RatioError::Overflow));
}

#[test]
fn complement_overflow() {
    let wide = Ratio::new(u64::MAX, 1 << 63).unwrap();
    assert_eq!(wide.complement(), Err(RatioError::Overflow));
}

#[test]
fn construction_is_idempotent() {
    let r = Ratio::new(6, 4).unwrap();
    assert_eq!(r, Ratio { numer: 3, denom: 2 });
    assert_eq!(Ratio::new(r.numer, r.denom).unwrap(), r);

    let o = Ratio::new(12, 3).unwrap();
    assert_eq!(o, Ratio { numer: 2, denom: 1 });
    assert_eq!(Ratio::new(o.numer, o.denom).unwrap(), o);
}

#[test]
fn constructed_ratios_are_reduced_and_in_octave() {
    let inputs = [(10u64, 8u64), (9, 6), (44, 7), (7, 44), (1, 1), (36, 36), (1024, 3)];
    for (n, d) in inputs {
        let r = Ratio::new(n, d).unwrap();
        assert!(r.denom <= r.numer && r.numer <= 2 * r.denom);
        let mut a = r.numer;
        let mut b = r.denom;
        while a % b > 0 {
            let t = a % b;
            a = b;
            b = t;
        }
        assert_eq!(b, 1);
    }
}

#[test]
fn complement_is_involutive_away_from_unison() {
    let r = Ratio::new(5, 4).unwrap();
    assert_eq!(r.complement().unwrap().complement().unwrap(), r);

    let octave = Ratio::new(2, 1).unwrap();
    assert_eq!(octave.complement().unwrap().complement().unwrap(), octave);

    // Unison is the exception: both steps land on the octave.
    let unison = Ratio::new(1, 1).unwrap();
    assert_eq!(unison.complement().unwrap(), octave);
    assert_eq!(unison.complement().unwrap().complement().unwrap(), octave);
}

#[test]
fn negative_pow_inverts() {
    let r = Ratio::new(3, 2).unwrap();
    assert_eq!(r.pow(-1).unwrap(), Ratio { numer: 4, denom: 3 });
}

#[test]
fn limit_of_unison_is_degenerate() {
    assert_eq!(Ratio::new(1, 1).unwrap().limit(), 2);
    assert_eq!(Ratio::new(2, 1).unwrap().limit(), 2);
}
