use sgp4::decimal::Decimal;
use sgp4::elements::{below_one, validate_elements, PropagationError};
use sgp4::tle::{load_from_str, TLE};

fn report_elements() -> TLE {
    load_from_str(
        "Test",
        "1 88888U          80275.98708465  .00073094  13844-3  66816-4 0     8",
        "2 88888  72.8435 115.9689 0086731  52.6988 110.5714 16.05824518   105",
    )
    .unwrap()
}

fn dec(mantissa: i64, exponent: i32) -> Decimal {
    Decimal { mantissa, exponent }
}

#[test]
fn report_elements_are_valid() {
    assert_eq!(validate_elements(&report_elements()), Ok(()));
}

#[test]
fn eccentricity_above_one_is_invalid() {
    let mut tle = report_elements();
    tle.e = dec(15, -1);
    assert_eq!(validate_elements(&tle), Err(PropagationError::InvalidElements));
}

#[test]
fn eccentricity_of_one_is_invalid() {
    let mut tle = report_elements();
    tle.e = dec(1, 0);
    assert_eq!(validate_elements(&tle), Err(PropagationError::InvalidElements));
    tle.e = dec(10000000, -7);
    assert_eq!(validate_elements(&tle), Err(PropagationError::InvalidElements));
    tle.e = dec(9999999, -7);
    assert_eq!(validate_elements(&tle), Ok(()));
}

#[test]
fn negative_eccentricity_is_invalid() {
    let mut tle = report_elements();
    tle.e = dec(-1, -7);
    assert_eq!(validate_elements(&tle), Err(PropagationError::InvalidElements));
    tle.e = dec(0, 0);
    assert_eq!(validate_elements(&tle), Ok(()));
}

#[test]
fn mean_motion_must_be_positive() {
    let mut tle = report_elements();
    tle.mean_motion = dec(0, -8);
    assert_eq!(validate_elements(&tle), Err(PropagationError::InvalidElements));
    tle.mean_motion = dec(-1605824518, -8);
    assert_eq!(validate_elements(&tle), Err(PropagationError::InvalidElements));
}

#[test]
fn below_one_by_exponent() {
    assert!(below_one(dec(99, -2)));
    assert!(!below_one(dec(100, -2)));
    assert!(!below_one(dec(1, 3)));
    assert!(below_one(dec(0, 5)));
    assert!(below_one(dec(i64::MAX, -19)));
    assert!(!below_one(dec(i64::MAX, -18)));
    assert!(below_one(dec(1, i32::MIN)));
}
