use sgp4::decimal::Decimal;
use sgp4::tle::load_from_str;

const LINE2: &str = "1 88888U          80275.98708465  .00073094  13844-3  66816-4 0     8";
const LINE3: &str = "2 88888  72.8435 115.9689 0086731  52.6988 110.5714 16.05824518   105";

fn value(d: Decimal) -> f64 {
    if d.exponent < 0 {
        d.mantissa as f64 / 10f64.powi(-d.exponent)
    } else {
        d.mantissa as f64 * 10f64.powi(d.exponent)
    }
}

fn dec(mantissa: i64, exponent: i32) -> Decimal {
    Decimal { mantissa, exponent }
}

#[test]
fn tle_spacetrack_report_3_sgp4_test_case() {
    let line1 = "";
    let line2 = "1 88888U          80275.98708465  .00073094  13844-3  66816-4 0     8";
    let line3 = "2 88888  72.8435 115.9689 0086731  52.6988 110.5714 16.05824518   105";

    let tle = load_from_str(line1, line2, line3).unwrap();

    assert_eq!(tle.name, "");
    assert_eq!(tle.sat_number, 88888);
    assert_eq!(tle.classification, 'U');
    assert_eq!(tle.int_designator, "        ");
    assert_eq!(tle.epoch_year, 1980);
    assert_eq!(value(tle.epoch_day), 275.98708465);
    assert_eq!(value(tle.first_mean_motion), 0.00073094 * 2.0);
    // 0.13844e-3 * 6, held exactly
    assert_eq!(tle.second_mean_motion, dec(13844 * 6, -8));
    assert_eq!(value(tle.bstar), 0.66816e-4);
    assert_eq!(tle.tle_version, 0);
    assert_eq!(value(tle.i), 72.8435);
    assert_eq!(value(tle.raan), 115.9689);
    assert_eq!(value(tle.e), 0.0086731);
    assert_eq!(value(tle.omega), 52.6988);
    assert_eq!(value(tle.mean_anomaly), 110.5714);
    assert_eq!(value(tle.mean_motion), 16.05824518);
    assert_eq!(tle.revolution_number, 10);
}

#[test]
fn decimals_are_exact() {
    let tle = load_from_str("Test", LINE2, LINE3).unwrap();
    assert_eq!(tle.name, "Test");
    assert_eq!(tle.epoch_day, dec(27598708465, -8));
    assert_eq!(tle.first_mean_motion, dec(146188, -8));
    assert_eq!(tle.bstar, dec(66816, -9));
    assert_eq!(tle.i, dec(728435, -4));
    assert_eq!(tle.e, dec(86731, -7));
    assert_eq!(tle.mean_motion, dec(1605824518, -8));
}

#[test]
fn iss_element_set() {
    let tle = load_from_str(
        "ISS (ZARYA)",
        "1 25544U 98067A   16210.59822142  .00000812  00000-0  11901-4 0  9990",
        "2 25544  51.6406 211.4156 0001780  85.8307 274.3426 15.54888439 11433",
    )
    .unwrap();
    assert_eq!(tle.sat_number, 25544);
    assert_eq!(tle.int_designator, "98067A  ");
    assert_eq!(tle.epoch_year, 2016);
    assert_eq!(tle.epoch_day, dec(21059822142, -8));
    assert_eq!(tle.second_mean_motion, dec(0, -5));
    assert_eq!(tle.bstar, dec(11901, -9));
    assert_eq!(tle.tle_version, 999);
    assert_eq!(tle.e, dec(1780, -7));
    assert_eq!(tle.revolution_number, 1143);
}

#[test]
fn negative_drag_and_derivatives() {
    let tle = load_from_str(
        "",
        "1 00005U 58002B   00179.78495062 -.00000023 -12345-5 -11606-3 0  4753",
        "2 00005  34.2682 348.7242 1859667 331.7664  19.3264 10.82419157413667",
    )
    .unwrap();
    assert_eq!(tle.epoch_year, 2000);
    assert_eq!(tle.first_mean_motion, dec(-46, -8));
    assert_eq!(tle.second_mean_motion, dec(-12345 * 6, -10));
    assert_eq!(tle.bstar, dec(-11606, -8));
    assert_eq!(tle.e, dec(1859667, -7));
    assert_eq!(tle.omega, dec(3317664, -4));
    assert_eq!(tle.revolution_number, 41366);
}

#[test]
fn year_57_is_in_the_last_century() {
    let line2 = "1 00001U 57001A   57001.00000000  .00000000  00000-0  00000-0 0     0";
    let tle = load_from_str("", line2, LINE3).unwrap();
    assert_eq!(tle.epoch_year, 1957);
    let line2 = "1 00001U 56001A   56001.00000000  .00000000  00000-0  00000-0 0     0";
    let tle = load_from_str("", line2, LINE3).unwrap();
    assert_eq!(tle.epoch_year, 2056);
}

#[test]
fn short_lines_are_refused() {
    assert!(load_from_str("", &LINE2[..67], LINE3).is_none());
    assert!(load_from_str("", LINE2, &LINE3[..67]).is_none());
    assert!(load_from_str("", "", "").is_none());
    assert!(load_from_str("", &LINE2[..68], &LINE3[..68]).is_some());
}

#[test]
fn malformed_fields_are_refused() {
    let bad_number = LINE2.replacen("88888", "8x888", 1);
    assert!(load_from_str("", &bad_number, LINE3).is_none());
    let bad_day = LINE2.replacen("80275.98708465", "80275.987.8465", 1);
    assert!(load_from_str("", &bad_day, LINE3).is_none());
    let bad_inclination = LINE3.replacen(" 72.8435", "  72.x35", 1);
    assert!(load_from_str("", LINE2, &bad_inclination).is_none());
    let bad_eccentricity = LINE3.replacen("0086731", "0.86731", 1);
    assert!(load_from_str("", LINE2, &bad_eccentricity).is_none());
    let bad_exponent = LINE2.replacen("66816-4", "66816x4", 1);
    assert!(load_from_str("", &bad_exponent, LINE3).is_none());
    let no_inclination = LINE3.replacen(" 72.8435", "        ", 1);
    assert!(load_from_str("", LINE2, &no_inclination).is_none());
}

#[test]
fn positive_exponent_raises_the_drag_term() {
    let line2 = LINE2.replacen("66816-4", "66816+2", 1);
    let tle = load_from_str("", &line2, LINE3).unwrap();
    assert_eq!(tle.bstar, dec(66816, -3));
}
