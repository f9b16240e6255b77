use hypatia::decimal::Decimal;

#[test]
fn parse_renders_back() {
    let d = Decimal::from_string("120529").unwrap();
    assert_eq!(d.to_text(), "120529");
}

#[test]
fn round_trip_from_text() {
    for s in ["0", "7", "10", "905", "56088", "123456789"] {
        let d = Decimal::from_string(s).unwrap();
        let back = Decimal::from_string(&d.to_text()).unwrap();
        assert_eq!(back, d);
    }
}

#[test]
fn round_trip_keeps_leading_zero_digits() {
    let d = Decimal::from_string("007").unwrap();
    assert_eq!(d.to_text(), "007");
    let back = Decimal::from_string(&d.to_text()).unwrap();
    assert_eq!(back, d);
}

#[test]
fn parse_rejects_non_digits() {
    assert!(Decimal::from_string("12a4").is_err());
    assert!(Decimal::from_string("-1").is_err());
    assert!(Decimal::from_string(" 1").is_err());
}

#[test]
fn zero_renders_empty_and_from_u32_zero_renders_zero() {
    // The additive identity is the empty digit sequence and renders as the
    // empty string; a zero built from an integer keeps one digit.
    assert_eq!(Decimal::zero().to_text(), "");
    assert_eq!(Decimal::from_u32(0).to_text(), "0");
    assert_eq!(Decimal::from_u32(0).digits(), &vec![0u8]);
}

#[test]
fn digits_are_least_significant_first() {
    let d = Decimal::from_u32(905);
    assert_eq!(d.digits(), &vec![5u8, 0, 9]);
}

#[test]
fn addition_matches_native_arithmetic() {
    let samples = [0u32, 1, 9, 10, 99, 100, 12345, 99999, 4294967295];
    for &a in &samples {
        for &b in &samples {
            let da = Decimal::from_u32(a);
            let db = Decimal::from_u32(b);
            let sum = da.add(&db);
            assert_eq!(sum.to_text(), (a as u64 + b as u64).to_string());
        }
    }
}

#[test]
fn addition_commutes() {
    let samples = [0u32, 3, 18, 444, 90125, 4294967295];
    for &a in &samples {
        for &b in &samples {
            let da = Decimal::from_u32(a);
            let db = Decimal::from_u32(b);
            assert_eq!(da.add(&db), db.add(&da));
        }
    }
}

#[test]
fn addition_associates() {
    let samples = [0u32, 7, 95, 999, 123456];
    for &a in &samples {
        for &b in &samples {
            for &c in &samples {
                let da = Decimal::from_u32(a);
                let db = Decimal::from_u32(b);
                let dc = Decimal::from_u32(c);
                assert_eq!(da.add(&db).add(&dc), da.add(&db.add(&dc)));
            }
        }
    }
}

#[test]
fn multiplication_renders_56088() {
    let p = Decimal::from_u32(123).multiply(&Decimal::from_u32(456));
    assert_eq!(p.to_text(), "56088");
}

#[test]
fn multiplication_matches_native_arithmetic() {
    let samples = [0u32, 1, 2, 9, 10, 99, 127, 10000, 65535];
    for &a in &samples {
        for &b in &samples {
            let p = Decimal::from_u32(a).multiply(&Decimal::from_u32(b));
            let expect = (a as u64) * (b as u64);
            // An empty product arises only from the empty identity, which
            // from_u32 never yields; zero renders as "0" times anything.
            let text = p.to_text();
            let got = if text.is_empty() { 0 } else { text.parse::<u64>().unwrap() };
            assert_eq!(got, expect);
        }
    }
}

#[test]
fn multiplying_by_the_empty_identity_keeps_the_diagonal_positions() {
    // With one empty operand the diagonals still span len(a) + len(b) - 1
    // positions, all zero; only two empty operands give the empty sequence.
    let d = Decimal::from_u32(905);
    let z = Decimal::zero();
    assert_eq!(d.multiply(&z).digits(), &vec![0u8, 0]);
    assert_eq!(z.multiply(&d).digits(), &vec![0u8, 0]);
    assert_eq!(z.multiply(&Decimal::from_u32(10)).digits(), &vec![0u8]);
    // With lengths zero and one there are no diagonal positions at all.
    assert_eq!(z.multiply(&Decimal::from_u32(7)), Decimal::zero());
    assert_eq!(z.multiply(&z), Decimal::zero());
}

#[test]
fn two_to_the_thousand_has_digit_sum_1366() {
    let two = Decimal::from_u32(2);
    let mut pow = Decimal::from_u32(1);
    for _ in 0..1000 {
        pow = pow.multiply(&two);
    }
    let digit_sum: u64 = pow.digits().iter().map(|&d| u64::from(d)).sum();
    assert_eq!(digit_sum, 1366);
    assert_eq!(pow.digits().len(), 302);
}
