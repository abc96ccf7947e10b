use ferro_ledger::quantity::{parse_quantity, try_sum_all, Quantity};

#[test]
fn parsing_keeps_the_written_scale() {
    let q = parse_quantity("100.00").unwrap();
    assert_eq!(q.mantissa(), 10000);
    assert_eq!(q.scale(), 2);
    assert!(parse_quantity("1.2.3").is_err());
    assert!(parse_quantity("").is_err());
}

#[test]
fn sums_and_differences_are_exact() {
    let a = Quantity::new(150, 2);
    let b = Quantity::new(-25, 1);
    let s = a.checked_add(&b).unwrap();
    assert!(s.equals(&Quantity::new(-100, 2)));
    let d = a.checked_sub(&b).unwrap();
    assert!(d.equals(&Quantity::new(400, 2)));
    assert!(a.add_exact(&b).unwrap().equals(&s));
    assert!(a.sub_exact(&b).unwrap().equals(&d));
}

#[test]
fn comparison_ignores_scale() {
    assert!(Quantity::new(100, 2).equals(&Quantity::new(1, 0)));
    assert!(Quantity::new(99, 2).less_than(&Quantity::new(1, 0)));
    assert!(!Quantity::new(1, 0).less_than(&Quantity::new(100, 2)));
    assert!(Quantity::new(-5, 1).is_negative());
    assert!(Quantity::new(5, 1).is_positive());
    assert!(Quantity::new(0, 3).is_zero());
}

#[test]
fn text_forms_follow_display_and_two_decimals() {
    assert_eq!(Quantity::new(12345, 2).to_text(), "123.45");
    assert_eq!(Quantity::new(5, 0).to_text_2dp(), "5.00");
    assert_eq!(Quantity::new(-12345, 3).to_text_2dp(), "-12.34");
    assert_eq!(Quantity::new(-30, 1).abs().to_text(), "3.0");
    assert_eq!(Quantity::new(30, 1).neg().to_text(), "-3.0");
}

#[test]
fn sums_of_lists_start_from_zero() {
    let v = vec![Quantity::new(100, 2), Quantity::new(-25, 2), Quantity::new(3, 0)];
    assert!(try_sum_all(&v).unwrap().equals(&Quantity::new(375, 2)));
    assert!(try_sum_all(&Vec::new()).unwrap().is_zero());
}

#[test]
fn overflowing_sums_are_refused() {
    let big = parse_quantity("79228162514264337593543950335").unwrap();
    assert!(big.checked_add(&Quantity::new(1, 0)).is_none());
    assert!(big.add_exact(&Quantity::new(1, 0)).is_none());
    assert!(try_sum_all(&vec![big, big]).is_none());
    assert!(big.neg().checked_sub(&Quantity::new(1, 0)).is_none());
}
