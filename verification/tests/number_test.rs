use olap_engine::number::{Number, Whole};

#[test]
fn whole_numbers_wrap_around() {
    assert_eq!(Whole(i64::MAX).plus(Whole(1)), Whole(i64::MIN));
    assert_eq!(Whole(i64::MAX).times(Whole(2)), Whole(-2));
    assert_eq!(Whole(i64::MIN).over(Whole(-1)), Whole(i64::MIN));
}

#[test]
fn whole_numbers_divide_towards_nought() {
    assert_eq!(Whole(7).over(Whole(2)), Whole(3));
    assert_eq!(Whole(-7).over(Whole(2)), Whole(-3));
    assert_eq!(Whole(7).over(Whole(-2)), Whole(-3));
}

#[test]
fn nought_and_one_are_known() {
    assert!(Whole(0).is_zero());
    assert!(!Whole(1).is_zero());
    assert!(Whole(1).is_unit());
    assert!(!Whole(-1).is_unit());
}

#[test]
fn whole_numbers_are_read_and_shown() {
    assert_eq!(Whole::read("-12"), Some(Whole(-12)));
    assert_eq!(Whole::read("12"), Some(Whole(12)));
    assert_eq!(Whole::read("9223372036854775808"), None);
    assert_eq!(Whole::read("-9223372036854775808"), Some(Whole(i64::MIN)));
    assert_eq!(Whole::read(""), None);
    assert_eq!(Whole::read("-"), None);
    assert_eq!(Whole::read("1.5"), None);
    assert_eq!(Whole(i64::MIN).shown(), "-9223372036854775808");
    assert_eq!(Whole(0).shown(), "0");
    assert_eq!(Whole(120).shown(), "120");
}

#[test]
fn factors_and_sums_can_be_regrouped() {
    let (a, b, c) = (Whole(i64::MAX), Whole(12345), Whole(-98765));
    assert_eq!(a.times(b).times(c), a.times(b.times(c)));
    assert_eq!(a.times(b.plus(c)), a.times(b).plus(a.times(c)));
    assert_eq!(a.plus(b).plus(c), a.plus(b.plus(c)));
}
