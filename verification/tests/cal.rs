use lib::cal::{civil_from_days, civil_from_epoch, days_from_civil, days_in_month, is_leap, weekday_from_days, Civil};

#[test]
fn known_dates_round_trip() {
    for (epoch, y, m, d, wd) in [
        (0u64, 1970, 1, 1, 3u8),
        (951782400, 2000, 2, 29, 1),
        (1788220800, 2026, 9, 1, 1),
        (2147472000, 2038, 1, 19, 1),
        (4107542400, 2100, 3, 1, 0),
    ] {
        let c = civil_from_epoch(epoch);
        assert_eq!((c.year, c.month, c.day, c.weekday), (y, m, d, wd));
        assert_eq!(days_from_civil(y, m, d) * 86400, epoch as i64);
    }
}

#[test]
fn month_lengths() {
    assert_eq!(days_in_month(2026, 9), 30);
    assert_eq!(days_in_month(2024, 2), 29);
    assert_eq!(days_in_month(2100, 2), 28);
    assert_eq!(days_in_month(2000, 2), 29);
    assert_eq!(days_in_month(2026, 13), 0);
}

#[test]
fn round_trip_every_day_for_400_years() {
    let z0 = days_from_civil(1970, 1, 1);
    for off in 0..146097 {
        let z = z0 + off;
        let (y, m, d) = civil_from_days(z);
        assert_eq!(days_from_civil(y, m, d), z);
        assert!(d >= 1 && d <= days_in_month(y, m));
    }
}

#[test]
fn negative_days_before_the_epoch() {
    assert_eq!(civil_from_days(-1), (1969, 12, 31));
    assert_eq!(days_from_civil(1969, 12, 31), -1);
    assert_eq!(civil_from_days(-719468), (0, 3, 1));
    assert_eq!(days_from_civil(0, 3, 1), -719468);
    assert_eq!(civil_from_days(-719469), (0, 2, 29));
    assert_eq!(days_from_civil(-1, 1, 1), -719893);
    assert_eq!(civil_from_days(-719893), (-1, 1, 1));
}

#[test]
fn weekdays_on_both_sides_of_the_epoch() {
    assert_eq!(weekday_from_days(0), 3);
    assert_eq!(weekday_from_days(4), 0);
    assert_eq!(weekday_from_days(-1), 2);
    assert_eq!(weekday_from_days(-3), 0);
    assert_eq!(weekday_from_days(-4), 6);
    assert_eq!(weekday_from_days(-7), 3);
}

#[test]
fn leap_year_rules() {
    assert!(is_leap(2024));
    assert!(!is_leap(2023));
    assert!(!is_leap(1900));
    assert!(is_leap(2000));
    assert!(is_leap(-4));
    assert_eq!(days_in_month(2023, 2), 28);
    assert_eq!(days_in_month(2023, 0), 0);
    assert_eq!(days_in_month(2023, 4), 30);
    assert_eq!(days_in_month(2023, 12), 31);
}

#[test]
fn epoch_at_the_end_of_a_day() {
    let c = civil_from_epoch(86399);
    assert_eq!(c, Civil { year: 1970, month: 1, day: 1, weekday: 3 });
    let c = civil_from_epoch(u64::MAX);
    assert!(c.month >= 1 && c.month <= 12 && c.day >= 1 && c.weekday < 7);
}
