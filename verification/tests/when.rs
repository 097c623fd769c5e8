use gg::ui::when::{
    bucket, civil_days_checked, civil_from_days, day_of, days_ago, days_ago_in_range, days_from_civil,
    stamp,
};

#[test]
fn the_epoch_is_day_zero() {
    assert_eq!(days_from_civil(1970, 1, 1), 0);
    assert_eq!(days_from_civil(1969, 12, 31), -1);
    assert_eq!(days_from_civil(1970, 12, 31), 364);
    assert_eq!(days_from_civil(2000, 3, 1), 11017);
}

#[test]
fn a_leap_day_counts_once() {
    assert_eq!(days_from_civil(2024, 3, 1) - days_from_civil(2024, 2, 28), 2);
    assert_eq!(days_from_civil(2023, 3, 1) - days_from_civil(2023, 2, 28), 1);
}

#[test]
fn a_date_is_counted_back_from_today() {
    let today = days_from_civil(2026, 8, 23);

    assert_eq!(days_ago("2026-08-23", today), Some(0));
    assert_eq!(days_ago("2026-08-21", today), Some(2));
    assert_eq!(days_ago("2025-08-23", today), Some(365));
    assert_eq!(days_ago("not a date", today), None);
}

#[test]
fn each_rung_reads_the_way_it_is_spoken() {
    assert_eq!(bucket(0), "today");
    assert_eq!(bucket(1), "yesterday");
    assert_eq!(bucket(3), "3 days ago");
    assert_eq!(bucket(9), "last week");
    assert_eq!(bucket(21), "3 weeks ago");
    assert_eq!(bucket(60), "2 months ago");
    assert_eq!(bucket(400), "a year ago");
    assert_eq!(bucket(1200), "3 years ago");
}

#[test]
fn a_date_ahead_of_today_reads_as_today() {
    assert_eq!(bucket(-5), "today");
}

#[test]
fn a_day_number_turns_back_into_its_date() {
    assert_eq!(civil_from_days(0), (1970, 1, 1));
    assert_eq!(civil_from_days(-1), (1969, 12, 31));
    assert_eq!(civil_from_days(11017), (2000, 3, 1));
    let leap = days_from_civil(2024, 2, 29);
    assert_eq!(civil_from_days(leap), (2024, 2, 29));
}

#[test]
fn every_day_of_a_span_round_trips() {
    for days in -800_000..800_000i64 {
        let (year, month, day) = civil_from_days(days);
        assert_eq!(days_from_civil(year, month, day), days);
    }
}

#[test]
fn the_rungs_change_at_their_edges() {
    assert_eq!(bucket(6), "6 days ago");
    assert_eq!(bucket(7), "last week");
    assert_eq!(bucket(13), "last week");
    assert_eq!(bucket(14), "2 weeks ago");
}

#[test]
fn a_clock_reading_is_counted_in_whole_days() {
    assert_eq!(day_of(None), 0);
    assert_eq!(day_of(Some(86_399)), 0);
    assert_eq!(day_of(Some(86_400)), 1);
}

#[test]
fn a_stamp_reads_on_the_committer_clock() {
    // 2023-06-26 21:48:00 UTC, written seven hours west of it.
    assert_eq!(stamp(1_687_816_080, -7 * 3600), "06/26/2023 @ 2:48 PM");
    assert_eq!(stamp(0, 0), "01/01/1970 @ 12:00 AM");
    assert_eq!(stamp(12 * 3600 + 5 * 60, 0), "01/01/1970 @ 12:05 PM");
}

#[test]
fn a_date_reads_back_from_its_day_count() {
    for (year, month, day) in [(2024, 2, 29), (1600, 3, 1), (-44, 3, 15), (1900, 2, 28), (9999, 12, 31)] {
        assert_eq!(civil_from_days(days_from_civil(year, month, day)), (year, month, day));
    }
}

#[test]
fn a_date_too_far_out_is_not_counted() {
    let today = days_from_civil(2026, 8, 23);
    assert!(days_ago_in_range("2026-08-01", today));
    assert!(days_ago_in_range("1000000000000000-01-01", today));
    assert!(!days_ago_in_range("90000000000000000-01-01", today));
    assert!(!days_ago_in_range("2026-100000000000000000-01", today));
    assert!(!days_ago_in_range("2026-01-9223372036854775807", today));
    assert_eq!(civil_days_checked(2000, 3, 1), Some(11017));
    assert_eq!(civil_days_checked(i64::MIN, 1, 1), None);
}

#[test]
fn a_month_out_of_range_is_counted_the_way_the_formula_counts_it() {
    assert_eq!(days_from_civil(2024, -1, 1), 19662);
    assert_eq!(days_from_civil(2024, -10, 1), 19387);
    assert_eq!(civil_days_checked(2024, -10, 1), Some(19387));
}
