use gobbler::throttle::{get_last_ran_at, ran_in_past_n_days, set_ran_today};

const JAN_10_START: i64 = 1_704_844_801;
const JAN_10_END: i64 = 1_704_931_199;
const JAN_11_START: i64 = 1_704_931_201;
const JAN_17_NOON: i64 = 1_705_492_800;

#[test]
fn last_run_defaults_to_the_start_of_1970() {
    assert_eq!(get_last_ran_at(None), 0);
    assert_eq!(get_last_ran_at(Some(0)), 0);
    assert_eq!(get_last_ran_at(Some(1_704_844_801)), 1_704_844_801);
    assert_eq!(get_last_ran_at(Some(u64::MAX)), u64::MAX);
}

#[test]
fn ran_on_the_same_date_at_any_time_of_day() {
    assert!(ran_in_past_n_days(JAN_10_START as u64, JAN_10_END, 1));
    assert!(ran_in_past_n_days(JAN_10_END as u64, JAN_10_START, 1));
    assert!(ran_in_past_n_days(JAN_10_START as u64, JAN_10_START, 1));
    assert!(ran_in_past_n_days(JAN_10_START as u64, JAN_10_END, 7));
}

#[test]
fn ran_no_longer_once_the_date_has_moved_on() {
    assert!(!ran_in_past_n_days(JAN_10_END as u64, JAN_11_START, 1));
    assert!(!ran_in_past_n_days(JAN_10_START as u64, JAN_11_START, 1));
    assert!(ran_in_past_n_days(JAN_10_END as u64, JAN_11_START, 2));
}

#[test]
fn ran_within_a_week_by_date() {
    assert!(ran_in_past_n_days(JAN_11_START as u64, JAN_17_NOON, 7));
    assert!(ran_in_past_n_days(JAN_10_END as u64, JAN_17_NOON - 86_400, 7));
    assert!(!ran_in_past_n_days(JAN_10_END as u64, JAN_17_NOON, 7));
    assert!(ran_in_past_n_days(JAN_10_START as u64, JAN_17_NOON, 8));
}

#[test]
fn zero_days_never_count_a_run_of_today_or_before() {
    assert!(!ran_in_past_n_days(JAN_10_START as u64, JAN_10_END, 0));
    assert!(ran_in_past_n_days(JAN_11_START as u64, JAN_10_END, 0));
    assert!(!ran_in_past_n_days(JAN_10_START as u64, JAN_10_END, -3));
}

#[test]
fn never_ran_counts_as_long_ago() {
    assert!(!ran_in_past_n_days(0, JAN_10_START, 1));
    assert!(!ran_in_past_n_days(0, JAN_10_START, 19_731));
    assert!(ran_in_past_n_days(0, JAN_10_START, 19_733));
}

#[test]
fn ran_in_past_n_days_at_the_ends_of_the_numbers() {
    assert!(ran_in_past_n_days(u64::MAX, i64::MAX, 1));
    assert!(ran_in_past_n_days(0, i64::MIN, 1));
    assert!(!ran_in_past_n_days(u64::MAX, i64::MAX, i64::MIN));
    assert!(ran_in_past_n_days(0, i64::MAX, i64::MAX));
    assert!(!ran_in_past_n_days(0, 86_399, 0));
    assert!(ran_in_past_n_days(0, -1, 0));
}

#[test]
fn set_ran_today_keeps_the_seconds() {
    assert_eq!(set_ran_today(0), 0);
    assert_eq!(set_ran_today(1_704_844_801), 1_704_844_801);
    assert_eq!(set_ran_today(i64::MAX), 9_223_372_036_854_775_807);
}

#[test]
fn set_ran_today_before_1970_is_the_twos_complement() {
    assert_eq!(set_ran_today(-1), u64::MAX);
    assert_eq!(set_ran_today(-86_400), 18_446_744_073_709_465_216);
    assert_eq!(set_ran_today(i64::MIN), 9_223_372_036_854_775_808);
}

#[test]
fn a_recorded_run_lies_within_the_day() {
    let stored = set_ran_today(JAN_10_START);
    assert!(ran_in_past_n_days(get_last_ran_at(Some(stored)), JAN_10_END, 1));
    assert!(!ran_in_past_n_days(get_last_ran_at(Some(stored)), JAN_11_START, 1));
}

fn ran_by_chrono(last_ran: u64, now: i64, n: i64) -> bool {
    let last = chrono::DateTime::from_timestamp(last_ran as i64, 0).unwrap().date_naive();
    let before = (chrono::DateTime::from_timestamp(now, 0).unwrap() - chrono::Duration::days(n)).date_naive();
    last > before
}

#[test]
fn ran_in_past_n_days_agrees_with_the_calendar() {
    let instants: [i64; 14] = [
        0,
        1,
        86_399,
        86_400,
        86_401,
        951_782_399,
        951_782_400,
        951_868_800,
        JAN_10_START,
        JAN_10_END,
        JAN_11_START,
        JAN_17_NOON,
        4_102_444_799,
        4_102_444_800,
    ];
    for last in instants {
        for now in instants {
            for n in [-400, -1, 0, 1, 2, 7, 30, 365, 366, 20_000] {
                assert_eq!(
                    ran_in_past_n_days(last as u64, now, n),
                    ran_by_chrono(last as u64, now, n),
                    "last run {}, now {}, {} days",
                    last,
                    now,
                    n
                );
                assert_eq!(
                    ran_in_past_n_days(last as u64, -now - 1, n),
                    ran_by_chrono(last as u64, -now - 1, n),
                    "last run {}, now {}, {} days",
                    last,
                    -now - 1,
                    n
                );
            }
        }
    }
}
