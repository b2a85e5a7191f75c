use gobbler::command::{
    cutoff, dispatch, should_check, use_ran_today, Command, Options, Request, Subcommand,
};
use gobbler::time::Timestamp;

fn plain() -> Options {
    Options {
        subscriptions_file: None,
        export: false,
        import: None,
        list: false,
        last_ran_at: false,
        hide_empty_feeds: false,
        weeks: 4,
        run_days: None,
        filter_by_name: None,
        posts_limit: 10,
        command: None,
    }
}

fn everything() -> Options {
    Options {
        subscriptions_file: Some(String::from("my.db")),
        export: true,
        import: Some(String::from("in.db")),
        list: true,
        last_ran_at: true,
        hide_empty_feeds: true,
        weeks: 2,
        run_days: Some(3),
        filter_by_name: Some(String::from("algo")),
        posts_limit: 5,
        command: Some(Subcommand::Add { name: String::from("n"), url: String::from("u") }),
    }
}

#[test]
fn dispatch_without_options_is_a_check() {
    assert_eq!(
        dispatch(plain()),
        Request {
            subscriptions_file: None,
            command: Command::Check {
                weeks: 4,
                run_days: None,
                hide_empty_feeds: false,
                filter_by_name: None,
                posts_limit: 10,
            },
        }
    );
}

#[test]
fn dispatch_hands_the_check_its_options() {
    let options = Options { export: false, import: None, list: false, last_ran_at: false, command: None, ..everything() };
    assert_eq!(
        dispatch(options),
        Request {
            subscriptions_file: Some(String::from("my.db")),
            command: Command::Check {
                weeks: 2,
                run_days: Some(3),
                hide_empty_feeds: true,
                filter_by_name: Some(String::from("algo")),
                posts_limit: 5,
            },
        }
    );
}

#[test]
fn dispatch_puts_export_first() {
    assert_eq!(dispatch(everything()), Request { subscriptions_file: None, command: Command::Export });
}

#[test]
fn dispatch_puts_import_second() {
    let options = Options { export: false, ..everything() };
    assert_eq!(
        dispatch(options),
        Request { subscriptions_file: None, command: Command::Import { file: String::from("in.db") } }
    );
}

#[test]
fn dispatch_puts_a_change_before_listing() {
    let add = Options { export: false, import: None, ..everything() };
    assert_eq!(
        dispatch(add),
        Request {
            subscriptions_file: Some(String::from("my.db")),
            command: Command::Add { name: String::from("n"), url: String::from("u") },
        }
    );
    let remove = Options {
        export: false,
        import: None,
        subscriptions_file: None,
        command: Some(Subcommand::Remove { name: String::from("n") }),
        ..everything()
    };
    assert_eq!(
        dispatch(remove),
        Request { subscriptions_file: None, command: Command::Remove { name: String::from("n") } }
    );
}

#[test]
fn dispatch_puts_listing_before_the_last_run() {
    let list = Options { export: false, import: None, command: None, ..everything() };
    assert_eq!(dispatch(list).command, Command::List);
    let last = Options { export: false, import: None, command: None, list: false, ..everything() };
    assert_eq!(dispatch(last).command, Command::LastRanAt);
}

#[test]
fn cutoff_lies_whole_weeks_back() {
    let now = Timestamp { secs: 1_700_000_000, nanos: 123, offset: 3_600 };
    assert_eq!(cutoff(now, 4), Some(Timestamp { secs: 1_697_580_800, nanos: 123, offset: 3_600 }));
    assert_eq!(cutoff(now, 1), Some(Timestamp { secs: 1_699_395_200, nanos: 123, offset: 3_600 }));
    assert_eq!(cutoff(now, 0), Some(now));
    assert_eq!(cutoff(now, -1), Some(Timestamp { secs: 1_700_604_800, nanos: 123, offset: 3_600 }));
}

#[test]
fn cutoff_outside_the_numbers_is_none() {
    let now = Timestamp { secs: 1_700_000_000, nanos: 0, offset: 0 };
    assert_eq!(cutoff(now, i64::MAX), None);
    assert_eq!(cutoff(now, i64::MIN), None);
    let early = Timestamp { secs: i64::MIN, nanos: 0, offset: 0 };
    assert_eq!(cutoff(early, 1), None);
    assert_eq!(cutoff(early, 0), Some(early));
    assert_eq!(cutoff(early, -1), Some(Timestamp { secs: i64::MIN + 604_800, nanos: 0, offset: 0 }));
    let late = Timestamp { secs: i64::MAX, nanos: 0, offset: 0 };
    assert_eq!(cutoff(late, -1), None);
    assert_eq!(cutoff(late, 15_250_284_452_471), Some(Timestamp { secs: 315_007, nanos: 0, offset: 0 }));
}

#[test]
fn should_check_without_a_limit_always_runs() {
    assert!(should_check(None, 1_704_844_801, 1_704_844_801));
    assert!(should_check(None, 0, 0));
}

#[test]
fn should_check_holds_back_within_the_days() {
    assert!(!should_check(Some(1), 1_704_844_801, 1_704_931_199));
    assert!(should_check(Some(1), 1_704_931_199, 1_704_931_201));
    assert!(!should_check(Some(2), 1_704_931_199, 1_704_931_201));
    assert!(should_check(Some(1), 0, 1_704_931_201));
}

#[test]
fn use_ran_today_follows_the_limit() {
    assert!(use_ran_today(Some(1)));
    assert!(use_ran_today(Some(0)));
    assert!(!use_ran_today(None));
}

#[test]
fn cutoff_agrees_with_the_calendar() {
    for secs in [0, 1_700_000_000, -1_000_000_000, 951_782_400, 4_102_444_800] {
        for weeks in [0, 1, 4, 52, 520, -3] {
            let now = chrono::DateTime::from_timestamp(secs, 987_654_321).unwrap();
            let then = now - chrono::Duration::weeks(weeks);
            assert_eq!(
                cutoff(Timestamp { secs, nanos: 987_654_321, offset: 0 }, weeks),
                Some(Timestamp { secs: then.timestamp(), nanos: then.timestamp_subsec_nanos(), offset: 0 })
            );
        }
    }
}
