use gobbler::error::Error;
use gobbler::feed::{
    add_feed, collect_feeds_with_items_since, feed_from_fetched, get_items_from_feed,
    is_supported, is_valid_url, items_since, select_feeds, valid_rss_feed_url, Feed, FeedFormat,
    FeedItem, FetchOutcome, FetchedFeed, RawFeedItem,
};
use gobbler::store::Database;
use gobbler::time::Timestamp;

fn at(secs: i64) -> Timestamp {
    Timestamp { secs, nanos: 0, offset: 0 }
}

fn item(title: &str, secs: i64) -> FeedItem {
    FeedItem { title: String::from(title), id: format!("http://x/{}", title), timestamp: at(secs) }
}

fn raw(title: &str, updated: &str) -> RawFeedItem {
    RawFeedItem {
        title: String::from(title),
        id: format!("http://x/{}", title),
        link: None,
        updated: Some(String::from(updated)),
    }
}

fn fetched(items: Vec<RawFeedItem>) -> Option<FetchedFeed> {
    Some(FetchedFeed { format: FeedFormat::Atom10, items })
}

fn titles(items: &[FeedItem]) -> Vec<String> {
    items.iter().map(|item| item.title.clone()).collect()
}

const MARCH_1: i64 = 1_677_661_200;
const FEB_28: i64 = 1_677_574_800;
const FEB_1: i64 = 1_675_242_000;

#[test]
fn is_valid_url_asks_for_the_first_four_characters() {
    assert!(is_valid_url("http://example.com/feed"));
    assert!(is_valid_url("https://example.com/feed"));
    assert!(is_valid_url("http"));
    assert!(is_valid_url("httpx"));
    assert!(!is_valid_url("htt"));
    assert!(!is_valid_url(""));
    assert!(!is_valid_url("HTTP://example.com"));
    assert!(!is_valid_url(" http://example.com"));
    assert!(!is_valid_url("tag:example.com,2023:1"));
}

#[test]
fn new_item_keeps_an_id_that_looks_like_an_address() {
    let made = FeedItem::new(
        String::from("Post"),
        String::from("https://example.com/1"),
        Some(String::from("https://example.com/link")),
        at(5),
    );
    assert_eq!(
        made,
        FeedItem { title: String::from("Post"), id: String::from("https://example.com/1"), timestamp: at(5) }
    );
}

#[test]
fn new_item_takes_the_link_for_another_id() {
    let made = FeedItem::new(
        String::from("Post"),
        String::from("tag:example.com,2023:1"),
        Some(String::from("https://example.com/link")),
        at(5),
    );
    assert_eq!(made.id, "https://example.com/link");
    assert_eq!(made.title, "Post");
    assert_eq!(made.timestamp, at(5));
}

#[test]
fn new_item_without_a_link_keeps_its_id() {
    let made = FeedItem::new(String::from("Post"), String::from("urn:uuid:1"), None, at(5));
    assert_eq!(made.id, "urn:uuid:1");
}

#[test]
fn try_from_reads_the_update_time() {
    let read = FeedItem::try_from(&RawFeedItem {
        title: String::from("Leap"),
        id: String::from("http://x/1"),
        link: None,
        updated: Some(String::from("1996-12-19T16:39:57-08:00")),
    });
    assert_eq!(
        read,
        Ok(FeedItem {
            title: String::from("Leap"),
            id: String::from("http://x/1"),
            timestamp: Timestamp { secs: 851_042_397, nanos: 0, offset: -28_800 },
        })
    );
}

#[test]
fn try_from_chooses_the_id() {
    let read = FeedItem::try_from(&RawFeedItem {
        title: String::from("T"),
        id: String::from("guid-17"),
        link: Some(String::from("http://x/17")),
        updated: Some(String::from("2023-03-01T09:00:00Z")),
    });
    assert_eq!(
        read,
        Ok(FeedItem { title: String::from("T"), id: String::from("http://x/17"), timestamp: at(MARCH_1) })
    );
}

#[test]
fn try_from_refuses_a_time_that_is_not_rfc_3339() {
    for text in ["", "yesterday", "Wed, 01 Mar 2023 09:00:00 GMT", "2023-03-01", "2023-13-01T09:00:00Z"] {
        assert_eq!(FeedItem::try_from(&raw("a", text)), Err(Error::ParseTimestamp));
    }
}

#[test]
fn try_from_refuses_a_missing_time() {
    let read = FeedItem::try_from(&RawFeedItem {
        title: String::from("T"),
        id: String::from("http://x/1"),
        link: None,
        updated: None,
    });
    assert_eq!(read, Err(Error::ParseTimestamp));
}

#[test]
fn items_since_keeps_the_item_at_the_cutoff() {
    let items = vec![item("t0", 400), item("t1", 300), item("t2", 200), item("t3", 100)];
    let kept = items_since(items, &at(300));
    assert_eq!(kept, vec![item("t0", 400), item("t1", 300)]);
}

#[test]
fn items_since_compares_nanoseconds() {
    let early = FeedItem { timestamp: Timestamp { secs: 300, nanos: 1, offset: 0 }, ..item("a", 300) };
    let since = Timestamp { secs: 300, nanos: 2, offset: 0 };
    assert_eq!(items_since(vec![early.clone()], &since), Vec::<FeedItem>::new());
    let same = Timestamp { secs: 300, nanos: 1, offset: 0 };
    assert_eq!(items_since(vec![early.clone()], &same), vec![early]);
}

#[test]
fn items_since_does_not_look_at_the_offset() {
    let east = FeedItem { timestamp: Timestamp { secs: 300, nanos: 0, offset: 7_200 }, ..item("a", 300) };
    let since = Timestamp { secs: 300, nanos: 0, offset: -3_600 };
    assert_eq!(items_since(vec![east.clone()], &since), vec![east]);
}

#[test]
fn items_since_stops_at_the_first_older_item() {
    let items = vec![item("new", 400), item("old", 100), item("late", 500), item("also", 300)];
    assert_eq!(titles(&items_since(items, &at(300))), vec!["new"]);
}

#[test]
fn items_since_of_an_older_first_item_is_empty() {
    let items = vec![item("old", 100), item("new", 400)];
    assert_eq!(items_since(items, &at(300)), Vec::<FeedItem>::new());
    assert_eq!(items_since(Vec::new(), &at(300)), Vec::<FeedItem>::new());
}

#[test]
fn items_since_keeps_all_where_none_is_older() {
    let items = vec![item("a", 400), item("b", 400), item("c", 300)];
    assert_eq!(titles(&items_since(items, &at(0))), vec!["a", "b", "c"]);
}

#[test]
fn get_items_from_feed_reads_up_to_the_cutoff() {
    let raws = vec![
        raw("march", "2023-03-01T10:00:00+01:00"),
        raw("february", "2023-02-28T09:00:00Z"),
        raw("early", "2023-02-01T09:00:00Z"),
    ];
    let feed = get_items_from_feed(String::from("Blog"), &raws, &at(FEB_28));
    assert_eq!(feed.name, "Blog");
    assert_eq!(
        feed.items,
        vec![
            FeedItem {
                title: String::from("march"),
                id: String::from("http://x/march"),
                timestamp: Timestamp { secs: MARCH_1, nanos: 0, offset: 3_600 },
            },
            FeedItem {
                title: String::from("february"),
                id: String::from("http://x/february"),
                timestamp: at(FEB_28),
            },
        ]
    );
}

#[test]
fn get_items_from_feed_passes_over_what_it_cannot_read() {
    let raws = vec![
        raw("a", "2023-03-01T09:00:00Z"),
        raw("broken", "not a date"),
        RawFeedItem { updated: None, ..raw("missing", "") },
        raw("b", "2023-02-28T09:00:00Z"),
        raw("old", "2023-02-01T09:00:00Z"),
        raw("after", "2023-03-05T09:00:00Z"),
    ];
    let feed = get_items_from_feed(String::from("Blog"), &raws, &at(FEB_28));
    assert_eq!(titles(&feed.items), vec!["a", "b"]);
}

#[test]
fn get_items_from_feed_stops_before_later_items_out_of_order() {
    let raws = vec![
        raw("old", "2023-02-01T09:00:00Z"),
        raw("new", "2023-03-01T09:00:00Z"),
    ];
    let feed = get_items_from_feed(String::from("Blog"), &raws, &at(FEB_28));
    assert!(feed.is_empty());
    assert_eq!(feed.items, Vec::<FeedItem>::new());
}

#[test]
fn feed_from_fetched_drops_a_failed_fetch() {
    let outcome = FetchOutcome { name: String::from("Blog"), fetched: None };
    assert_eq!(feed_from_fetched(&outcome, &at(0), false), None);
    assert_eq!(feed_from_fetched(&outcome, &at(0), true), None);
}

#[test]
fn feed_from_fetched_skips_an_empty_feed_when_asked() {
    let outcome = FetchOutcome {
        name: String::from("Blog"),
        fetched: fetched(vec![raw("old", "2023-02-01T09:00:00Z")]),
    };
    assert_eq!(feed_from_fetched(&outcome, &at(FEB_28), true), None);
    assert_eq!(
        feed_from_fetched(&outcome, &at(FEB_28), false),
        Some(Feed { name: String::from("Blog"), items: Vec::new() })
    );
    let kept = feed_from_fetched(&outcome, &at(FEB_1), true);
    assert_eq!(kept.map(|feed| titles(&feed.items)), Some(vec![String::from("old")]));
}

#[test]
fn collect_skips_exactly_the_feeds_without_items() {
    let outcomes = vec![
        FetchOutcome { name: String::from("a"), fetched: fetched(vec![raw("a1", "2023-03-01T09:00:00Z")]) },
        FetchOutcome { name: String::from("b"), fetched: fetched(vec![raw("b1", "2023-02-01T09:00:00Z")]) },
        FetchOutcome { name: String::from("c"), fetched: None },
        FetchOutcome { name: String::from("d"), fetched: fetched(Vec::new()) },
        FetchOutcome { name: String::from("e"), fetched: fetched(vec![raw("e1", "2023-02-28T09:00:00Z")]) },
    ];
    let hidden = collect_feeds_with_items_since(&outcomes, &at(FEB_28), true);
    let names: Vec<&str> = hidden.iter().map(|feed| feed.name.as_str()).collect();
    assert_eq!(names, vec!["a", "e"]);
    let shown = collect_feeds_with_items_since(&outcomes, &at(FEB_28), false);
    let sizes: Vec<(&str, usize)> =
        shown.iter().map(|feed| (feed.name.as_str(), feed.items.len())).collect();
    assert_eq!(sizes, vec![("a", 1), ("b", 0), ("d", 0), ("e", 1)]);
}

#[test]
fn collect_of_nothing_is_nothing() {
    assert_eq!(collect_feeds_with_items_since(&Vec::new(), &at(0), false), Vec::<Feed>::new());
}

#[test]
fn collect_reads_feeds_of_any_format() {
    let outcomes = vec![FetchOutcome {
        name: String::from("odd"),
        fetched: Some(FetchedFeed {
            format: FeedFormat::Other,
            items: vec![raw("x", "2023-03-01T09:00:00Z")],
        }),
    }];
    let feeds = collect_feeds_with_items_since(&outcomes, &at(0), true);
    assert_eq!(feeds.len(), 1);
    assert_eq!(titles(&feeds[0].items), vec!["x"]);
}

#[test]
fn is_supported_knows_two_formats() {
    assert!(is_supported(FeedFormat::Atom10));
    assert!(is_supported(FeedFormat::Rss20));
    assert!(!is_supported(FeedFormat::Other));
}

#[test]
fn select_feeds_by_name_takes_upper_and_lower_case_as_one() {
    let db = Database::from_text("Algolia,u1\nBlog,u2\n");
    let picked = select_feeds(&db, &Some(String::from("algo")));
    assert_eq!(picked, vec![(String::from("Algolia"), String::from("u1"))]);
    let shouted = select_feeds(&db, &Some(String::from("ALGO")));
    assert_eq!(shouted, vec![(String::from("Algolia"), String::from("u1"))]);
    let both = select_feeds(&db, &Some(String::from("LOG")));
    assert_eq!(both, vec![(String::from("Blog"), String::from("u2"))]);
    let lo = select_feeds(&db, &Some(String::from("lo")));
    assert_eq!(lo, vec![(String::from("Blog"), String::from("u2"))]);
    let o = select_feeds(&db, &Some(String::from("O")));
    assert_eq!(o, db.list());
}

#[test]
fn select_feeds_without_a_filter_takes_all() {
    let db = Database::from_text("b,2\na,1\n");
    assert_eq!(select_feeds(&db, &None), db.list());
    assert_eq!(select_feeds(&db, &Some(String::new())), db.list());
    assert_eq!(select_feeds(&db, &Some(String::from("zzz"))), Vec::<(String, String)>::new());
    assert_eq!(select_feeds(&Database::new(), &None), Vec::<(String, String)>::new());
}

#[test]
fn limit_items_keeps_the_newest() {
    let mut feed = Feed::new(String::from("Blog"), vec![item("a", 3), item("b", 2), item("c", 1)]);
    feed.limit_items(5);
    assert_eq!(titles(&feed.items), vec!["a", "b", "c"]);
    feed.limit_items(3);
    assert_eq!(titles(&feed.items), vec!["a", "b", "c"]);
    feed.limit_items(2);
    assert_eq!(titles(&feed.items), vec!["a", "b"]);
    assert_eq!(feed.name, "Blog");
    feed.limit_items(0);
    assert!(feed.is_empty());
}

#[test]
fn valid_rss_feed_url_asks_for_one_item() {
    assert_eq!(valid_rss_feed_url("http://x", &fetched(vec![raw("a", "whenever")])), Ok(()));
    assert_eq!(
        valid_rss_feed_url("http://x", &fetched(Vec::new())),
        Err(Error::InvalidRssFeedUrl(String::from("http://x")))
    );
    assert_eq!(
        valid_rss_feed_url("http://y", &None),
        Err(Error::InvalidRssFeedUrl(String::from("http://y")))
    );
}

#[test]
fn add_feed_refuses_a_bad_address_before_the_store_is_touched() {
    let mut db = Database::from_text("foo,http://a\n");
    let refused = add_feed(&mut db, String::from("foo"), String::from("http://b"), &None);
    assert_eq!(refused, Err(Error::InvalidRssFeedUrl(String::from("http://b"))));
    let empty = add_feed(&mut db, String::from("new"), String::from("http://c"), &fetched(Vec::new()));
    assert_eq!(empty, Err(Error::InvalidRssFeedUrl(String::from("http://c"))));
    assert_eq!(db.to_text(), "foo,http://a\n");
}

#[test]
fn add_feed_adds_after_a_good_fetch() {
    let mut db = Database::from_text("foo,http://a\n");
    let good = fetched(vec![raw("a", "2023-03-01T09:00:00Z")]);
    assert_eq!(
        add_feed(&mut db, String::from("bar"), String::from("http://b"), &good),
        Ok(String::from("bar,http://b\n"))
    );
    assert_eq!(
        add_feed(&mut db, String::from("foo"), String::from("http://c"), &good),
        Err(Error::DuplicateName {
            name: String::from("foo"),
            new_url: String::from("http://c"),
            old_url: String::from("http://a"),
        })
    );
    assert_eq!(db.to_text(), "bar,http://b\nfoo,http://a\n");
}

#[test]
fn a_run_from_the_store_to_the_feeds() {
    let db = Database::from_text("Algolia Blog,http://a\nalgorithms,http://b\nNews,http://c\nZ algo,http://d\n");
    let picked = select_feeds(&db, &Some(String::from("Algo")));
    let names: Vec<&str> = picked.iter().map(|entry| entry.0.as_str()).collect();
    assert_eq!(names, vec!["Algolia Blog", "Z algo", "algorithms"]);

    let outcomes: Vec<FetchOutcome> = picked
        .iter()
        .map(|(name, url)| FetchOutcome {
            name: name.clone(),
            fetched: match url.as_str() {
                "http://a" => fetched(vec![
                    raw("a3", "2023-03-05T09:00:00Z"),
                    raw("a2", "2023-03-01T09:00:00Z"),
                    raw("a1", "2023-02-01T09:00:00Z"),
                ]),
                "http://b" => fetched(vec![raw("b1", "2023-02-01T09:00:00Z")]),
                _ => None,
            },
        })
        .collect();

    let hidden = collect_feeds_with_items_since(&outcomes, &at(FEB_28), true);
    assert_eq!(hidden.len(), 1);
    assert_eq!(hidden[0].name, "Algolia Blog");
    assert_eq!(titles(&hidden[0].items), vec!["a3", "a2"]);

    let mut shown = collect_feeds_with_items_since(&outcomes, &at(FEB_28), false);
    let names: Vec<&str> = shown.iter().map(|feed| feed.name.as_str()).collect();
    assert_eq!(names, vec!["Algolia Blog", "algorithms"]);
    assert!(shown[1].is_empty());
    shown[0].limit_items(1);
    assert_eq!(titles(&shown[0].items), vec!["a3"]);
}
