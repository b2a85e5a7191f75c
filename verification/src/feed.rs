//! Feeds and their items: what a fetch brought is read item by item, cut off at
//! the first item older than a given instant, and gathered into one result for
//! each feed.

use crate::error::Error;
use crate::format::{pairs_view, record_line, Entry};
use crate::store::Database;
use crate::text::{contains_text, has_prefix, lowercase, lowercase_of, name_matches, starts_with};
use crate::time::{parse_timestamp, read_instant, Timestamp};
use vstd::prelude::*;

verus! {

/// What a fetch brought of one item, before any of it is read: texts as they
/// stand in the feed. An element that the feed lacks is `None`.
#[derive(Clone, Debug, PartialEq, Eq)]
pub struct RawFeedItem {
    pub title: String,
    pub id: String,
    pub link: Option<String>,
    pub updated: Option<String>,
}

/// A raw item as the contracts see it.
pub struct RawView {
    pub title: Seq<char>,
    pub id: Seq<char>,
    pub link: Option<Seq<char>>,
    pub updated: Option<Seq<char>>,
}

/// The characters of a text that may be missing.
pub open spec fn opt_text(text: Option<String>) -> Option<Seq<char>> {
    match text {
        Some(t) => Some(t@),
        None => None,
    }
}

impl RawFeedItem {
    pub open spec fn view(&self) -> RawView {
        RawView {
            title: self.title@,
            id: self.id@,
            link: opt_text(self.link),
            updated: opt_text(self.updated),
        }
    }
}

/// An item of a feed.
#[derive(Clone, Debug, PartialEq, Eq)]
pub struct FeedItem {
    /// The title of the item
    pub title: String,
    /// The id of the item
    pub id: String,
    /// When the item was last updated
    pub timestamp: Timestamp,
}

/// An item as the contracts see it.
pub struct ItemView {
    pub title: Seq<char>,
    pub id: Seq<char>,
    pub timestamp: Timestamp,
}

/// The four characters with which an address has to begin.
pub open spec fn url_prefix() -> Seq<char> {
    seq!['h', 't', 't', 'p']
}

/// Checks whether `url` looks like an address: whether it begins with `http`.
pub fn is_valid_url(url: &str) -> (valid: bool)
    ensures
        valid == has_prefix(url@, url_prefix()),
{
    proof {
        reveal_strlit("http");
        assert("http"@ =~= url_prefix());
    }
    starts_with(url, "http")
}

/// The id that an item gets: its own where that looks like an address, else
/// its link where it has one.
pub open spec fn chosen_id(id: Seq<char>, link: Option<Seq<char>>) -> Seq<char> {
    if has_prefix(id, url_prefix()) {
        id
    } else {
        match link {
            Some(address) => address,
            None => id,
        }
    }
}

/// What reading a raw item gives: the item with its id chosen and its update
/// time read, or nothing where that time is missing or is no RFC 3339 date and
/// time.
pub open spec fn converted(raw: RawView) -> Option<ItemView> {
    match raw.updated {
        None => None,
        Some(text) => match read_instant(text) {
            Ok(timestamp) => Some(
                ItemView { title: raw.title, id: chosen_id(raw.id, raw.link), timestamp },
            ),
            Err(_) => None,
        },
    }
}

fn clone_opt(text: &Option<String>) -> (copy: Option<String>)
    ensures
        opt_text(copy) == opt_text(*text),
{
    match text {
        Some(t) => Some(t.clone()),
        None => None,
    }
}

impl FeedItem {
    pub open spec fn view(&self) -> ItemView {
        ItemView { title: self.title@, id: self.id@, timestamp: self.timestamp }
    }

    /// An item of the given title and update time. Its id is `id` where that
    /// looks like an address, else `link` where there is one.
    pub fn new(title: String, id: String, link: Option<String>, timestamp: Timestamp) -> (item:
        FeedItem)
        ensures
            item@ == (ItemView { title: title@, id: chosen_id(id@, opt_text(link)), timestamp }),
    {
        let id = if is_valid_url(id.as_str()) {
            id
        } else {
            match link {
                Some(address) => address,
                None => id,
            }
        };
        FeedItem { title, id, timestamp }
    }

    /// Reads a raw item. An item whose update time is missing, or is no RFC 3339
    /// date and time, is refused.
    pub fn try_from(raw: &RawFeedItem) -> (read: Result<FeedItem, Error>)
        ensures
            match read {
                Ok(item) => converted(raw@) == Some(item@),
                Err(reason) => reason == Error::ParseTimestamp && converted(raw@) is None,
            },
    {
        match &raw.updated {
            None => Err(Error::ParseTimestamp),
            Some(text) => match parse_timestamp(text.as_str()) {
                Ok(timestamp) => Ok(
                    FeedItem::new(raw.title.clone(), raw.id.clone(), clone_opt(&raw.link), timestamp),
                ),
                Err(reason) => Err(reason),
            },
        }
    }
}

/// What the contracts see of a vector of items.
pub open spec fn items_view(items: Seq<FeedItem>) -> Seq<ItemView> {
    items.map_values(|item: FeedItem| item@)
}

/// What the contracts see of a vector of raw items.
pub open spec fn raws_view(raws: Seq<RawFeedItem>) -> Seq<RawView> {
    raws.map_values(|raw: RawFeedItem| raw@)
}

/// The items read from raw items, in order, without those that were refused.
pub open spec fn converted_all(raws: Seq<RawView>) -> Seq<ItemView> {
    raws.filter_map(|raw: RawView| converted(raw))
}

/// The number of items from the front on that are not older than `since`: the
/// position of the first item older than `since`, or the number of all items.
pub open spec fn fresh_len(items: Seq<ItemView>, since: Timestamp) -> nat
    decreases items.len(),
{
    if items.len() == 0 || items[0].timestamp.before(since) {
        0
    } else {
        1 + fresh_len(items.drop_first(), since)
    }
}

/// The items in front of the first item that is older than `since`. What
/// follows that item is left out, whatever its time.
pub open spec fn newest_since(items: Seq<ItemView>, since: Timestamp) -> Seq<ItemView> {
    items.take(fresh_len(items, since) as int)
}

/// `fresh_len` stays within the items, no item in front of it is older than
/// `since`, and the item at it is, unless it is the number of all items.
pub proof fn lemma_fresh_len(items: Seq<ItemView>, since: Timestamp)
    ensures
        fresh_len(items, since) <= items.len(),
        forall|i: int| 0 <= i < fresh_len(items, since) ==> !items[i].timestamp.before(since),
        fresh_len(items, since) < items.len() ==> items[fresh_len(
            items,
            since,
        ) as int].timestamp.before(since),
    decreases items.len(),
{
    if items.len() > 0 && !items[0].timestamp.before(since) {
        let rest = items.drop_first();
        lemma_fresh_len(rest, since);
        assert forall|i: int| 0 <= i < fresh_len(items, since) implies !items[i].timestamp.before(
            since,
        ) by {
            if i > 0 {
                assert(items[i] == rest[i - 1]);
            }
        }
    }
}

/// The one position in front of which no item is older than `since` and at
/// which one is, or the items end, is `fresh_len`.
pub proof fn lemma_fresh_len_is(items: Seq<ItemView>, since: Timestamp, at: int)
    requires
        0 <= at <= items.len(),
        forall|i: int| 0 <= i < at ==> !items[i].timestamp.before(since),
        at < items.len() ==> items[at].timestamp.before(since),
    ensures
        fresh_len(items, since) == at,
{
    lemma_fresh_len(items, since);
}

/// Of items in falling order of time, cut off at the time of one of them,
/// exactly that item and those in front of it remain.
pub proof fn lemma_cutoff_in_order(items: Seq<ItemView>, k: int)
    requires
        0 <= k < items.len(),
        forall|i: int, j: int|
            0 <= i < j < items.len() ==> items[j].timestamp.before(items[i].timestamp),
    ensures
        newest_since(items, items[k].timestamp) == items.take(k + 1),
{
    let since = items[k].timestamp;
    assert forall|i: int| 0 <= i < k + 1 implies !items[i].timestamp.before(since) by {
        if i < k {
            assert(items[k].timestamp.before(items[i].timestamp));
        }
    }
    lemma_fresh_len_is(items, since, k + 1);
}

/// The cut is made at the first item older than `since` and is no filter: no
/// item that remains is older than `since`, and nothing behind an older item
/// remains, even where it is not older itself.
pub proof fn lemma_cutoff_stops_at_first_older(items: Seq<ItemView>, since: Timestamp, k: int)
    requires
        0 <= k < items.len(),
        items[k].timestamp.before(since),
    ensures
        newest_since(items, since).len() <= k,
        forall|i: int|
            0 <= i < newest_since(items, since).len() ==> !(#[trigger] newest_since(
                items,
                since,
            )[i]).timestamp.before(since),
{
    lemma_fresh_len(items, since);
}

/// Keeps the items in front of the first one that is older than `since`.
pub fn items_since(items: Vec<FeedItem>, since: &Timestamp) -> (kept: Vec<FeedItem>)
    ensures
        items_view(kept@) == newest_since(items_view(items@), *since),
{
    let mut kept = items;
    let mut at: usize = 0;
    while at < kept.len() && !kept[at].timestamp.is_before(since)
        invariant
            at <= kept@.len(),
            kept@ == items@,
            forall|i: int| 0 <= i < at ==> !items_view(items@)[i].timestamp.before(*since),
        decreases kept@.len() - at,
    {
        at = at + 1;
    }
    proof {
        lemma_fresh_len_is(items_view(items@), *since, at as int);
    }
    kept.truncate(at);
    kept
}

/// A feed
#[derive(Clone, Debug, PartialEq, Eq)]
pub struct Feed {
    /// The name of the feed
    pub name: String,
    /// The items in the feed, newest first
    pub items: Vec<FeedItem>,
}

/// A feed as the contracts see it.
pub struct FeedView {
    pub name: Seq<char>,
    pub items: Seq<ItemView>,
}

impl Feed {
    pub open spec fn view(&self) -> FeedView {
        FeedView { name: self.name@, items: items_view(self.items@) }
    }

    /// A feed with the given name and items.
    pub fn new(name: String, items: Vec<FeedItem>) -> (feed: Feed)
        ensures
            feed@ == (FeedView { name: name@, items: items_view(items@) }),
    {
        Feed { name, items }
    }

    /// Whether the feed has no items.
    pub fn is_empty(&self) -> (empty: bool)
        ensures
            empty == (self@.items.len() == 0),
    {
        self.items.len() == 0
    }

    /// Keeps the first `limit` items, which are the newest, and drops the rest.
    pub fn limit_items(&mut self, limit: usize)
        ensures
            final(self)@.name == old(self)@.name,
            final(self)@.items == if limit <= old(self)@.items.len() {
                old(self)@.items.take(limit as int)
            } else {
                old(self)@.items
            },
    {
        self.items.truncate(limit);
    }
}

/// The formats in which a feed can have been found.
#[derive(Clone, Copy, Debug, PartialEq, Eq, Structural)]
pub enum FeedFormat {
    Atom10,
    Rss20,
    Other,
}

/// Whether feeds of this format are read without a warning: Atom 1.0 and
/// RSS 2.0 are. A feed of another format is read all the same.
pub fn is_supported(format: FeedFormat) -> (supported: bool)
    ensures
        supported == (format == FeedFormat::Atom10 || format == FeedFormat::Rss20),
{
    match format {
        FeedFormat::Atom10 => true,
        FeedFormat::Rss20 => true,
        FeedFormat::Other => false,
    }
}

/// What a fetch that did not fail brought: the format of the feed and its
/// items, newest first.
#[derive(Clone, Debug, PartialEq, Eq)]
pub struct FetchedFeed {
    pub format: FeedFormat,
    pub items: Vec<RawFeedItem>,
}

/// How the fetch for one subscription ended: `fetched` is `None` where it
/// failed.
#[derive(Clone, Debug, PartialEq, Eq)]
pub struct FetchOutcome {
    pub name: String,
    pub fetched: Option<FetchedFeed>,
}

/// An outcome as the contracts see it: the name, and the raw items where the
/// fetch did not fail.
pub struct OutcomeView {
    pub name: Seq<char>,
    pub items: Option<Seq<RawView>>,
}

impl FetchOutcome {
    pub open spec fn view(&self) -> OutcomeView {
        OutcomeView {
            name: self.name@,
            items: match self.fetched {
                Some(feed) => Some(raws_view(feed.items@)),
                None => None,
            },
        }
    }
}

/// What the contracts see of a vector of outcomes.
pub open spec fn outcomes_view(outcomes: Seq<FetchOutcome>) -> Seq<OutcomeView> {
    outcomes.map_values(|outcome: FetchOutcome| outcome@)
}

/// What the contracts see of a vector of feeds.
pub open spec fn feeds_view(feeds: Seq<Feed>) -> Seq<FeedView> {
    feeds.map_values(|feed: Feed| feed@)
}

/// The feed that stands for a fetch: the items read from it, cut off at
/// `since`. A failed fetch gives none.
pub open spec fn feed_of(outcome: OutcomeView, since: Timestamp) -> Option<FeedView> {
    match outcome.items {
        Some(raws) => Some(
            FeedView { name: outcome.name, items: newest_since(converted_all(raws), since) },
        ),
        None => None,
    }
}

/// A feed is reported unless it has no items and such feeds are to be skipped.
pub open spec fn reported(feed: FeedView, skip_empty: bool) -> bool {
    !(skip_empty && feed.items.len() == 0)
}

/// The feed to report for a fetch, if there is one: the feed that stands for
/// it, where it did not fail and that feed is reported.
pub open spec fn report_of(outcome: OutcomeView, since: Timestamp, skip_empty: bool) -> Option<
    FeedView,
> {
    match feed_of(outcome, since) {
        Some(feed) => if reported(feed, skip_empty) {
            Some(feed)
        } else {
            None
        },
        None => None,
    }
}

/// The feeds to report, in the order of the outcomes.
pub open spec fn collected(outcomes: Seq<OutcomeView>, since: Timestamp, skip_empty: bool) -> Seq<
    FeedView,
> {
    outcomes.filter_map(|outcome: OutcomeView| report_of(outcome, since, skip_empty))
}

/// Skipping takes out exactly the feeds without items: what is collected with
/// empty feeds skipped is what is collected without skipping, less the feeds
/// that have no item. Without skipping, every fetch that did not fail has its
/// feed in the result, with no items where none is left.
pub proof fn lemma_skip_empty(outcomes: Seq<OutcomeView>, since: Timestamp)
    ensures
        collected(outcomes, since, false) == outcomes.filter_map(
            |outcome: OutcomeView| feed_of(outcome, since),
        ),
        collected(outcomes, since, true) == collected(outcomes, since, false).filter(
            |feed: FeedView| feed.items.len() > 0,
        ),
    decreases outcomes.len(),
{
    reveal(Seq::filter);
    if outcomes.len() > 0 {
        let front = outcomes.drop_last();
        lemma_skip_empty(front, since);
        if let Some(feed) = feed_of(outcomes.last(), since) {
            let all = collected(front, since, false);
            assert((all + seq![feed]).drop_last() == all);
        }
    }
}

/// One outcome more adds its feed, if it has one to report.
proof fn lemma_collected_step(
    outcomes: Seq<OutcomeView>,
    since: Timestamp,
    skip_empty: bool,
    i: int,
)
    requires
        0 <= i < outcomes.len(),
    ensures
        collected(outcomes.take(i + 1), since, skip_empty) == match report_of(
            outcomes[i],
            since,
            skip_empty,
        ) {
            Some(feed) => collected(outcomes.take(i), since, skip_empty).push(feed),
            None => collected(outcomes.take(i), since, skip_empty),
        },
{
    outcomes.lemma_filter_map_take_succ(
        |outcome: OutcomeView| report_of(outcome, since, skip_empty),
        i,
    );
}

/// One item more among the raw items adds what is read from it, if it is read.
proof fn lemma_converted_step(raws: Seq<RawView>, i: int)
    requires
        0 <= i < raws.len(),
    ensures
        converted_all(raws.take(i + 1)) == match converted(raws[i]) {
            Some(item) => converted_all(raws.take(i)).push(item),
            None => converted_all(raws.take(i)),
        },
{
    raws.lemma_filter_map_take_succ(|raw: RawView| converted(raw), i);
}

/// What is read from the first raw items stands at the front of what is read
/// from all of them.
proof fn lemma_converted_prefix(raws: Seq<RawView>, i: int, j: int)
    requires
        0 <= i <= j <= raws.len(),
    ensures
        converted_all(raws.take(i)).len() <= converted_all(raws.take(j)).len(),
        converted_all(raws.take(j)).take(converted_all(raws.take(i)).len() as int)
            == converted_all(raws.take(i)),
    decreases j - i,
{
    if i < j {
        lemma_converted_prefix(raws, i, j - 1);
        lemma_converted_step(raws, j - 1);
    }
}

/// Reads the items that a fetch brought, newest first, up to the first one
/// that is older than `since`. An item that cannot be read is passed over; what
/// follows the first older item is not looked at.
pub fn get_items_from_feed(name: String, raws: &Vec<RawFeedItem>, since: &Timestamp) -> (feed: Feed)
    ensures
        feed@ == (FeedView {
            name: name@,
            items: newest_since(converted_all(raws_view(raws@)), *since),
        }),
{
    let ghost all = raws_view(raws@);
    let mut items: Vec<FeedItem> = Vec::new();
    let mut i: usize = 0;
    while i < raws.len()
        invariant
            i <= raws@.len(),
            all == raws_view(raws@),
            items_view(items@) == converted_all(all.take(i as int)),
            forall|k: int| 0 <= k < items@.len() ==> !items_view(items@)[k].timestamp.before(*since),
        decreases raws@.len() - i,
    {
        proof {
            lemma_converted_step(all, i as int);
        }
        if let Ok(item) = FeedItem::try_from(&raws[i]) {
            if item.timestamp.is_before(since) {
                proof {
                    // What was read so far, with this item behind it, stands at
                    // the front of what all the raw items would give.
                    let whole = converted_all(all);
                    let read = converted_all(all.take(i + 1));
                    let n = items@.len() as int;
                    lemma_converted_prefix(all, i + 1, all.len() as int);
                    assert(all.take(all.len() as int) == all);
                    assert forall|k: int| 0 <= k < n implies !whole[k].timestamp.before(
                        *since,
                    ) by {
                        assert(read[k] == items_view(items@)[k]);
                    }
                    assert(whole[n] == read[n]);
                    lemma_fresh_len_is(whole, *since, n);
                    assert(items_view(items@) == whole.take(n));
                }
                return Feed::new(name, items);
            }
            let ghost before = items_view(items@);
            let ghost fresh = item@;
            items.push(item);
            assert(items_view(items@) == before.push(fresh));
        }
        i = i + 1;
    }
    proof {
        assert(all.take(all.len() as int) == all);
        lemma_fresh_len_is(converted_all(all), *since, items@.len() as int);
        assert(items_view(items@) == newest_since(converted_all(all), *since));
    }
    Feed::new(name, items)
}

/// The feed to report for one fetch, if there is one: none for a fetch that
/// failed, and none for a feed without items since `since` where such feeds
/// are skipped.
pub fn feed_from_fetched(outcome: &FetchOutcome, since: &Timestamp, skip_empty_feeds: bool) -> (feed:
    Option<Feed>)
    ensures
        match feed {
            Some(f) => report_of(outcome@, *since, skip_empty_feeds) == Some(f@),
            None => report_of(outcome@, *since, skip_empty_feeds) is None,
        },
{
    match &outcome.fetched {
        Some(fetched) => {
            let feed = get_items_from_feed(outcome.name.clone(), &fetched.items, since);
            if skip_empty_feeds && feed.is_empty() {
                None
            } else {
                Some(feed)
            }
        },
        None => None,
    }
}

/// Collects the feeds with the items that were last updated at `since` or
/// later. A feed whose fetch failed is left out; so is, if `skip_empty_feeds`
/// is set, a feed that has no such item. The feeds come in the order of the
/// outcomes.
pub fn collect_feeds_with_items_since(
    outcomes: &Vec<FetchOutcome>,
    since: &Timestamp,
    skip_empty_feeds: bool,
) -> (feeds: Vec<Feed>)
    ensures
        feeds_view(feeds@) == collected(outcomes_view(outcomes@), *since, skip_empty_feeds),
{
    let ghost all = outcomes_view(outcomes@);
    let mut feeds: Vec<Feed> = Vec::new();
    let mut i: usize = 0;
    while i < outcomes.len()
        invariant
            i <= outcomes@.len(),
            all == outcomes_view(outcomes@),
            feeds_view(feeds@) == collected(all.take(i as int), *since, skip_empty_feeds),
        decreases outcomes@.len() - i,
    {
        proof {
            lemma_collected_step(all, *since, skip_empty_feeds, i as int);
        }
        if let Some(feed) = feed_from_fetched(&outcomes[i], since, skip_empty_feeds) {
            feeds.push(feed);
        }
        i = i + 1;
    }
    proof {
        assert(all.take(all.len() as int) == all);
    }
    feeds
}

/// The subscriptions whose feeds are to be fetched: all of them, or, with a
/// filter, those whose name contains the filter, upper and lower case taken as
/// one.
pub open spec fn selected(entries: Seq<Entry>, filter_name: Option<Seq<char>>) -> Seq<Entry> {
    match filter_name {
        Some(filter) => entries.filter(
            |entry: Entry| contains_text(lowercase_of(entry.0), lowercase_of(filter)),
        ),
        None => entries,
    }
}

/// Picks the subscriptions whose feeds are to be fetched, in order of name.
pub fn select_feeds(db: &Database, filter_name: &Option<String>) -> (picked: Vec<(String, String)>)
    ensures
        pairs_view(picked@) == selected(db.entries(), opt_text(*filter_name)),
{
    let pairs = db.list();
    match filter_name {
        None => pairs,
        Some(filter) => {
            let lowered = lowercase(filter.as_str());
            let ghost all = pairs_view(pairs@);
            let mut picked: Vec<(String, String)> = Vec::new();
            let mut i: usize = 0;
            proof {
                reveal(Seq::filter);
            }
            while i < pairs.len()
                invariant
                    i <= pairs@.len(),
                    all == pairs_view(pairs@),
                    lowered@ == lowercase_of(filter@),
                    pairs_view(picked@) == selected(all.take(i as int), Some(filter@)),
                decreases pairs@.len() - i,
            {
                proof {
                    reveal(Seq::filter);
                    assert(all.take(i + 1).drop_last() == all.take(i as int));
                }
                if name_matches(pairs[i].0.as_str(), lowered.as_str()) {
                    picked.push((pairs[i].0.clone(), pairs[i].1.clone()));
                }
                i = i + 1;
            }
            proof {
                assert(all.take(all.len() as int) == all);
            }
            picked
        },
    }
}

/// A fetch did not fail and brought at least one item.
pub open spec fn brought_items(fetched: Option<FetchedFeed>) -> bool {
    fetched matches Some(feed) && feed.items@.len() > 0
}

/// Enters a new subscription after its address was tried out. An address
/// whose fetch failed or brought no item is refused before anything else is
/// looked at, and the store stays as it is; after that, `add` decides.
pub fn add_feed(
    db: &mut Database,
    name: String,
    url: String,
    fetched: &Option<FetchedFeed>,
) -> (added: Result<String, Error>)
    requires
        old(db).wf(),
    ensures
        final(db).wf(),
        match added {
            Ok(line) => {
                &&& brought_items(*fetched)
                &&& !old(db)@.contains_key(name@)
                &&& final(db)@ == old(db)@.insert(name@, url@)
                &&& line@ == record_line(name@, url@)
            },
            Err(Error::InvalidRssFeedUrl(refused)) => {
                &&& !brought_items(*fetched)
                &&& final(db).entries() == old(db).entries()
                &&& refused@ == url@
            },
            Err(Error::DuplicateName { name: n, new_url, old_url }) => {
                &&& brought_items(*fetched)
                &&& old(db)@.contains_key(name@)
                &&& final(db).entries() == old(db).entries()
                &&& n@ == name@
                &&& new_url@ == url@
                &&& old_url@ == old(db)@[name@]
            },
            Err(Error::ParseTimestamp) => false,
        },
{
    match valid_rss_feed_url(url.as_str(), fetched) {
        Ok(_) => db.add(name, url),
        Err(reason) => Err(reason),
    }
}

/// Checks a fetch made to try out an address: the address is accepted where
/// the fetch did not fail and brought at least one item.
pub fn valid_rss_feed_url(url: &str, fetched: &Option<FetchedFeed>) -> (checked: Result<(), Error>)
    ensures
        match checked {
            Ok(_) => brought_items(*fetched),
            Err(Error::InvalidRssFeedUrl(refused)) => !brought_items(*fetched) && refused@ == url@,
            Err(_) => false,
        },
{
    let found = match fetched {
        Some(feed) => feed.items.len() > 0,
        None => false,
    };
    if found {
        Ok(())
    } else {
        Err(Error::InvalidRssFeedUrl(url.to_owned()))
    }
}

} // verus!
