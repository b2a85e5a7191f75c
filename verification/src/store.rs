//! The subscription store: feed addresses by name, kept in order of name.

use crate::error::Error;
use crate::format::{
    entry_line, lemma_map_of_names, lemma_map_of_push, lemma_render_round_trip, map_of,
    pairs_view, parse_records, parse_text, plain_name, plain_url, record_line, render,
    render_records, Entry,
};
use crate::text::{lemma_precedes_asymmetric, lemma_precedes_transitive, precedes, rank, Rank};
use vstd::prelude::*;

verus! {

/// A named feed address.
#[derive(Clone, Debug, PartialEq, Eq)]
pub struct Subscription {
    pub name: String,
    pub url: String,
}

impl Subscription {
    /// The record that this subscription stands for.
    pub open spec fn view(&self) -> Entry {
        (self.name@, self.url@)
    }
}

/// Each record's name comes strictly before the names of all records after it.
pub open spec fn sorted_by_name(entries: Seq<Entry>) -> bool {
    forall|i: int, j: int| 0 <= i < j < entries.len() ==> precedes(entries[i].0, entries[j].0)
}

/// The first `at` names come before `name`, and `name` comes before all the others.
pub open spec fn fits_at(entries: Seq<Entry>, name: Seq<char>, at: int) -> bool {
    &&& 0 <= at <= entries.len()
    &&& forall|j: int| 0 <= j < at ==> precedes(#[trigger] entries[j].0, name)
    &&& forall|j: int| at <= j < entries.len() ==> precedes(name, #[trigger] entries[j].0)
}

/// In a sorted sequence the names are distinct.
pub proof fn lemma_sorted_distinct(entries: Seq<Entry>, i: int, j: int)
    requires
        sorted_by_name(entries),
        0 <= i < entries.len(),
        0 <= j < entries.len(),
        entries[i].0 == entries[j].0,
    ensures
        i == j,
{
    if i < j {
        lemma_precedes_asymmetric(entries[i].0, entries[j].0);
    } else if j < i {
        lemma_precedes_asymmetric(entries[j].0, entries[i].0);
    }
}

/// The map of a sorted sequence holds each record of it, and no other name.
pub proof fn lemma_map_of_sorted(entries: Seq<Entry>)
    requires
        sorted_by_name(entries),
    ensures
        forall|i: int|
            0 <= i < entries.len() ==> map_of(entries).contains_pair(
                (#[trigger] entries[i]).0,
                entries[i].1,
            ),
        forall|name: Seq<char>| #[trigger]
            map_of(entries).contains_key(name) ==> exists|i: int|
                0 <= i < entries.len() && (#[trigger] entries[i]).0 == name,
    decreases entries.len(),
{
    if entries.len() > 0 {
        let front = entries.drop_last();
        let last = entries.last();
        assert(sorted_by_name(front));
        lemma_map_of_sorted(front);
        assert forall|i: int| 0 <= i < entries.len() implies map_of(entries).contains_pair(
            (#[trigger] entries[i]).0,
            entries[i].1,
        ) by {
            if i < entries.len() - 1 {
                assert(front[i] == entries[i]);
                lemma_precedes_asymmetric(entries[i].0, last.0);
            }
        }
        assert forall|name: Seq<char>| #[trigger]
            map_of(entries).contains_key(name) implies exists|i: int|
            0 <= i < entries.len() && (#[trigger] entries[i]).0 == name by {
            if name != last.0 {
                assert(map_of(front).contains_key(name));
                let i = choose|i: int| 0 <= i < front.len() && (#[trigger] front[i]).0 == name;
                assert(entries[i].0 == name);
            }
        }
    }
}

/// Putting a new name at its place keeps the order and adds one pair to the map.
pub proof fn lemma_insert_entry(entries: Seq<Entry>, at: int, name: Seq<char>, url: Seq<char>)
    requires
        sorted_by_name(entries),
        fits_at(entries, name, at),
    ensures
        sorted_by_name(entries.insert(at, (name, url))),
        map_of(entries.insert(at, (name, url))) == map_of(entries).insert(name, url),
{
    let grown = entries.insert(at, (name, url));
    assert(sorted_by_name(grown));
    lemma_map_of_sorted(entries);
    lemma_map_of_sorted(grown);
    let left = map_of(grown);
    let right = map_of(entries).insert(name, url);
    assert forall|k: Seq<char>| left.contains_key(k) implies right.contains_key(k) && left[k]
        == right[k] by {
        let i = choose|i: int| 0 <= i < grown.len() && (#[trigger] grown[i]).0 == k;
        if i < at {
            lemma_precedes_asymmetric(entries[i].0, name);
        } else if i > at {
            lemma_precedes_asymmetric(name, entries[i - 1].0);
        }
    }
    assert forall|k: Seq<char>| right.contains_key(k) implies left.contains_key(k) by {
        if k == name {
            assert(left.contains_pair(grown[at].0, grown[at].1));
        } else {
            let i = choose|i: int| 0 <= i < entries.len() && (#[trigger] entries[i]).0 == k;
            let g = if i < at { i } else { i + 1 };
            assert(left.contains_pair(grown[g].0, grown[g].1));
        }
    }
}

/// Replacing the address of a stored name keeps the order and changes one pair
/// of the map.
pub proof fn lemma_update_entry(entries: Seq<Entry>, at: int, url: Seq<char>)
    requires
        sorted_by_name(entries),
        0 <= at < entries.len(),
    ensures
        sorted_by_name(entries.update(at, (entries[at].0, url))),
        map_of(entries.update(at, (entries[at].0, url))) == map_of(entries).insert(
            entries[at].0,
            url,
        ),
{
    let name = entries[at].0;
    let changed = entries.update(at, (name, url));
    assert(sorted_by_name(changed));
    lemma_map_of_sorted(entries);
    lemma_map_of_sorted(changed);
    let left = map_of(changed);
    let right = map_of(entries).insert(name, url);
    assert forall|k: Seq<char>| left.contains_key(k) implies right.contains_key(k) && left[k]
        == right[k] by {
        let i = choose|i: int| 0 <= i < changed.len() && (#[trigger] changed[i]).0 == k;
        if i != at && entries[i].0 == name {
            lemma_sorted_distinct(entries, i, at);
        }
    }
    assert forall|k: Seq<char>| right.contains_key(k) implies left.contains_key(k) by {
        if k == name {
            assert(left.contains_pair(changed[at].0, changed[at].1));
        } else {
            let i = choose|i: int| 0 <= i < entries.len() && (#[trigger] entries[i]).0 == k;
            assert(left.contains_pair(changed[i].0, changed[i].1));
        }
    }
}

/// Taking one record out keeps the order and takes its name out of the map.
pub proof fn lemma_remove_entry(entries: Seq<Entry>, at: int)
    requires
        sorted_by_name(entries),
        0 <= at < entries.len(),
    ensures
        sorted_by_name(entries.remove(at)),
        map_of(entries.remove(at)) == map_of(entries).remove(entries[at].0),
        forall|i: int|
            0 <= i < entries.remove(at).len() ==> (#[trigger] entries.remove(at)[i]).0
                != entries[at].0,
{
    let name = entries[at].0;
    let rest = entries.remove(at);
    assert forall|i: int| 0 <= i < rest.len() implies (#[trigger] rest[i]).0 != name by {
        let e = if i < at { i } else { i + 1 };
        if rest[i].0 == name {
            lemma_sorted_distinct(entries, e, at);
        }
    }
    assert(sorted_by_name(rest)) by {
        assert forall|i: int, j: int| 0 <= i < j < rest.len() implies precedes(
            rest[i].0,
            rest[j].0,
        ) by {
            let a = if i < at { i } else { i + 1 };
            let b = if j < at { j } else { j + 1 };
            assert(rest[i] == entries[a] && rest[j] == entries[b]);
        }
    }
    lemma_map_of_sorted(entries);
    lemma_map_of_sorted(rest);
    let left = map_of(rest);
    let right = map_of(entries).remove(name);
    assert forall|k: Seq<char>| left.contains_key(k) implies right.contains_key(k) && left[k]
        == right[k] by {
        let i = choose|i: int| 0 <= i < rest.len() && (#[trigger] rest[i]).0 == k;
        let e = if i < at { i } else { i + 1 };
        assert(rest[i] == entries[e]);
    }
    assert forall|k: Seq<char>| right.contains_key(k) implies left.contains_key(k) by {
        let e = choose|e: int| 0 <= e < entries.len() && (#[trigger] entries[e]).0 == k;
        let i = if e < at { e } else { e - 1 };
        assert(left.contains_pair(rest[i].0, rest[i].1));
    }
}

/// The order and the map leave no choice: two sorted sequences of records with
/// one map are one sequence.
pub proof fn lemma_sorted_entries_unique(a: Seq<Entry>, b: Seq<Entry>)
    requires
        sorted_by_name(a),
        sorted_by_name(b),
        map_of(a) == map_of(b),
    ensures
        a == b,
    decreases a.len(),
{
    lemma_map_of_sorted(a);
    lemma_map_of_sorted(b);
    if a.len() == 0 || b.len() == 0 {
        // A record of the longer one would be a name in the map of the empty one.
        assert(a.len() == 0 ==> b.len() == 0) by {
            if b.len() > 0 {
                assert(map_of(b).contains_pair(b[0].0, b[0].1));
            }
        }
        assert(b.len() == 0 ==> a.len() == 0) by {
            if a.len() > 0 {
                assert(map_of(a).contains_pair(a[0].0, a[0].1));
            }
        }
    } else {
        // The last records carry the greatest name of the map, so they are one.
        let la = a.last();
        let lb = b.last();
        assert(map_of(b).contains_key(la.0));
        assert(map_of(a).contains_key(lb.0));
        let j = choose|j: int| 0 <= j < b.len() && (#[trigger] b[j]).0 == la.0;
        let i = choose|i: int| 0 <= i < a.len() && (#[trigger] a[i]).0 == lb.0;
        if j < b.len() - 1 {
            lemma_precedes_asymmetric(b[j].0, lb.0);
            if i < a.len() - 1 {
                lemma_precedes_asymmetric(a[i].0, la.0);
            }
        }
        assert(la == lb);
        lemma_remove_entry(a, a.len() - 1);
        lemma_remove_entry(b, b.len() - 1);
        assert(a.remove(a.len() - 1) == a.drop_last());
        assert(b.remove(b.len() - 1) == b.drop_last());
        lemma_sorted_entries_unique(a.drop_last(), b.drop_last());
        assert(a == a.drop_last().push(la));
        assert(b == b.drop_last().push(lb));
    }
}

/// What `add` makes of a store: a new name is entered, a stored one is left as
/// it is.
pub open spec fn added(
    store: Map<Seq<char>, Seq<char>>,
    name: Seq<char>,
    url: Seq<char>,
) -> Map<Seq<char>, Seq<char>> {
    if store.contains_key(name) {
        store
    } else {
        store.insert(name, url)
    }
}

/// The subscriptions of one user.
#[derive(Clone, Debug)]
pub struct Database {
    feeds: Vec<Subscription>,
}

impl Database {
    /// The records of the store, in the order in which they are listed.
    pub closed spec fn entries(&self) -> Seq<Entry> {
        self.feeds@.map_values(|s: Subscription| s@)
    }

    /// The records are in order of name, so no name occurs twice.
    pub open spec fn wf(&self) -> bool {
        sorted_by_name(self.entries())
    }

    /// The address stored under each name.
    pub open spec fn view(&self) -> Map<Seq<char>, Seq<char>> {
        map_of(self.entries())
    }

    /// A store without subscriptions.
    pub fn new() -> (db: Database)
        ensures
            db.wf(),
            db.entries() == Seq::<Entry>::empty(),
            db@ == Map::<Seq<char>, Seq<char>>::empty(),
    {
        Database { feeds: Vec::new() }
    }

    /// Whether no subscription is stored.
    pub fn is_empty(&self) -> (empty: bool)
        ensures
            empty == (self.entries().len() == 0),
    {
        self.feeds.len() == 0
    }

    /// Where `name` stands, or where it would have to be put.
    fn position(&self, name: &str) -> (r: (usize, bool))
        requires
            self.wf(),
        ensures
            r.0 <= self.entries().len(),
            r.1 ==> r.0 < self.entries().len() && self.entries()[r.0 as int].0 == name@,
            !r.1 ==> fits_at(self.entries(), name@, r.0 as int),
    {
        let mut i: usize = 0;
        while i < self.feeds.len()
            invariant
                i <= self.feeds@.len(),
                self.wf(),
                forall|j: int| 0 <= j < i ==> precedes(#[trigger] self.entries()[j].0, name@),
            decreases self.feeds@.len() - i,
        {
            match rank(self.feeds[i].name.as_str(), name) {
                Rank::Before => {
                    i = i + 1;
                },
                Rank::Same => {
                    return (i, true);
                },
                Rank::After => {
                    proof {
                        let entries = self.entries();
                        assert forall|j: int| i <= j < entries.len() implies precedes(
                            name@,
                            #[trigger] entries[j].0,
                        ) by {
                            if i < j {
                                lemma_precedes_transitive(name@, entries[i as int].0, entries[j].0);
                            }
                        }
                    }
                    return (i, false);
                },
            }
        }
        (i, false)
    }

    /// The address stored under `name`, if there is one.
    pub fn get(&self, name: &str) -> (found: Option<String>)
        requires
            self.wf(),
        ensures
            match found {
                Some(url) => self@.contains_key(name@) && url@ == self@[name@],
                None => !self@.contains_key(name@),
            },
    {
        let (at, here) = self.position(name);
        proof {
            self.lemma_absent(name@, at as int, here);
        }
        if here {
            Some(self.feeds[at].url.clone())
        } else {
            None
        }
    }

    /// A name that fits between two records is not stored.
    proof fn lemma_absent(&self, name: Seq<char>, at: int, here: bool)
        requires
            self.wf(),
            here ==> 0 <= at < self.entries().len() && self.entries()[at].0 == name,
            !here ==> fits_at(self.entries(), name, at),
        ensures
            here == self@.contains_key(name),
            here ==> self@[name] == self.entries()[at].1,
    {
        let entries = self.entries();
        lemma_map_of_sorted(entries);
        if !here && self@.contains_key(name) {
            let i = choose|i: int| 0 <= i < entries.len() && (#[trigger] entries[i]).0 == name;
            if i < at {
                lemma_precedes_asymmetric(entries[i].0, name);
            } else {
                lemma_precedes_asymmetric(name, entries[i].0);
            }
        }
    }

    /// Enters a new subscription and returns the line to append to the file. A
    /// name that is stored already is refused, and the store stays as it is.
    pub fn add(&mut self, name: String, url: String) -> (r: Result<String, Error>)
        requires
            old(self).wf(),
        ensures
            final(self).wf(),
            final(self)@ == added(old(self)@, name@, url@),
            match r {
                Ok(line) => !old(self)@.contains_key(name@) && line@ == record_line(name@, url@),
                Err(Error::DuplicateName { name: n, new_url, old_url }) => {
                    &&& old(self)@.contains_key(name@)
                    &&& final(self).entries() == old(self).entries()
                    &&& n@ == name@
                    &&& new_url@ == url@
                    &&& old_url@ == old(self)@[name@]
                },
                Err(_) => false,
            },
    {
        let (at, here) = self.position(name.as_str());
        proof {
            self.lemma_absent(name@, at as int, here);
        }
        if here {
            let old_url = self.feeds[at].url.clone();
            Err(Error::DuplicateName { name, new_url: url, old_url })
        } else {
            let line = entry_line(name.as_str(), url.as_str());
            let ghost before = self.entries();
            let ghost record = (name@, url@);
            self.feeds.insert(at, Subscription { name, url });
            proof {
                assert(self.entries() =~= before.insert(at as int, record));
                lemma_insert_entry(before, at as int, record.0, record.1);
            }
            Ok(line)
        }
    }

    /// Stores `url` under `name`, in place of what was stored under it: what a
    /// later line of the file does to an earlier one of the same name.
    fn set(&mut self, name: String, url: String)
        requires
            old(self).wf(),
        ensures
            final(self).wf(),
            final(self)@ == old(self)@.insert(name@, url@),
    {
        let (at, here) = self.position(name.as_str());
        let ghost before = self.entries();
        let ghost record = (name@, url@);
        if here {
            self.feeds.set(at, Subscription { name, url });
            proof {
                assert(self.entries() =~= before.update(at as int, record));
                lemma_update_entry(before, at as int, record.1);
            }
        } else {
            self.feeds.insert(at, Subscription { name, url });
            proof {
                assert(self.entries() =~= before.insert(at as int, record));
                lemma_insert_entry(before, at as int, record.0, record.1);
            }
        }
    }

    /// Takes the subscription of this name out and returns its address. A name
    /// that is not stored leaves the store as it is.
    pub fn remove(&mut self, name: &str) -> (removed: Option<String>)
        requires
            old(self).wf(),
        ensures
            final(self).wf(),
            final(self)@ == old(self)@.remove(name@),
            forall|i: int|
                0 <= i < final(self).entries().len() ==> (#[trigger] final(self).entries()[i]).0
                    != name@,
            match removed {
                Some(url) => old(self)@.contains_key(name@) && url@ == old(self)@[name@],
                None => !old(self)@.contains_key(name@) && final(self).entries() == old(
                    self,
                ).entries(),
            },
    {
        let (at, here) = self.position(name);
        let ghost before = self.entries();
        proof {
            self.lemma_absent(name@, at as int, here);
            lemma_map_of_sorted(before);
        }
        if here {
            let gone = self.feeds.remove(at);
            proof {
                assert(self.entries() =~= before.remove(at as int));
                lemma_remove_entry(before, at as int);
            }
            Some(gone.url)
        } else {
            None
        }
    }

    /// The subscriptions as pairs of name and address, in order of name.
    pub fn list(&self) -> (pairs: Vec<(String, String)>)
        ensures
            pairs_view(pairs@) == self.entries(),
    {
        let mut pairs: Vec<(String, String)> = Vec::new();
        let mut i: usize = 0;
        while i < self.feeds.len()
            invariant
                i <= self.feeds@.len(),
                pairs@.len() == i,
                forall|j: int|
                    0 <= j < i ==> (#[trigger] pairs@[j]).0@ == self.entries()[j].0
                        && pairs@[j].1@ == self.entries()[j].1,
            decreases self.feeds@.len() - i,
        {
            pairs.push((self.feeds[i].name.clone(), self.feeds[i].url.clone()));
            i = i + 1;
        }
        pairs
    }

    /// The store that a subscriptions file of this text holds.
    pub fn from_text(text: &str) -> (db: Database)
        ensures
            db.wf(),
            db@ == parse_text(text@),
    {
        let records = parse_records(text);
        let mut db = Database::new();
        let mut i: usize = 0;
        while i < records.len()
            invariant
                i <= records@.len(),
                db.wf(),
                db@ == map_of(pairs_view(records@).take(i as int)),
            decreases records@.len() - i,
        {
            proof {
                let all = pairs_view(records@);
                assert(all.take(i + 1) =~= all.take(i as int).push(all[i as int]));
                lemma_map_of_push(all.take(i as int), all[i as int]);
            }
            db.set(records[i].0.clone(), records[i].1.clone());
            i = i + 1;
        }
        proof {
            assert(pairs_view(records@).take(records@.len() as int) =~= pairs_view(records@));
        }
        db
    }

    /// The text of a subscriptions file that holds this store: one line for
    /// each subscription, in order of name.
    pub fn to_text(&self) -> (text: String)
        ensures
            text@ == render(self.entries()),
    {
        let pairs = self.list();
        render_records(&pairs)
    }
}

/// What a run of `add` calls, one for each pair in turn, makes of a store.
pub open spec fn added_all(
    store: Map<Seq<char>, Seq<char>>,
    pairs: Seq<Entry>,
) -> Map<Seq<char>, Seq<char>>
    decreases pairs.len(),
{
    if pairs.len() == 0 {
        store
    } else {
        added(added_all(store, pairs.drop_last()), pairs.last().0, pairs.last().1)
    }
}

/// Adding a name that is stored already changes nothing, whatever address comes
/// with it: after two calls for one name the store holds what the first call
/// left, and a name that was new to it has the first address.
pub proof fn lemma_add_twice(
    store: Map<Seq<char>, Seq<char>>,
    name: Seq<char>,
    first: Seq<char>,
    second: Seq<char>,
)
    ensures
        added(added(store, name, first), name, second) == added(store, name, first),
        !store.contains_key(name) ==> added(added(store, name, first), name, second)[name]
            == first,
{
}

/// A store that was filled by `add` with pairs of distinct plain names and plain
/// addresses, each line appended to an empty file as it was returned, is read
/// back from that file as it stands.
pub proof fn lemma_adds_round_trip(pairs: Seq<Entry>)
    requires
        forall|i: int, j: int| 0 <= i < j < pairs.len() ==> pairs[i].0 != pairs[j].0,
        forall|i: int|
            0 <= i < pairs.len() ==> plain_name((#[trigger] pairs[i]).0) && plain_url(pairs[i].1),
    ensures
        parse_text(render(pairs)) == added_all(Map::empty(), pairs),
{
    lemma_render_round_trip(pairs);
    lemma_added_all_distinct(pairs);
}

/// Pairs of distinct names, added in turn to an empty store, give the map of
/// those pairs.
pub proof fn lemma_added_all_distinct(pairs: Seq<Entry>)
    requires
        forall|i: int, j: int| 0 <= i < j < pairs.len() ==> pairs[i].0 != pairs[j].0,
    ensures
        added_all(Map::empty(), pairs) == map_of(pairs),
    decreases pairs.len(),
{
    if pairs.len() > 0 {
        let front = pairs.drop_last();
        assert forall|i: int, j: int| 0 <= i < j < front.len() implies front[i].0
            != front[j].0 by {
            assert(front[i] == pairs[i] && front[j] == pairs[j]);
        }
        lemma_added_all_distinct(front);
        lemma_map_of_names(front);
        if map_of(front).contains_key(pairs.last().0) {
            let i = choose|i: int| 0 <= i < front.len() && (#[trigger] front[i]).0 == pairs.last().0;
            assert(pairs[i].0 == pairs.last().0);
        }
    }
}

} // verus!
