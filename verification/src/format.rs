//! The subscriptions file: one record per line, a name and an address with a
//! comma between them. Lines end in a line feed, before which one carriage
//! return is dropped; a line without a comma holds no record.

use crate::text::{chars_of, string_of};
use vstd::prelude::*;
use vstd::string::*;

verus! {

/// One record: a name and the address stored under it.
pub type Entry = (Seq<char>, Seq<char>);

/// The map that a sequence of records denotes. Of two records with one name the
/// later one counts.
pub open spec fn map_of(entries: Seq<Entry>) -> Map<Seq<char>, Seq<char>>
    decreases entries.len(),
{
    if entries.len() == 0 {
        Map::empty()
    } else {
        map_of(entries.drop_last()).insert(entries.last().0, entries.last().1)
    }
}

/// The names in the map of some records are the names of those records.
pub proof fn lemma_map_of_names(entries: Seq<Entry>)
    ensures
        forall|name: Seq<char>| #[trigger]
            map_of(entries).contains_key(name) <==> exists|i: int|
                0 <= i < entries.len() && (#[trigger] entries[i]).0 == name,
    decreases entries.len(),
{
    if entries.len() > 0 {
        let front = entries.drop_last();
        lemma_map_of_names(front);
        assert forall|name: Seq<char>| #[trigger]
            map_of(entries).contains_key(name) implies exists|i: int|
            0 <= i < entries.len() && (#[trigger] entries[i]).0 == name by {
            if name != entries.last().0 {
                assert(map_of(front).contains_key(name));
                let i = choose|i: int| 0 <= i < front.len() && (#[trigger] front[i]).0 == name;
                assert(entries[i].0 == name);
            }
        }
        assert forall|name: Seq<char>|
            (exists|i: int| 0 <= i < entries.len() && (#[trigger] entries[i]).0 == name) implies
            #[trigger] map_of(entries).contains_key(name) by {
            let i = choose|i: int| 0 <= i < entries.len() && (#[trigger] entries[i]).0 == name;
            if i < entries.len() - 1 {
                assert(front[i].0 == name);
                assert(map_of(front).contains_key(name));
            }
        }
    }
}

/// What the contracts see of a vector of name and address pairs.
pub open spec fn pairs_view(pairs: Seq<(String, String)>) -> Seq<Entry> {
    pairs.map_values(|p: (String, String)| (p.0@, p.1@))
}

/// The position of the first `c` in `text`; the length of `text` where it holds
/// none.
pub open spec fn first_index_of(text: Seq<char>, c: char) -> nat
    decreases text.len(),
{
    if text.len() == 0 || text[0] == c {
        0
    } else {
        1 + first_index_of(text.drop_first(), c)
    }
}

/// `first_index_of` stays within the text, no `c` stands before it, and one
/// stands at it unless it is the length.
pub proof fn lemma_first_index_of(text: Seq<char>, c: char)
    ensures
        first_index_of(text, c) <= text.len(),
        forall|i: int| 0 <= i < first_index_of(text, c) ==> text[i] != c,
        first_index_of(text, c) < text.len() ==> text[first_index_of(text, c) as int] == c,
    decreases text.len(),
{
    if text.len() > 0 && text[0] != c {
        let rest = text.drop_first();
        lemma_first_index_of(rest, c);
        assert forall|i: int| 0 <= i < first_index_of(text, c) implies text[i] != c by {
            if i > 0 {
                assert(text[i] == rest[i - 1]);
            }
        }
    }
}

/// The one position before which no `c` stands and at which one stands, or the
/// text ends, is `first_index_of`.
pub proof fn lemma_first_index_is(text: Seq<char>, c: char, at: int)
    requires
        0 <= at <= text.len(),
        forall|i: int| 0 <= i < at ==> text[i] != c,
        at < text.len() ==> text[at] == c,
    ensures
        first_index_of(text, c) == at,
{
    lemma_first_index_of(text, c);
}

/// A line as it is read: without the carriage return that may stand at its end.
pub open spec fn strip_cr(line: Seq<char>) -> Seq<char> {
    if line.len() > 0 && line.last() == '\r' {
        line.drop_last()
    } else {
        line
    }
}

/// The lines of a text. Each line feed ends a line, and what follows the last
/// line feed is a line too unless it is empty.
pub open spec fn lines_of(text: Seq<char>) -> Seq<Seq<char>>
    decreases text.len(),
{
    if text.len() == 0 {
        Seq::empty()
    } else {
        let end = first_index_of(text, '\n');
        if end >= text.len() {
            seq![text]
        } else {
            seq![strip_cr(text.take(end as int))] + lines_of(text.skip(end as int + 1))
        }
    }
}

/// The record on a line: what stands before its first comma and what stands
/// after it. A line without a comma holds none.
pub open spec fn record_of(line: Seq<char>) -> Option<Entry> {
    let at = first_index_of(line, ',');
    if at < line.len() {
        Some((line.take(at as int), line.skip(at as int + 1)))
    } else {
        None
    }
}

/// The records on the given lines, in order.
pub open spec fn records_of(lines: Seq<Seq<char>>) -> Seq<Entry>
    decreases lines.len(),
{
    if lines.len() == 0 {
        Seq::empty()
    } else {
        match record_of(lines.last()) {
            Some(entry) => records_of(lines.drop_last()).push(entry),
            None => records_of(lines.drop_last()),
        }
    }
}

/// The subscriptions that a file of this text holds.
pub open spec fn parse_text(text: Seq<char>) -> Map<Seq<char>, Seq<char>> {
    map_of(records_of(lines_of(text)))
}

/// The line that stores one record, with its line ending.
pub open spec fn record_line(name: Seq<char>, url: Seq<char>) -> Seq<char> {
    name + seq![','] + url + seq!['\n']
}

/// The text of a file that holds these records, one line each.
pub open spec fn render(entries: Seq<Entry>) -> Seq<char>
    decreases entries.len(),
{
    if entries.len() == 0 {
        Seq::empty()
    } else {
        render(entries.drop_last()) + record_line(entries.last().0, entries.last().1)
    }
}

/// The text is empty or ends in a line feed, so what is appended to it begins a
/// new line.
pub open spec fn ends_lines(text: Seq<char>) -> bool {
    text.len() == 0 || text.last() == '\n'
}

/// A name that its line gives back: it holds no comma and no line feed.
pub open spec fn plain_name(name: Seq<char>) -> bool {
    !name.contains(',') && !name.contains('\n')
}

/// An address that its line gives back: it holds no line feed and does not end
/// in a carriage return.
pub open spec fn plain_url(url: Seq<char>) -> bool {
    !url.contains('\n') && !(url.len() > 0 && url.last() == '\r')
}

/// Behind a text that ends its lines, the lines of what is appended follow the
/// lines of the text.
pub proof fn lemma_lines_of_concat(head: Seq<char>, tail: Seq<char>)
    requires
        ends_lines(head),
    ensures
        lines_of(head + tail) == lines_of(head) + lines_of(tail),
    decreases head.len(),
{
    if head.len() == 0 {
        assert(head + tail == tail);
    } else {
        // The first line of the whole is the first line of the head.
        let whole = head + tail;
        lemma_first_index_of(head, '\n');
        let end = first_index_of(head, '\n') as int;
        assert(end < head.len());
        lemma_first_index_is(whole, '\n', end);
        let rest = head.skip(end + 1);
        assert(whole.take(end) == head.take(end));
        assert(whole.skip(end + 1) == rest + tail);
        lemma_lines_of_concat(rest, tail);
    }
}

/// A text without a line feed is one line, or none where it is empty; with a
/// line feed behind it, it is one line in either case.
pub proof fn lemma_lines_of_one(line: Seq<char>)
    requires
        !line.contains('\n'),
    ensures
        lines_of(line + seq!['\n']) == seq![strip_cr(line)],
        line.len() > 0 ==> lines_of(line) == seq![line],
        line.len() == 0 ==> lines_of(line) == Seq::<Seq<char>>::empty(),
{
    let ended = line + seq!['\n'];
    lemma_first_index_is(ended, '\n', line.len() as int);
    assert(ended.take(line.len() as int) == line);
    assert(lines_of(ended.skip(line.len() as int + 1)) == Seq::<Seq<char>>::empty());
    if line.len() > 0 {
        lemma_first_index_is(line, '\n', line.len() as int);
    }
}

/// One more line adds its record, if it holds one, to the records.
pub proof fn lemma_records_of_push(lines: Seq<Seq<char>>, line: Seq<char>)
    ensures
        records_of(lines.push(line)) == match record_of(line) {
            Some(entry) => records_of(lines).push(entry),
            None => records_of(lines),
        },
{
    assert(lines.push(line).drop_last() =~= lines);
}

/// One more record enters its pair into the map.
pub proof fn lemma_map_of_push(entries: Seq<Entry>, entry: Entry)
    ensures
        map_of(entries.push(entry)) == map_of(entries).insert(entry.0, entry.1),
{
    assert(entries.push(entry).drop_last() =~= entries);
}

/// The line of a plain name and a plain address reads as that name and that
/// address.
pub proof fn lemma_record_line_reads_back(name: Seq<char>, url: Seq<char>)
    requires
        plain_name(name),
        plain_url(url),
    ensures
        lines_of(record_line(name, url)) == seq![name + seq![','] + url],
        record_of(name + seq![','] + url) == Some((name, url)),
{
    let line = name + seq![','] + url;
    assert(!line.contains('\n'));
    lemma_lines_of_one(line);
    assert(line.last() != '\r');
    assert(record_line(name, url) == line + seq!['\n']);
    lemma_first_index_is(line, ',', name.len() as int);
    assert(line.take(name.len() as int) == name);
    assert(line.skip(name.len() as int + 1) == url);
}

/// What `render` writes ends its lines.
pub proof fn lemma_render_ends_lines(entries: Seq<Entry>)
    ensures
        ends_lines(render(entries)),
{
}

/// Appending the line of a new subscription to a file that ends its lines
/// enters that subscription into what the file holds: a store that is closed
/// and opened again has what was added to it.
pub proof fn lemma_append_record(text: Seq<char>, name: Seq<char>, url: Seq<char>)
    requires
        ends_lines(text),
        plain_name(name),
        plain_url(url),
    ensures
        parse_text(text + record_line(name, url)) == parse_text(text).insert(name, url),
{
    let line = name + seq![','] + url;
    lemma_lines_of_concat(text, record_line(name, url));
    lemma_record_line_reads_back(name, url);
    assert(lines_of(text) + seq![line] =~= lines_of(text).push(line));
    lemma_records_of_push(lines_of(text), line);
    lemma_map_of_push(records_of(lines_of(text)), (name, url));
}

/// Writing records of plain names and addresses to a file and reading the file
/// gives the map of those records.
pub proof fn lemma_render_round_trip(entries: Seq<Entry>)
    requires
        forall|i: int|
            0 <= i < entries.len() ==> plain_name((#[trigger] entries[i]).0) && plain_url(
                entries[i].1,
            ),
    ensures
        parse_text(render(entries)) == map_of(entries),
    decreases entries.len(),
{
    if entries.len() > 0 {
        let front = entries.drop_last();
        let last = entries.last();
        assert forall|i: int| 0 <= i < front.len() implies plain_name((#[trigger] front[i]).0)
            && plain_url(front[i].1) by {
            assert(front[i] == entries[i]);
        }
        lemma_render_round_trip(front);
        lemma_render_ends_lines(front);
        lemma_append_record(render(front), last.0, last.1);
    }
}

/// The line to append to the file for a new subscription.
pub fn entry_line(name: &str, url: &str) -> (line: String)
    ensures
        line@ == record_line(name@, url@),
{
    let mut line = String::from_str(name);
    line.push(',');
    line.append(url);
    line.push('\n');
    line
}

/// The position of the first `c` in `chars[from..to]`, or `to`.
fn find(chars: &Vec<char>, from: usize, to: usize, c: char) -> (at: usize)
    requires
        from <= to <= chars@.len(),
    ensures
        from <= at <= to,
        at - from == first_index_of(chars@.subrange(from as int, to as int), c),
{
    let mut at: usize = from;
    while at < to && chars[at] != c
        invariant
            from <= at <= to <= chars@.len(),
            forall|i: int| from <= i < at ==> chars@[i] != c,
        decreases to - at,
    {
        at = at + 1;
    }
    proof {
        lemma_first_index_is(chars@.subrange(from as int, to as int), c, at - from);
    }
    at
}

/// The record on the line `chars[from..to]`, if it holds one.
fn record_in(chars: &Vec<char>, from: usize, to: usize) -> (found: Option<(String, String)>)
    requires
        from <= to <= chars@.len(),
    ensures
        match found {
            Some(pair) => record_of(chars@.subrange(from as int, to as int)) == Some(
                (pair.0@, pair.1@),
            ),
            None => record_of(chars@.subrange(from as int, to as int)) is None,
        },
{
    let comma = find(chars, from, to, ',');
    if comma < to {
        let name = string_of(chars, from, comma);
        let url = string_of(chars, comma + 1, to);
        proof {
            let line = chars@.subrange(from as int, to as int);
            assert(line.take(comma - from) == name@);
            assert(line.skip(comma - from + 1) == url@);
        }
        Some((name, url))
    } else {
        None
    }
}

/// The record on one line, if it holds one: the text before the first comma
/// and the text after it.
pub fn parse_record(line: &str) -> (found: Option<(String, String)>)
    ensures
        match found {
            Some(pair) => record_of(line@) == Some((pair.0@, pair.1@)),
            None => record_of(line@) is None,
        },
{
    let chars = chars_of(line);
    assert(chars@.subrange(0, chars@.len() as int) =~= line@);
    record_in(&chars, 0, chars.len())
}

/// Reads the records of a subscriptions file, in the order of its lines.
pub fn parse_records(text: &str) -> (records: Vec<(String, String)>)
    ensures
        pairs_view(records@) == records_of(lines_of(text@)),
{
    let chars = chars_of(text);
    let total: usize = chars.len();
    let mut records: Vec<(String, String)> = Vec::new();
    let mut start: usize = 0;
    while start < total
        invariant
            start <= total == chars@.len(),
            chars@ == text@,
            start < total ==> ends_lines(chars@.take(start as int)),
            pairs_view(records@) == records_of(lines_of(chars@.take(start as int))),
        decreases total - start,
    {
        let end = find(&chars, start, total, '\n');
        let ended = end < total;
        let stop: usize = if ended && start < end && chars[end - 1] == '\r' {
            end - 1
        } else {
            end
        };
        let next: usize = if ended {
            end + 1
        } else {
            end
        };
        let found = record_in(&chars, start, stop);
        proof {
            // What was read up to `next` is what was read up to `start` and one
            // line more: `chars[start..stop]`.
            let before = chars@.take(start as int);
            let raw = chars@.subrange(start as int, end as int);
            let line = chars@.subrange(start as int, stop as int);
            lemma_first_index_of(chars@.subrange(start as int, total as int), '\n');
            assert forall|i: int| 0 <= i < raw.len() implies raw[i] != '\n' by {
                assert(raw[i] == chars@.subrange(start as int, total as int)[i]);
            }
            lemma_lines_of_one(raw);
            if ended {
                assert(chars@.take(next as int) == before + (raw + seq!['\n']));
                assert(line == strip_cr(raw));
                lemma_lines_of_concat(before, raw + seq!['\n']);
            } else {
                assert(chars@.take(next as int) == before + raw);
                lemma_lines_of_concat(before, raw);
            }
            assert(lines_of(chars@.take(next as int)) == lines_of(before).push(line));
            lemma_records_of_push(lines_of(before), line);
        }
        if let Some(pair) = found {
            records.push(pair);
        }
        start = next;
    }
    proof {
        assert(chars@.take(total as int) =~= chars@);
    }
    records
}

/// Writes the records of a subscriptions file, one line each.
pub fn render_records(records: &Vec<(String, String)>) -> (text: String)
    ensures
        text@ == render(pairs_view(records@)),
{
    let mut text = String::new();
    let mut i: usize = 0;
    while i < records.len()
        invariant
            i <= records@.len(),
            text@ == render(pairs_view(records@).take(i as int)),
        decreases records@.len() - i,
    {
        let line = entry_line(records[i].0.as_str(), records[i].1.as_str());
        proof {
            let all = pairs_view(records@);
            assert(all.take(i + 1).drop_last() == all.take(i as int));
        }
        text.append(line.as_str());
        i = i + 1;
    }
    proof {
        assert(pairs_view(records@).take(records@.len() as int) =~= pairs_view(records@));
    }
    text
}

} // verus!
