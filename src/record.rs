//! Stored bookmark records: one line per record, fields separated by `|`,
//! tags separated by `,`, below a fixed header line.

use vstd::prelude::*;
use crate::error::BookmarkError;
use crate::text::{strings_view, joined_with, join};

verus! {

/// One stored bookmark.
pub struct Line {
    pub url: String,
    pub description: String,
    pub tags: Vec<String>,
}

impl View for Line {
    type V = (Seq<char>, Seq<char>, Seq<Seq<char>>);

    open spec fn view(&self) -> (Seq<char>, Seq<char>, Seq<Seq<char>>) {
        (self.url@, self.description@, strings_view(self.tags@))
    }
}

/// The pieces of `s` between occurrences of `sep`; one piece when `sep`
/// does not occur, and empty pieces where two separators are adjacent.
pub open spec fn split_on(s: Seq<char>, sep: char) -> Seq<Seq<char>>
    decreases s.len(),
{
    if s.len() == 0 {
        seq![Seq::empty()]
    } else {
        let prev = split_on(s.drop_last(), sep);
        if s.last() == sep {
            prev.push(Seq::empty())
        } else {
            prev.update(prev.len() - 1, prev.last().push(s.last()))
        }
    }
}

/// The record a stored line holds, if it has exactly three fields.
pub open spec fn parsed_record(line: Seq<char>) -> Option<(Seq<char>, Seq<char>, Seq<Seq<char>>)> {
    let fields = split_on(line, '|');
    if fields.len() == 3 {
        Some((fields[0], fields[1], split_on(fields[2], ',')))
    } else {
        None
    }
}

/// The stored line of a record.
pub open spec fn record_line(url: Seq<char>, description: Seq<char>, tags: Seq<Seq<char>>) -> Seq<
    char,
> {
    url + seq!['|'] + description + seq!['|'] + joined_with(tags, seq![','])
}

proof fn lemma_split_on_nonempty(s: Seq<char>, sep: char)
    ensures
        split_on(s, sep).len() >= 1,
    decreases s.len(),
{
    if s.len() > 0 {
        lemma_split_on_nonempty(s.drop_last(), sep);
    }
}

/// Text without the separator is a single piece.
proof fn lemma_split_on_plain(s: Seq<char>, sep: char)
    requires
        !s.contains(sep),
    ensures
        split_on(s, sep) == seq![s],
    decreases s.len(),
{
    if s.len() == 0 {
        assert(s =~= Seq::<char>::empty());
    } else {
        let prev = s.drop_last();
        assert(!prev.contains(sep)) by {
            if prev.contains(sep) {
                let i = choose|i: int| 0 <= i < prev.len() && prev[i] == sep;
                assert(s[i] == sep);
            }
        }
        lemma_split_on_plain(prev, sep);
        assert(s[s.len() - 1] != sep);
        assert(prev.push(s.last()) =~= s);
        assert(seq![prev].update(0, prev.push(s.last())) =~= seq![s]);
    }
}

/// The pieces of two texts joined by the separator are the pieces of the
/// first followed by those of the second.
proof fn lemma_split_on_concat(x: Seq<char>, y: Seq<char>, sep: char)
    ensures
        split_on(x + seq![sep] + y, sep) == split_on(x, sep) + split_on(y, sep),
    decreases y.len(),
{
    let z = x + seq![sep] + y;
    lemma_split_on_nonempty(y, sep);
    if y.len() == 0 {
        assert(z.drop_last() =~= x);
        assert(split_on(x, sep).push(Seq::empty()) =~= split_on(x, sep) + seq![
            Seq::<char>::empty(),
        ]);
    } else {
        let yp = y.drop_last();
        lemma_split_on_concat(x, yp, sep);
        lemma_split_on_nonempty(yp, sep);
        assert(z.drop_last() =~= x + seq![sep] + yp);
        assert(z.last() == y.last());
        let a = split_on(x, sep);
        let b = split_on(yp, sep);
        if y.last() == sep {
            assert((a + b).push(Seq::empty()) =~= a + b.push(Seq::empty()));
        } else {
            assert((a + b).update((a + b).len() - 1, (a + b).last().push(y.last())) =~= a
                + b.update(b.len() - 1, b.last().push(y.last())));
        }
    }
}

proof fn lemma_joined_without(items: Seq<Seq<char>>, sep: Seq<char>, c: char)
    requires
        !sep.contains(c),
        forall|i: int| 0 <= i < items.len() ==> !(#[trigger] items[i]).contains(c),
    ensures
        !joined_with(items, sep).contains(c),
    decreases items.len(),
{
    if items.len() > 1 {
        let prev = items.drop_last();
        assert forall|i: int| 0 <= i < prev.len() implies !(#[trigger] prev[i]).contains(c) by {
            assert(prev[i] == items[i]);
        }
        lemma_joined_without(prev, sep, c);
        let j = joined_with(items, sep);
        let a = joined_with(prev, sep);
        assert(!items[items.len() - 1].contains(c));
        if j.contains(c) {
            let i = choose|i: int| 0 <= i < j.len() && j[i] == c;
            if i < a.len() {
                assert(a[i] == c);
            } else if i < a.len() + sep.len() {
                assert(sep[i - a.len()] == c);
            } else {
                assert(items.last()[i - a.len() - sep.len()] == c);
            }
        }
    } else if items.len() == 1 {
        assert(!items[0].contains(c));
    }
}

proof fn lemma_split_joined(items: Seq<Seq<char>>, sep: char)
    requires
        items.len() > 0,
        forall|i: int| 0 <= i < items.len() ==> !(#[trigger] items[i]).contains(sep),
    ensures
        split_on(joined_with(items, seq![sep]), sep) == items,
    decreases items.len(),
{
    if items.len() == 1 {
        assert(!items[0].contains(sep));
        lemma_split_on_plain(items[0], sep);
        assert(seq![items[0]] =~= items);
    } else {
        let prev = items.drop_last();
        assert forall|i: int| 0 <= i < prev.len() implies !(#[trigger] prev[i]).contains(sep) by {
            assert(prev[i] == items[i]);
        }
        lemma_split_joined(prev, sep);
        assert(!items[items.len() - 1].contains(sep));
        lemma_split_on_plain(items.last(), sep);
        lemma_split_on_concat(joined_with(prev, seq![sep]), items.last(), sep);
        assert(prev + seq![items.last()] =~= items);
    }
}

/// Reading back the stored line of a record gives the record, when no field
/// holds `|`, no tag holds `,`, and there is at least one tag.
pub proof fn lemma_record_round_trip(url: Seq<char>, description: Seq<char>, tags: Seq<Seq<char>>)
    requires
        !url.contains('|'),
        !description.contains('|'),
        tags.len() > 0,
        forall|i: int|
            0 <= i < tags.len() ==> !(#[trigger] tags[i]).contains('|') && !tags[i].contains(','),
    ensures
        parsed_record(record_line(url, description, tags)) == Some((url, description, tags)),
{
    let joined = joined_with(tags, seq![',']);
    assert(!seq![','].contains('|')) by {
        if seq![','].contains('|') {
            let i = choose|i: int| 0 <= i < 1 && seq![','][i] == '|';
        }
    }
    lemma_joined_without(tags, seq![','], '|');
    lemma_split_joined(tags, ',');
    lemma_split_on_plain(url, '|');
    lemma_split_on_plain(description, '|');
    lemma_split_on_plain(joined, '|');
    lemma_split_on_concat(description, joined, '|');
    lemma_split_on_concat(url, description + seq!['|'] + joined, '|');
    assert(record_line(url, description, tags) =~= url + seq!['|'] + (description + seq!['|']
        + joined));
    assert(seq![url] + (seq![description] + seq![joined]) =~= seq![url, description, joined]);
}

/// Splits `s` at every `sep`.
pub fn split(s: &str, sep: char) -> (r: Vec<String>)
    ensures
        strings_view(r@) == split_on(s@, sep),
{
    let n = s.unicode_len();
    let mut pieces: Vec<String> = Vec::new();
    let mut start: usize = 0;
    let mut i: usize = 0;
    assert(s@.subrange(0, 0) =~= Seq::<char>::empty());
    assert(strings_view(pieces@).push(s@.subrange(0, 0)) =~= seq![Seq::<char>::empty()]);
    while i < n
        invariant
            n == s@.len(),
            start <= i <= n,
            split_on(s@.subrange(0, i as int), sep) == strings_view(pieces@).push(
                s@.subrange(start as int, i as int),
            ),
        decreases n - i,
    {
        let c = s.get_char(i);
        let ghost prev = split_on(s@.subrange(0, i as int), sep);
        assert(s@.subrange(0, i as int + 1).drop_last() =~= s@.subrange(0, i as int));
        if c == sep {
            let piece = s.substring_char(start, i).to_owned();
            pieces.push(piece);
            start = i + 1;
            assert(s@.subrange(start as int, i as int + 1) =~= Seq::<char>::empty());
            assert(split_on(s@.subrange(0, i as int + 1), sep) =~= strings_view(pieces@).push(
                s@.subrange(start as int, i as int + 1),
            ));
        } else {
            assert(s@.subrange(start as int, i as int + 1) =~= s@.subrange(
                start as int,
                i as int,
            ).push(c));
            assert(split_on(s@.subrange(0, i as int + 1), sep) =~= strings_view(pieces@).push(
                s@.subrange(start as int, i as int + 1),
            ));
        }
        i = i + 1;
    }
    let last = s.substring_char(start, n).to_owned();
    pieces.push(last);
    assert(s@.subrange(0, n as int) =~= s@);
    assert(strings_view(pieces@) =~= split_on(s@, sep));
    pieces
}

/// Reads a stored line: url, description and tags, separated by `|`, with
/// the tags separated by `,`. A line without exactly three fields is
/// malformed, and the error holds it.
pub fn parse_line(line: &str) -> (r: Result<Line, BookmarkError>)
    ensures
        r is Ok <==> parsed_record(line@) is Some,
        r matches Ok(l) ==> parsed_record(line@) == Some(l@),
        r matches Err(e) ==> (e matches BookmarkError::MalformedRecord(s) && s@ == line@),
{
    let line_parts = split(line, '|');
    if line_parts.len() != 3 {
        return Err(BookmarkError::MalformedRecord(line.to_owned()));
    }
    let url = line_parts[0].clone();
    let description = line_parts[1].clone();
    let tags = split(line_parts[2].as_str(), ',');
    let r = Line { url, description, tags };
    assert(strings_view(line_parts@)[2] == line_parts@[2]@);
    Ok(r)
}

/// The stored line of a bookmark: its fields joined by `|`, its tags by `,`.
pub fn format_line(url: &str, description: &str, tags: &Vec<String>) -> (r: String)
    ensures
        r@ == record_line(url@, description@, strings_view(tags@)),
{
    let mut out = url.to_owned();
    out.append("|");
    out.append(description);
    out.append("|");
    let comma = ",";
    proof {
        reveal_strlit("|");
        reveal_strlit(",");
    }
    assert(comma@ =~= seq![',']);
    let joined = join(tags, comma);
    out.append(joined.as_str());
    assert(out@ =~= record_line(url@, description@, strings_view(tags@)));
    out
}

/// The first line of a bookmarks file, naming its columns.
pub fn header_line() -> (r: String)
    ensures
        r@ == "URL|DESCRIPTION|TAGS"@,
{
    "URL|DESCRIPTION|TAGS".to_owned()
}

/// What a scan of the stored lines for the url `url` finds, line by line:
/// `Some(true)` at the first record with that url, `None` at a line that is
/// not a record before that, `Some(false)` when neither comes.
pub open spec fn url_scan(url: Seq<char>, lines: Seq<Seq<char>>) -> Option<bool>
    decreases lines.len(),
{
    if lines.len() == 0 {
        Some(false)
    } else {
        match parsed_record(lines[0]) {
            None => None,
            Some(record) => if record.0 == url {
                Some(true)
            } else {
                url_scan(url, lines.drop_first())
            },
        }
    }
}

/// The views of stored lines.
pub open spec fn lines_view(lines: Seq<String>) -> Seq<Seq<char>> {
    lines.map_values(|s: String| s@)
}

/// Whether the stored lines `lines` (after the file's header) hold a record
/// with exactly the url `url`. Reads the lines in order and stops at the
/// first such record; fails on a line that is not a record before it.
pub fn url_exists(url: &str, lines: &Vec<String>) -> (r: Result<bool, BookmarkError>)
    ensures
        (match r {
            Ok(found) => url_scan(url@, lines_view(lines@)) == Some(found),
            Err(e) => url_scan(url@, lines_view(lines@)) is None && exists|i: int|
                0 <= i < lines@.len() && parsed_record(#[trigger] lines@[i]@) is None && (e matches BookmarkError::MalformedRecord(s) && s@ == lines@[i]@) && forall|k: int|
                    0 <= k < i ==> (parsed_record(#[trigger] lines@[k]@) matches Some(record)
                        && record.0 != url@),
        }),
{
    let ghost all = lines_view(lines@);
    let mut i: usize = 0;
    assert(all.skip(0) =~= all);
    while i < lines.len()
        invariant
            i <= lines.len(),
            all == lines_view(lines@),
            url_scan(url@, all) == url_scan(url@, all.skip(i as int)),
            forall|k: int|
                0 <= k < i ==> (parsed_record(#[trigger] lines@[k]@) matches Some(record)
                    && record.0 != url@),
        decreases lines.len() - i,
    {
        let ghost rest = all.skip(i as int);
        assert(rest[0] == lines@[i as int]@);
        assert(rest.drop_first() =~= all.skip(i as int + 1));
        let record = parse_line(lines[i].as_str())?;
        let wanted = url.to_owned();
        if record.url == wanted {
            return Ok(true);
        }
        i = i + 1;
    }
    assert(all.skip(i as int) =~= Seq::<Seq<char>>::empty());
    Ok(false)
}

} // verus!
