//! The search: records filtered by tags and by pattern, collected into a
//! report.

use vstd::prelude::*;
use vstd::utf8::*;
use crate::config::Search;
use crate::error::BookmarkError;
use crate::highlight::{wrap_segments, lemma_wrap_reconstructs};
use crate::matcher::{Matcher, match_spans, pattern_compiles, build_regex, wrap_matches};
use crate::record::{Line, parse_line, parsed_record, lines_view};
use crate::report::{BookmarkView, MatchedBookmark, SearchResultOutput, text_len};
use crate::tags::{all_present, tags_present, sorted_tags};
use crate::text::strings_view;

verus! {

/// The pattern of an optional matcher.
pub open spec fn pattern_of(re: Option<Matcher>) -> Option<Seq<char>> {
    match re {
        Some(m) => Some(m.pattern()),
        None => None,
    }
}

/// What the search makes of a record: nothing when a required tag is
/// missing; with no pattern, the record unhighlighted (each field one plain
/// segment, or none when it is empty); with a pattern, the
/// record highlighted when the pattern matches its url or its description,
/// else nothing.
pub open spec fn included(
    pattern: Option<Seq<char>>,
    required: Seq<Seq<char>>,
    record: (Seq<char>, Seq<char>, Seq<Seq<char>>),
) -> Option<BookmarkView> {
    let (url, description, tags) = record;
    if !tags_present(tags, required) {
        None
    } else {
        match pattern {
            None => Some(
                (
                    wrap_segments(url, Seq::empty()),
                    wrap_segments(description, Seq::empty()),
                    sorted_tags(tags),
                ),
            ),
            Some(p) => {
                let url_spans = match_spans(p, url);
                let description_spans = match_spans(p, description);
                if url_spans.len() > 0 || description_spans.len() > 0 {
                    Some(
                        (
                            wrap_segments(url, url_spans),
                            wrap_segments(description, description_spans),
                            sorted_tags(tags),
                        ),
                    )
                } else {
                    None
                }
            },
        }
    }
}

/// Decides whether a record is part of the search result, and how it is shown.
pub fn match_line(re: &Option<Matcher>, search_tags: &[String], line: Line) -> (r: Option<
    MatchedBookmark,
>)
    ensures
        (match r {
            Some(b) => included(pattern_of(*re), strings_view(search_tags@), line@) == Some(b@),
            None => included(pattern_of(*re), strings_view(search_tags@), line@) is None,
        }),
        r matches Some(b) ==> text_len(b.url@) == line.url@.len() && text_len(b.description@)
            == line.description@.len(),
{
    let ghost record = line@;
    if !all_present(line.tags.as_slice(), search_tags) {
        return None;
    }
    match re {
        Some(regex) => {
            let (url_is_match, url) = wrap_matches(regex, line.url.as_str());
            let (desc_is_match, description) = wrap_matches(regex, line.description.as_str());
            proof {
                lemma_wrap_reconstructs(record.0, match_spans(regex.pattern(), record.0));
                lemma_wrap_reconstructs(record.1, match_spans(regex.pattern(), record.1));
            }
            if url_is_match || desc_is_match {
                let b = MatchedBookmark::new(url, description, line.tags);
                return Some(b);
            }
            None
        },
        None => {
            let b = MatchedBookmark::new_tags_only(
                line.url.as_str(),
                line.description.as_str(),
                line.tags,
            );
            Some(b)
        },
    }
}

/// The bookmarks that the search keeps from the stored lines `lines`, in order.
pub open spec fn search_rows(
    pattern: Option<Seq<char>>,
    required: Seq<Seq<char>>,
    lines: Seq<Seq<char>>,
) -> Seq<BookmarkView>
    decreases lines.len(),
{
    if lines.len() == 0 {
        Seq::empty()
    } else {
        let prev = search_rows(pattern, required, lines.drop_last());
        match parsed_record(lines.last()) {
            Some(record) => match included(pattern, required, record) {
                Some(v) => prev.push(v),
                None => prev,
            },
            None => prev,
        }
    }
}

/// The views of report rows.
pub open spec fn rows_view(rows: Seq<MatchedBookmark>) -> Seq<BookmarkView> {
    rows.map_values(|b: MatchedBookmark| b@)
}

/// A search has a pattern, a required tag, or both.
pub open spec fn has_criteria(opts: Search) -> bool {
    opts.regex is Some || opts.tags@.len() > 0
}

/// The search's pattern, if it has one.
pub open spec fn search_pattern(opts: Search) -> Option<Seq<char>> {
    match opts.regex {
        Some(p) => Some(p@),
        None => None,
    }
}

/// The search's pattern compiles, or there is none.
pub open spec fn pattern_ok(opts: Search) -> bool {
    match opts.regex {
        Some(p) => pattern_compiles(p@),
        None => true,
    }
}

/// The stored lines all hold records.
pub open spec fn all_well_formed(lines: Seq<Seq<char>>) -> bool {
    forall|i: int| 0 <= i < lines.len() ==> (#[trigger] parsed_record(lines[i])) is Some
}

/// The number of characters of a text fits in a `usize`.
fn char_count_fits(s: &str)
    ensures
        s@.len() <= usize::MAX,
{
    let n = s.as_bytes().len();
    proof {
        lemma_chars_within_bytes(s@);
    }
}

proof fn lemma_chars_within_bytes(s: Seq<char>)
    ensures
        s.len() <= encode_utf8(s).len(),
    decreases s.len(),
{
    if s.len() > 0 {
        lemma_chars_within_bytes(s.drop_first());
    }
}

/// Checks a search's criteria before any record is read: fails when neither a
/// pattern nor a tag is given, or when the pattern does not compile.
/// Otherwise gives the compiled pattern, if there is one.
pub fn build_query(search_opts: &Search) -> (r: Result<Option<Matcher>, BookmarkError>)
    ensures
        !has_criteria(*search_opts) ==> r matches Err(BookmarkError::MissingCriteria),
        has_criteria(*search_opts) && !pattern_ok(*search_opts) ==> r matches Err(
            BookmarkError::InvalidPattern,
        ),
        has_criteria(*search_opts) && pattern_ok(*search_opts) ==> (r matches Ok(re)
            && pattern_of(re) == search_pattern(*search_opts)),
{
    if search_opts.regex.is_none() && search_opts.tags.len() == 0 {
        return Err(BookmarkError::MissingCriteria);
    }
    match &search_opts.regex {
        Some(regex) => match build_regex(regex.as_str()) {
            Ok(m) => Ok(Some(m)),
            Err(e) => Err(e),
        },
        None => Ok(None),
    }
}

/// Searches the stored lines `lines` (the lines of a bookmarks file after its
/// header) with a compiled pattern, if any, and required tags. Fails on the
/// first line that is not a record. Otherwise the report holds, in order,
/// each record that has all the required tags and, when there is a pattern,
/// whose url or description it matches.
pub fn search_lines(re: &Option<Matcher>, search_tags: &[String], lines: &Vec<String>) -> (r:
    Result<SearchResultOutput, BookmarkError>)
    ensures
        all_well_formed(lines_view(lines@)) ==> (r matches Ok(out) && out.wf() && rows_view(
            out.rows(),
        ) == search_rows(pattern_of(*re), strings_view(search_tags@), lines_view(lines@))),
        !all_well_formed(lines_view(lines@)) ==> (r matches Err(BookmarkError::MalformedRecord(s))
            && exists|i: int|
            0 <= i < lines@.len() && parsed_record(#[trigger] lines@[i]@) is None && s@
                == lines@[i]@ && all_well_formed(lines_view(lines@.subrange(0, i)))),
{
    let ghost pattern = pattern_of(*re);
    let ghost required = strings_view(search_tags@);
    let mut out = SearchResultOutput::new();
    let mut i: usize = 0;
    while i < lines.len()
        invariant
            i <= lines.len(),
            pattern_of(*re) == pattern,
            required == strings_view(search_tags@),
            out.wf(),
            rows_view(out.rows()) == search_rows(
                pattern,
                required,
                lines_view(lines@.subrange(0, i as int)),
            ),
            all_well_formed(lines_view(lines@.subrange(0, i as int))),
        decreases lines.len() - i,
    {
        let ghost prefix = lines_view(lines@.subrange(0, i as int));
        let ghost next = lines_view(lines@.subrange(0, i as int + 1));
        assert(next.drop_last() =~= prefix);
        assert(next.last() == lines@[i as int]@);
        let record = match parse_line(lines[i].as_str()) {
            Ok(record) => record,
            Err(e) => {
                proof {
                    assert(lines_view(lines@)[i as int] == lines@[i as int]@);
                    assert(parsed_record(lines@[i as int]@) is None);
                    assert(!all_well_formed(lines_view(lines@)));
                }
                return Err(e);
            },
        };
        char_count_fits(record.url.as_str());
        char_count_fits(record.description.as_str());
        let ghost rows_before = out.rows();
        if let Some(m) = match_line(re, search_tags, record) {
            out.add_matched_bookmark(m);
            assert(rows_view(out.rows()) =~= rows_view(rows_before).push(m@));
        }
        proof {
            assert forall|k: int| 0 <= k < next.len() implies (#[trigger] parsed_record(
                next[k],
            )) is Some by {
                if k < i {
                    assert(next[k] == prefix[k]);
                }
            }
        }
        i = i + 1;
    }
    assert(lines@.subrange(0, i as int) =~= lines@);
    Ok(out)
}

/// Searches the stored lines `lines` (the lines of a bookmarks file after its
/// header). Fails before reading any line when neither a pattern nor a tag is
/// given, or when the pattern does not compile; fails on the first line that
/// is not a record. Otherwise the report holds, in order, each record that has
/// all the required tags and, when there is a pattern, whose url or
/// description it matches.
pub fn search(search_opts: &Search, lines: &Vec<String>) -> (r: Result<SearchResultOutput, BookmarkError>)
    ensures
        !has_criteria(*search_opts) ==> r matches Err(BookmarkError::MissingCriteria),
        has_criteria(*search_opts) && !pattern_ok(*search_opts) ==> r matches Err(
            BookmarkError::InvalidPattern,
        ),
        has_criteria(*search_opts) && pattern_ok(*search_opts) && all_well_formed(
            lines_view(lines@),
        ) ==> (r matches Ok(out) && out.wf() && rows_view(out.rows()) == search_rows(
            search_pattern(*search_opts),
            strings_view(search_opts.tags@),
            lines_view(lines@),
        )),
        has_criteria(*search_opts) && pattern_ok(*search_opts) && !all_well_formed(
            lines_view(lines@),
        ) ==> (r matches Err(BookmarkError::MalformedRecord(s)) && exists|i: int|
            0 <= i < lines@.len() && parsed_record(#[trigger] lines@[i]@) is None && s@
                == lines@[i]@ && all_well_formed(lines_view(lines@.subrange(0, i)))),
{
    let re = build_query(search_opts)?;
    search_lines(&re, search_opts.tags.as_slice(), lines)
}

} // verus!
