//! The search report: matched bookmarks, collected until the search ends,
//! then rendered as aligned columns.

use vstd::prelude::*;
use crate::highlight::{wrap_segments, wrap_spans, lemma_wrap_no_spans};
use crate::tags::{sort_tags, sorted_tags};
use crate::text::{
    TextPart, parts_view, joined_text, styled_text, spaces, joined_with, strings_view,
    generate_padding, join,
};

verus! {

/// The number of characters that a sequence of text parts stands for,
/// without any styling.
pub open spec fn text_len(parts: Seq<TextPart>) -> nat {
    joined_text(parts_view(parts)).len()
}

/// The separator between displayed tags.
pub open spec fn tag_separator() -> Seq<char> {
    seq![' ', '|', ' ']
}

/// A bookmark that passed the search: its url and description split into
/// matched and plain parts, and its tags in display order.
pub struct MatchedBookmark {
    pub url: Vec<TextPart>,
    pub description: Vec<TextPart>,
    pub tags: Vec<String>,
}

/// A matched bookmark as texts: url segments, description segments, tags.
pub type BookmarkView = (Seq<(bool, Seq<char>)>, Seq<(bool, Seq<char>)>, Seq<Seq<char>>);

impl View for MatchedBookmark {
    type V = BookmarkView;

    open spec fn view(&self) -> BookmarkView {
        (parts_view(self.url@), parts_view(self.description@), strings_view(self.tags@))
    }
}

impl MatchedBookmark {
    /// A bookmark included on its tags alone: nothing in it is highlighted.
    /// Each field is one plain segment, or no segment when it is empty.
    pub fn new_tags_only(url: &str, description: &str, tags: Vec<String>) -> (r: Self)
        ensures
            parts_view(r.url@) == wrap_segments(url@, Seq::empty()),
            parts_view(r.description@) == wrap_segments(description@, Seq::empty()),
            parts_view(r.url@) == (if url@.len() == 0 {
                Seq::<(bool, Seq<char>)>::empty()
            } else {
                seq![(false, url@)]
            }),
            parts_view(r.description@) == (if description@.len() == 0 {
                Seq::<(bool, Seq<char>)>::empty()
            } else {
                seq![(false, description@)]
            }),
            text_len(r.url@) == url@.len(),
            text_len(r.description@) == description@.len(),
            strings_view(r.tags@) == sorted_tags(strings_view(tags@)),
    {
        let no_spans: Vec<(usize, usize)> = Vec::new();
        proof {
            lemma_wrap_no_spans(url@);
            lemma_wrap_no_spans(description@);
            assert(no_spans@ =~= Seq::<(usize, usize)>::empty());
        }
        let (_, url_parts) = wrap_spans(url, &no_spans);
        let (_, description_parts) = wrap_spans(description, &no_spans);
        MatchedBookmark::new(url_parts, description_parts, tags)
    }

    /// A matched bookmark; its tags are put in display order, case-insensitively
    /// sorted and in their own case.
    pub fn new(url: Vec<TextPart>, description: Vec<TextPart>, tags: Vec<String>) -> (r: Self)
        ensures
            r.url@ == url@,
            r.description@ == description@,
            strings_view(r.tags@) == sorted_tags(strings_view(tags@)),
    {
        let tags = sort_tags(&tags);
        Self { url, description, tags }
    }

    /// Number of characters in the url, without styling.
    fn url_len(&self) -> (r: usize)
        requires
            text_len(self.url@) <= usize::MAX,
        ensures
            r == text_len(self.url@),
    {
        TextPart::vec_len(&self.url)
    }

    /// The url as shown on the terminal.
    fn url_pretty_string(&self) -> (r: String)
        ensures
            r@ == styled_text(parts_view(self.url@)),
    {
        TextPart::pretty_string(&self.url)
    }

    /// Number of characters in the description, without styling.
    fn description_len(&self) -> (r: usize)
        requires
            text_len(self.description@) <= usize::MAX,
        ensures
            r == text_len(self.description@),
    {
        TextPart::vec_len(&self.description)
    }

    /// The description as shown on the terminal.
    fn description_pretty_string(&self) -> (r: String)
        ensures
            r@ == styled_text(parts_view(self.description@)),
    {
        TextPart::pretty_string(&self.description)
    }

    /// The tags as shown on the terminal.
    fn tags_pretty_string(&self) -> (r: String)
        ensures
            r@ == joined_with(strings_view(self.tags@), tag_separator()),
    {
        let sep = " | ";
        proof {
            reveal_strlit(" | ");
        }
        assert(sep@ =~= tag_separator());
        join(&self.tags, sep)
    }
}

/// The widest url of the rows, without styling; zero for no rows.
pub open spec fn max_url_len(rows: Seq<MatchedBookmark>) -> nat
    decreases rows.len(),
{
    if rows.len() == 0 {
        0
    } else {
        let w = max_url_len(rows.drop_last());
        let n = text_len(rows.last().url@);
        if n > w {
            n
        } else {
            w
        }
    }
}

/// The widest description of the rows, without styling; zero for no rows.
pub open spec fn max_description_len(rows: Seq<MatchedBookmark>) -> nat
    decreases rows.len(),
{
    if rows.len() == 0 {
        0
    } else {
        let w = max_description_len(rows.drop_last());
        let n = text_len(rows.last().description@);
        if n > w {
            n
        } else {
            w
        }
    }
}

/// The report line of a row: the styled url padded to the url column, a
/// space, the styled description padded to the description column, a space,
/// and the tags joined by `" | "`.
pub open spec fn row_line(row: MatchedBookmark, url_width: nat, description_width: nat) -> Seq<
    char,
> {
    styled_text(parts_view(row.url@)) + spaces((url_width - text_len(row.url@)) as nat) + seq![
        ' ',
    ] + styled_text(parts_view(row.description@)) + spaces(
        (description_width - text_len(row.description@)) as nat,
    ) + seq![' '] + joined_with(strings_view(row.tags@), tag_separator())
}

/// Every row is no wider than the widest.
pub proof fn lemma_max_len_bounds(rows: Seq<MatchedBookmark>)
    ensures
        forall|i: int|
            0 <= i < rows.len() ==> text_len(#[trigger] rows[i].url@) <= max_url_len(rows)
                && text_len(rows[i].description@) <= max_description_len(rows),
    decreases rows.len(),
{
    if rows.len() > 0 {
        lemma_max_len_bounds(rows.drop_last());
        assert forall|i: int| 0 <= i < rows.len() implies text_len(#[trigger] rows[i].url@)
            <= max_url_len(rows) && text_len(rows[i].description@) <= max_description_len(
            rows,
        ) by {
            if i < rows.len() - 1 {
                assert(rows[i] == rows.drop_last()[i]);
            }
        }
    }
}

/// The rows of a search result, with the width of the url and description
/// columns over all of them.
pub struct SearchResultOutput {
    url_max: usize,
    desc_max: usize,
    lines: Vec<MatchedBookmark>,
}

impl SearchResultOutput {
    /// The rows, in the order they were added.
    pub closed spec fn rows(&self) -> Seq<MatchedBookmark> {
        self.lines@
    }

    /// The width of the url column.
    pub closed spec fn url_width(&self) -> nat {
        self.url_max as nat
    }

    /// The width of the description column.
    pub closed spec fn description_width(&self) -> nat {
        self.desc_max as nat
    }

    /// The column widths are the widest url and description of the rows.
    pub open spec fn wf(&self) -> bool {
        &&& self.url_width() == max_url_len(self.rows())
        &&& self.description_width() == max_description_len(self.rows())
    }

    /// An empty report.
    pub fn new() -> (r: Self)
        ensures
            r.wf(),
            r.rows() == Seq::<MatchedBookmark>::empty(),
            r.url_width() == 0,
            r.description_width() == 0,
    {
        Self { url_max: 0, desc_max: 0, lines: Vec::new() }
    }

    /// Adds a row at the end; each column widens to the row if it is wider.
    pub fn add_matched_bookmark(&mut self, matched_bookmark: MatchedBookmark)
        requires
            old(self).wf(),
            text_len(matched_bookmark.url@) <= usize::MAX,
            text_len(matched_bookmark.description@) <= usize::MAX,
        ensures
            final(self).wf(),
            final(self).rows() == old(self).rows().push(matched_bookmark),
            final(self).url_width() == if text_len(matched_bookmark.url@) > old(self).url_width() {
                text_len(matched_bookmark.url@)
            } else {
                old(self).url_width()
            },
            final(self).description_width() == if text_len(matched_bookmark.description@)
                > old(self).description_width() {
                text_len(matched_bookmark.description@)
            } else {
                old(self).description_width()
            },
    {
        let url_len = matched_bookmark.url_len();
        if url_len > self.url_max {
            self.url_max = url_len;
        }
        let desc_len = matched_bookmark.description_len();
        if desc_len > self.desc_max {
            self.desc_max = desc_len;
        }
        let ghost before = self.lines@;
        self.lines.push(matched_bookmark);
        assert(self.lines@.drop_last() =~= before);
    }

    /// The report's lines, one per row in the order the rows were added, each
    /// padded so that the columns line up whatever the styling.
    pub fn render(&self) -> (r: Vec<String>)
        requires
            self.wf(),
        ensures
            r@.len() == self.rows().len(),
            forall|i: int|
                0 <= i < r@.len() ==> (#[trigger] r@[i])@ == row_line(
                    self.rows()[i],
                    self.url_width(),
                    self.description_width(),
                ),
    {
        proof {
            lemma_max_len_bounds(self.lines@);
        }
        let mut out: Vec<String> = Vec::new();
        let mut i: usize = 0;
        while i < self.lines.len()
            invariant
                i <= self.lines.len(),
                self.wf(),
                out@.len() == i,
                forall|k: int|
                    0 <= k < self.lines@.len() ==> text_len(#[trigger] self.lines@[k].url@)
                        <= self.url_max && text_len(self.lines@[k].description@) <= self.desc_max,
                forall|k: int|
                    0 <= k < i ==> (#[trigger] out@[k])@ == row_line(
                        self.lines@[k],
                        self.url_max as nat,
                        self.desc_max as nat,
                    ),
            decreases self.lines.len() - i,
        {
            let line = &self.lines[i];
            let url_len = line.url_len();
            let desc_len = line.description_len();
            let mut s = line.url_pretty_string();
            let pad = generate_padding(url_len, self.url_max);
            s.append(pad.as_str());
            s.append(" ");
            let desc = line.description_pretty_string();
            s.append(desc.as_str());
            let pad = generate_padding(desc_len, self.desc_max);
            s.append(pad.as_str());
            s.append(" ");
            let tags = line.tags_pretty_string();
            s.append(tags.as_str());
            proof {
                reveal_strlit(" ");
            }
            assert(s@ =~= row_line(self.lines@[i as int], self.url_max as nat, self.desc_max as nat));
            out.push(s);
            i = i + 1;
        }
        out
    }
}

} // verus!
