//! A report of pre-rendered rows: each row brings its url and description
//! already formatted, together with their widths on the terminal.

use vstd::prelude::*;
use crate::report::tag_separator;
use crate::text::{spaces, joined_with, strings_view, generate_padding, join};

verus! {

/// A row as texts: url, its width, description, its width, and tags.
pub type RowView = (Seq<char>, nat, Seq<char>, nat, Seq<char>);

struct OutputLine {
    url: String,
    url_len: usize,
    description: String,
    desc_len: usize,
    tags: String,
}

/// The widest url width of the rows; zero for no rows.
pub open spec fn max_url_width(rows: Seq<RowView>) -> nat
    decreases rows.len(),
{
    if rows.len() == 0 {
        0
    } else {
        let w = max_url_width(rows.drop_last());
        if rows.last().1 > w {
            rows.last().1
        } else {
            w
        }
    }
}

/// The widest description width of the rows; zero for no rows.
pub open spec fn max_description_width(rows: Seq<RowView>) -> nat
    decreases rows.len(),
{
    if rows.len() == 0 {
        0
    } else {
        let w = max_description_width(rows.drop_last());
        if rows.last().3 > w {
            rows.last().3
        } else {
            w
        }
    }
}

proof fn lemma_max_width_bounds(rows: Seq<RowView>)
    ensures
        forall|i: int|
            0 <= i < rows.len() ==> (#[trigger] rows[i]).1 <= max_url_width(rows) && rows[i].3
                <= max_description_width(rows),
    decreases rows.len(),
{
    if rows.len() > 0 {
        lemma_max_width_bounds(rows.drop_last());
        assert forall|i: int| 0 <= i < rows.len() implies (#[trigger] rows[i]).1 <= max_url_width(
            rows,
        ) && rows[i].3 <= max_description_width(rows) by {
            if i < rows.len() - 1 {
                assert(rows[i] == rows.drop_last()[i]);
            }
        }
    }
}

/// The report line of a row: url padded to the url column, a space, the
/// description padded to the description column, a space, and the tags.
pub open spec fn format_row(row: RowView, url_width: nat, description_width: nat) -> Seq<char> {
    row.0 + spaces((url_width - row.1) as nat) + seq![' '] + row.2 + spaces(
        (description_width - row.3) as nat,
    ) + seq![' '] + row.4
}

/// The views of string slices.
pub open spec fn strs_view(v: Seq<&str>) -> Seq<Seq<char>> {
    v.map_values(|s: &str| s@)
}

/// Rows collected for output, with the widths of the url and description
/// columns over all of them.
pub struct FormatOutput {
    url_max: usize,
    desc_max: usize,
    lines: Vec<OutputLine>,
}

impl FormatOutput {
    /// The rows, in the order they were added.
    pub closed spec fn rows(&self) -> Seq<RowView> {
        self.lines@.map_values(
            |l: OutputLine| (l.url@, l.url_len as nat, l.description@, l.desc_len as nat, l.tags@),
        )
    }

    /// The width of the url column.
    pub closed spec fn url_width(&self) -> nat {
        self.url_max as nat
    }

    /// The width of the description column.
    pub closed spec fn description_width(&self) -> nat {
        self.desc_max as nat
    }

    /// The column widths are the widest of the rows.
    pub open spec fn wf(&self) -> bool {
        &&& self.url_width() == max_url_width(self.rows())
        &&& self.description_width() == max_description_width(self.rows())
    }

    /// An empty report.
    pub fn new() -> (r: Self)
        ensures
            r.wf(),
            r.rows() == Seq::<RowView>::empty(),
    {
        let r = Self { url_max: 0, desc_max: 0, lines: Vec::new() };
        assert(r.rows() =~= Seq::<RowView>::empty());
        r
    }

    /// Adds a row at the end; its tags are joined by `" | "`. Each column
    /// widens to the row's width if that is wider.
    pub fn add_line(
        &mut self,
        url: String,
        url_len: usize,
        description: String,
        desc_len: usize,
        tags: &Vec<&str>,
    )
        requires
            old(self).wf(),
        ensures
            final(self).wf(),
            final(self).rows() == old(self).rows().push(
                (
                    url@,
                    url_len as nat,
                    description@,
                    desc_len as nat,
                    joined_with(strs_view(tags@), tag_separator()),
                ),
            ),
    {
        if url_len > self.url_max {
            self.url_max = url_len;
        }
        if desc_len > self.desc_max {
            self.desc_max = desc_len;
        }
        let mut owned: Vec<String> = Vec::new();
        let mut i: usize = 0;
        while i < tags.len()
            invariant
                i <= tags.len(),
                owned@.len() == i,
                forall|k: int| 0 <= k < i ==> (#[trigger] owned@[k])@ == tags@[k]@,
            decreases tags.len() - i,
        {
            owned.push(tags[i].to_owned());
            i = i + 1;
        }
        assert(strings_view(owned@) =~= strs_view(tags@));
        let sep = " | ";
        proof {
            reveal_strlit(" | ");
        }
        assert(sep@ =~= tag_separator());
        let joined = join(&owned, sep);
        let ghost before = self.lines@;
        self.lines.push(OutputLine { url, url_len, description, desc_len, tags: joined });
        assert(self.lines@.drop_last() =~= before);
        assert(self.rows().drop_last() =~= before.map_values(
            |l: OutputLine| (l.url@, l.url_len as nat, l.description@, l.desc_len as nat, l.tags@),
        ));
    }

    /// The report's lines, one per row in the order the rows were added.
    pub fn render(&self) -> (r: Vec<String>)
        requires
            self.wf(),
        ensures
            r@.len() == self.rows().len(),
            forall|i: int|
                0 <= i < r@.len() ==> (#[trigger] r@[i])@ == format_row(
                    self.rows()[i],
                    self.url_width(),
                    self.description_width(),
                ),
    {
        proof {
            lemma_max_width_bounds(self.rows());
        }
        let mut out: Vec<String> = Vec::new();
        let mut i: usize = 0;
        while i < self.lines.len()
            invariant
                i <= self.lines.len(),
                self.wf(),
                out@.len() == i,
                forall|k: int|
                    0 <= k < self.rows().len() ==> (#[trigger] self.rows()[k]).1 <= self.url_max
                        && self.rows()[k].3 <= self.desc_max,
                forall|k: int|
                    0 <= k < i ==> (#[trigger] out@[k])@ == format_row(
                        self.rows()[k],
                        self.url_max as nat,
                        self.desc_max as nat,
                    ),
            decreases self.lines.len() - i,
        {
            let line = &self.lines[i];
            assert(self.rows()[i as int].1 == line.url_len);
            assert(self.rows()[i as int].3 == line.desc_len);
            let mut s = line.url.clone();
            let pad = generate_padding(line.url_len, self.url_max);
            s.append(pad.as_str());
            s.append(" ");
            s.append(line.description.as_str());
            let pad = generate_padding(line.desc_len, self.desc_max);
            s.append(pad.as_str());
            s.append(" ");
            s.append(line.tags.as_str());
            proof {
                reveal_strlit(" ");
            }
            assert(s@ =~= format_row(self.rows()[i as int], self.url_max as nat, self.desc_max as nat));
            out.push(s);
            i = i + 1;
        }
        out
    }
}

} // verus!
