//! Highlight-aware pieces of text and the string helpers the report needs.

use vstd::prelude::*;

verus! {

/// A piece of a field's text: either a part that the search pattern matched,
/// or a plain part.
pub enum TextPart {
    MatchedText(String),
    Text(String),
}

impl View for TextPart {
    /// Whether the part was matched, and its characters.
    type V = (bool, Seq<char>);

    open spec fn view(&self) -> (bool, Seq<char>) {
        match self {
            TextPart::MatchedText(s) => (true, s@),
            TextPart::Text(s) => (false, s@),
        }
    }
}

/// The abstract view of a sequence of text parts.
pub open spec fn parts_view(parts: Seq<TextPart>) -> Seq<(bool, Seq<char>)> {
    parts.map_values(|p: TextPart| p@)
}

/// The text that a sequence of segments stands for: their characters in order.
pub open spec fn joined_text(segs: Seq<(bool, Seq<char>)>) -> Seq<char>
    decreases segs.len(),
{
    if segs.len() == 0 {
        Seq::empty()
    } else {
        joined_text(segs.drop_last()) + segs.last().1
    }
}

/// The escape sequence that turns the terminal's foreground blue.
pub open spec fn blue_prefix() -> Seq<char> {
    seq!['\x1b', '[', '3', '4', 'm']
}

/// The escape sequence that resets all terminal styling.
pub open spec fn style_reset() -> Seq<char> {
    seq!['\x1b', '[', '0', 'm']
}

/// The characters of a segment as shown on the terminal: matched text in blue.
pub open spec fn styled_segment(seg: (bool, Seq<char>)) -> Seq<char> {
    if seg.0 {
        blue_prefix() + seg.1 + style_reset()
    } else {
        seg.1
    }
}

/// The terminal form of a sequence of segments.
pub open spec fn styled_text(segs: Seq<(bool, Seq<char>)>) -> Seq<char>
    decreases segs.len(),
{
    if segs.len() == 0 {
        Seq::empty()
    } else {
        styled_text(segs.drop_last()) + styled_segment(segs.last())
    }
}

/// `n` space characters.
pub open spec fn spaces(n: nat) -> Seq<char> {
    Seq::new(n, |i: int| ' ')
}

/// The pieces of `items`, in order, with `sep` between each two of them.
pub open spec fn joined_with(items: Seq<Seq<char>>, sep: Seq<char>) -> Seq<char>
    decreases items.len(),
{
    if items.len() == 0 {
        Seq::empty()
    } else if items.len() == 1 {
        items[0]
    } else {
        joined_with(items.drop_last(), sep) + sep + items.last()
    }
}

/// The views of a vector of strings.
pub open spec fn strings_view(v: Seq<String>) -> Seq<Seq<char>> {
    v.map_values(|s: String| s@)
}

/// Relies on ansi_term's `Colour::Blue.paint(..)` rendered with `to_string`:
/// the blue foreground code, the text, then the reset code.
#[verifier::external_body]
fn paint_blue(s: &str) -> (r: String)
    ensures
        r@ == blue_prefix() + s@ + style_reset(),
{
    ansi_term::Colour::Blue.paint(s).to_string()
}

impl TextPart {
    /// The number of characters in this text part.
    pub fn len(&self) -> (r: usize)
        ensures
            r == self@.1.len(),
    {
        self.text().as_str().unicode_len()
    }

    /// The raw text.
    pub fn text(&self) -> (r: &String)
        ensures
            r@ == self@.1,
    {
        match self {
            TextPart::MatchedText(val) => val,
            TextPart::Text(val) => val,
        }
    }

    /// The total number of characters in all the text parts in the vector.
    pub fn vec_len(parts: &Vec<TextPart>) -> (r: usize)
        requires
            joined_text(parts_view(parts@)).len() <= usize::MAX,
        ensures
            r == joined_text(parts_view(parts@)).len(),
    {
        let mut total: usize = 0;
        let mut i: usize = 0;
        while i < parts.len()
            invariant
                i <= parts.len(),
                joined_text(parts_view(parts@)).len() <= usize::MAX,
                total == joined_text(parts_view(parts@.subrange(0, i as int))).len(),
            decreases parts.len() - i,
        {
            proof {
                lemma_joined_text_prefix_len(parts_view(parts@), i as int + 1);
                assert(parts_view(parts@.subrange(0, i as int + 1)).drop_last()
                    =~= parts_view(parts@.subrange(0, i as int)));
                assert(parts_view(parts@.subrange(0, i as int + 1))
                    =~= parts_view(parts@).subrange(0, i as int + 1));
            }
            total = total + parts[i].len();
            i = i + 1;
        }
        proof {
            assert(parts@.subrange(0, i as int) =~= parts@);
        }
        total
    }

    /// Highlights the matched text for the terminal.
    pub fn pretty_string(parts: &Vec<TextPart>) -> (r: String)
        ensures
            r@ == styled_text(parts_view(parts@)),
    {
        let mut out = String::new();
        let mut i: usize = 0;
        while i < parts.len()
            invariant
                i <= parts.len(),
                out@ == styled_text(parts_view(parts@.subrange(0, i as int))),
            decreases parts.len() - i,
        {
            assert(parts_view(parts@.subrange(0, i as int + 1)).drop_last()
                =~= parts_view(parts@.subrange(0, i as int)));
            match &parts[i] {
                TextPart::MatchedText(val) => {
                    let painted = paint_blue(val.as_str());
                    out.append(painted.as_str());
                },
                TextPart::Text(val) => {
                    out.append(val.as_str());
                },
            }
            i = i + 1;
        }
        assert(parts@.subrange(0, i as int) =~= parts@);
        out
    }
}

/// The text of a prefix of segments is no longer than the text of all of them.
pub proof fn lemma_joined_text_prefix_len(segs: Seq<(bool, Seq<char>)>, k: int)
    requires
        0 <= k <= segs.len(),
    ensures
        joined_text(segs.subrange(0, k)).len() <= joined_text(segs).len(),
    decreases segs.len(),
{
    if k < segs.len() {
        assert(segs.drop_last().subrange(0, k) =~= segs.subrange(0, k));
        lemma_joined_text_prefix_len(segs.drop_last(), k);
    } else {
        assert(segs.subrange(0, k) =~= segs);
    }
}

/// The spaces that pad a column holding `current_len` characters out to
/// `pad_to` characters.
pub fn generate_padding(current_len: usize, pad_to: usize) -> (r: String)
    requires
        current_len <= pad_to,
    ensures
        r@ == spaces((pad_to - current_len) as nat),
{
    let n = pad_to - current_len;
    let mut out = String::new();
    let mut i: usize = 0;
    while i < n
        invariant
            i <= n,
            out@ =~= spaces(i as nat),
        decreases n - i,
    {
        out.append(" ");
        proof {
            reveal_strlit(" ");
        }
        assert(" "@ =~= seq![' ']);
        assert(out@ =~= spaces(i as nat + 1));
        i = i + 1;
    }
    out
}

/// The strings of `items` in order, separated by `sep`.
pub fn join(items: &Vec<String>, sep: &str) -> (r: String)
    ensures
        r@ == joined_with(strings_view(items@), sep@),
{
    let mut out = String::new();
    let mut i: usize = 0;
    while i < items.len()
        invariant
            i <= items.len(),
            out@ == joined_with(strings_view(items@.subrange(0, i as int)), sep@),
        decreases items.len() - i,
    {
        let ghost prev = strings_view(items@.subrange(0, i as int));
        let ghost next = strings_view(items@.subrange(0, i as int + 1));
        assert(next.drop_last() =~= prev);
        if i > 0 {
            out.append(sep);
        }
        out.append(items[i].as_str());
        proof {
            if i == 0 {
                assert(out@ =~= next[0]);
            }
        }
        i = i + 1;
    }
    assert(items@.subrange(0, i as int) =~= items@);
    out
}

} // verus!
