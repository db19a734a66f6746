//! Splitting a field's text into matched and plain segments, given the
//! spans that a pattern matched in it.
//!
//! Spans are byte offsets into the text's UTF-8 encoding, each on a
//! character boundary, in increasing order and without overlap. An empty
//! span gives an empty matched segment; the scan visits each span once, so
//! it ends whatever the spans are.

use vstd::prelude::*;
use vstd::utf8::*;
use vstd::string::StringSliceAdditionalSpecFns;
use crate::text::{TextPart, parts_view, joined_text};

verus! {

/// The UTF-8 encoding of a text.
pub open spec fn bytes_of(text: Seq<char>) -> Seq<u8> {
    encode_utf8(text)
}

/// `spans` are well-formed match spans of `text`: ordered, non-overlapping,
/// within the text and on character boundaries.
pub open spec fn spans_valid(text: Seq<char>, spans: Seq<(usize, usize)>) -> bool {
    &&& forall|i: int|
        0 <= i < spans.len() ==> {
            &&& #[trigger] spans[i].0 <= spans[i].1
            &&& spans[i].1 <= bytes_of(text).len()
            &&& is_char_boundary(bytes_of(text), spans[i].0 as int)
            &&& is_char_boundary(bytes_of(text), spans[i].1 as int)
        }
    &&& forall|i: int| 0 < i < spans.len() ==> spans[i - 1].1 <= #[trigger] spans[i].0
}

/// The characters between byte offsets `from` and `to` of `text`.
pub open spec fn piece(text: Seq<char>, from: int, to: int) -> Seq<char> {
    decode_utf8(bytes_of(text).subrange(from, to))
}

/// Where the scan stands after the first `k` spans.
pub open spec fn cursor(spans: Seq<(usize, usize)>, k: int) -> int {
    if k <= 0 {
        0
    } else {
        spans[k - 1].1 as int
    }
}

/// The segments produced by the first `k` spans: for each, the plain text
/// since the previous span (when there is any) and then the matched text.
pub open spec fn segments_upto(text: Seq<char>, spans: Seq<(usize, usize)>, k: int) -> Seq<
    (bool, Seq<char>),
>
    decreases k,
{
    if k <= 0 {
        Seq::empty()
    } else {
        let prev = segments_upto(text, spans, k - 1);
        let last = cursor(spans, k - 1);
        let start = spans[k - 1].0 as int;
        let end = spans[k - 1].1 as int;
        let with_gap = if start > last {
            prev.push((false, piece(text, last, start)))
        } else {
            prev
        };
        with_gap.push((true, piece(text, start, end)))
    }
}

/// The segments of `text` for the match spans `spans`: those of every span,
/// then the plain text after the last span, if any.
pub open spec fn wrap_segments(text: Seq<char>, spans: Seq<(usize, usize)>) -> Seq<
    (bool, Seq<char>),
> {
    let done = segments_upto(text, spans, spans.len() as int);
    let last = cursor(spans, spans.len() as int);
    if last < bytes_of(text).len() {
        done.push((false, piece(text, last, bytes_of(text).len() as int)))
    } else {
        done
    }
}

/// A character boundary of a text stays one in a prefix that ends on a boundary.
proof fn lemma_boundary_in_prefix(b: Seq<u8>, to: int, at: int)
    requires
        valid_utf8(b),
        is_char_boundary(b, to),
        is_char_boundary(b, at),
        0 <= at <= to,
    ensures
        valid_utf8(b.subrange(0, to)),
        is_char_boundary(b.subrange(0, to), at),
{
    broadcast use is_char_boundary_start_end_of_seq;

    valid_utf8_split(b, to);
    let pre = b.subrange(0, to);
    if at < to {
        is_char_boundary_iff_not_is_continuation_byte(b, at);
        is_char_boundary_iff_not_is_continuation_byte(pre, at);
    } else {
        assert(pre.len() == to);
    }
}

/// The bytes between two boundaries are valid UTF-8, and a boundary between
/// them is a boundary of that range too.
proof fn lemma_boundary_in_range(b: Seq<u8>, from: int, at: int, to: int)
    requires
        valid_utf8(b),
        is_char_boundary(b, from),
        is_char_boundary(b, at),
        is_char_boundary(b, to),
        0 <= from <= at <= to,
    ensures
        valid_utf8(b.subrange(from, to)),
        is_char_boundary(b.subrange(from, to), at - from),
{
    broadcast use is_char_boundary_start_end_of_seq;

    lemma_boundary_in_prefix(b, to, from);
    let pre = b.subrange(0, to);
    valid_utf8_split(pre, from);
    assert(pre.subrange(from, pre.len() as int) =~= b.subrange(from, to));
    let mid = b.subrange(from, to);
    if at < to {
        is_char_boundary_iff_not_is_continuation_byte(b, at);
        is_char_boundary_iff_not_is_continuation_byte(mid, at - from);
    } else {
        assert(mid.len() == to - from);
    }
}

/// Splitting the characters between two boundaries at a third one.
pub proof fn lemma_piece_split(text: Seq<char>, from: int, at: int, to: int)
    requires
        is_char_boundary(bytes_of(text), from),
        is_char_boundary(bytes_of(text), at),
        is_char_boundary(bytes_of(text), to),
        0 <= from <= at <= to,
    ensures
        piece(text, from, to) == piece(text, from, at) + piece(text, at, to),
{
    let b = bytes_of(text);
    encode_utf8_valid_utf8(text);
    lemma_boundary_in_range(b, from, at, to);
    let mid = b.subrange(from, to);
    decode_utf8_split(mid, at - from);
    assert(mid.subrange(0, at - from) =~= b.subrange(from, at));
    assert(mid.subrange(at - from, mid.len() as int) =~= b.subrange(at, to));
}

/// The whole byte range of a text holds the text itself.
pub proof fn lemma_piece_whole(text: Seq<char>)
    ensures
        piece(text, 0, bytes_of(text).len() as int) == text,
        is_char_boundary(bytes_of(text), 0),
        is_char_boundary(bytes_of(text), bytes_of(text).len() as int),
        bytes_of(text).len() == 0 <==> text.len() == 0,
{
    let b = bytes_of(text);
    encode_utf8_valid_utf8(text);
    encode_utf8_decode_utf8(text);
    is_char_boundary_start_end_of_seq(b);
    assert(b.subrange(0, b.len() as int) =~= b);
    if text.len() > 0 {
        assert(b.len() > 0);
    }
}

/// The owned characters between two boundaries of `text`.
fn slice_owned(text: &str, from: usize, to: usize) -> (r: String)
    requires
        from <= to <= bytes_of(text@).len(),
        is_char_boundary(bytes_of(text@), from as int),
        is_char_boundary(bytes_of(text@), to as int),
    ensures
        r@ == piece(text@, from as int, to as int),
{
    let ghost b = bytes_of(text@);
    proof {
        encode_utf8_valid_utf8(text@);
        lemma_boundary_in_prefix(b, to as int, from as int);
    }
    let (pre, _) = text.split_at(to);
    assert(pre.spec_bytes() =~= b.subrange(0, to as int));
    let (_, mid) = pre.split_at(from);
    assert(mid.spec_bytes() =~= b.subrange(from as int, to as int));
    proof {
        encode_utf8_decode_utf8(mid@);
    }
    mid.to_owned()
}

/// Splits `text` into segments around the match spans `spans`, in order:
/// plain text before a span (where there is any), the matched text of the
/// span, and the plain text after the last span (where there is any).
/// Also says whether any span was given.
pub fn wrap_spans(text: &str, spans: &Vec<(usize, usize)>) -> (r: (bool, Vec<TextPart>))
    requires
        spans_valid(text@, spans@),
    ensures
        r.0 == (spans@.len() > 0),
        parts_view(r.1@) == wrap_segments(text@, spans@),
        joined_text(parts_view(r.1@)) == text@,
{
    let mut found = false;
    let mut parts: Vec<TextPart> = Vec::new();
    let mut last: usize = 0;
    let mut i: usize = 0;
    while i < spans.len()
        invariant
            i <= spans.len(),
            spans_valid(text@, spans@),
            last as int == cursor(spans@, i as int),
            parts_view(parts@) == segments_upto(text@, spans@, i as int),
            found == (i > 0),
        decreases spans.len() - i,
    {
        let (start, end) = spans[i];
        proof {
            lemma_piece_whole(text@);
            assert(spans@[i as int].0 <= spans@[i as int].1);
            if i > 0 {
                assert(spans@[i as int - 1].1 <= spans@[i as int].0);
            }
        }
        let ghost before = parts@;
        if last != start {
            let gap = slice_owned(text, last, start);
            parts.push(TextPart::Text(gap));
        }
        let matched = slice_owned(text, start, end);
        parts.push(TextPart::MatchedText(matched));
        proof {
            let with_gap = if start > last {
                segments_upto(text@, spans@, i as int).push(
                    (false, piece(text@, last as int, start as int)),
                )
            } else {
                segments_upto(text@, spans@, i as int)
            };
            assert(parts_view(parts@) =~= with_gap.push(
                (true, piece(text@, start as int, end as int)),
            ));
        }
        last = end;
        found = true;
        i = i + 1;
    }
    proof {
        lemma_piece_whole(text@);
    }
    let text_len = text.as_bytes().len();
    if last < text_len {
        let rest = slice_owned(text, last, text_len);
        parts.push(TextPart::Text(rest));
        assert(parts_view(parts@) =~= segments_upto(text@, spans@, i as int).push(
            (false, piece(text@, last as int, bytes_of(text@).len() as int)),
        ));
    }
    proof {
        lemma_wrap_reconstructs(text@, spans@);
    }
    (found, parts)
}

/// Joining the segments of the first `k` spans gives the text up to the
/// cursor after them.
proof fn lemma_segments_upto_text(text: Seq<char>, spans: Seq<(usize, usize)>, k: int)
    requires
        spans_valid(text, spans),
        0 <= k <= spans.len(),
    ensures
        joined_text(segments_upto(text, spans, k)) == piece(text, 0, cursor(spans, k)),
        is_char_boundary(bytes_of(text), cursor(spans, k)),
        0 <= cursor(spans, k) <= bytes_of(text).len(),
    decreases k,
{
    lemma_piece_whole(text);
    if k == 0 {
        encode_utf8_valid_utf8(text);
        assert(bytes_of(text).subrange(0, 0) =~= Seq::<u8>::empty());
        assert(valid_utf8(Seq::<u8>::empty()));
        assert(decode_utf8(Seq::<u8>::empty()) =~= Seq::<char>::empty());
        assert(segments_upto(text, spans, 0) == Seq::<(bool, Seq<char>)>::empty());
        assert(joined_text(Seq::<(bool, Seq<char>)>::empty()) == Seq::<char>::empty());
    } else {
        lemma_segments_upto_text(text, spans, k - 1);
        let prev = segments_upto(text, spans, k - 1);
        let last = cursor(spans, k - 1);
        let start = spans[k - 1].0 as int;
        let end = spans[k - 1].1 as int;
        assert(spans[k - 1].0 <= spans[k - 1].1);
        if k > 1 {
            assert(spans[k - 2].1 <= spans[k - 1].0);
        }
        let with_gap = if start > last {
            prev.push((false, piece(text, last, start)))
        } else {
            prev
        };
        let all = with_gap.push((true, piece(text, start, end)));
        assert(all.drop_last() =~= with_gap);
        assert(segments_upto(text, spans, k) == all);
        assert(joined_text(all) == joined_text(with_gap) + piece(text, start, end));
        if start > last {
            assert(with_gap.drop_last() =~= prev);
            assert(joined_text(with_gap) == joined_text(prev) + piece(text, last, start));
            lemma_piece_split(text, 0, last, start);
        } else {
            assert(start == last);
        }
        assert(joined_text(with_gap) == piece(text, 0, start));
        lemma_piece_split(text, 0, start, end);
        assert(cursor(spans, k) == end);
    }
}

/// Joining the segments of a text, in order, gives back the text exactly.
pub proof fn lemma_wrap_reconstructs(text: Seq<char>, spans: Seq<(usize, usize)>)
    requires
        spans_valid(text, spans),
    ensures
        joined_text(wrap_segments(text, spans)) == text,
{
    let n = spans.len() as int;
    lemma_segments_upto_text(text, spans, n);
    lemma_piece_whole(text);
    let done = segments_upto(text, spans, n);
    let last = cursor(spans, n);
    let len = bytes_of(text).len() as int;
    if last < len {
        let all = done.push((false, piece(text, last, len)));
        assert(all.drop_last() =~= done);
        lemma_piece_split(text, 0, last, len);
    }
}

/// Without any match span, a text is one plain segment, or no segment at all
/// when it is empty.
pub proof fn lemma_wrap_no_spans(text: Seq<char>)
    ensures
        spans_valid(text, Seq::empty()),
        wrap_segments(text, Seq::empty()) == (if text.len() == 0 {
            Seq::<(bool, Seq<char>)>::empty()
        } else {
            seq![(false, text)]
        }),
{
    lemma_piece_whole(text);
    let spans = Seq::<(usize, usize)>::empty();
    assert(segments_upto(text, spans, 0) == Seq::<(bool, Seq<char>)>::empty());
    if text.len() > 0 {
        assert(Seq::<(bool, Seq<char>)>::empty().push((false, text)) =~= seq![(false, text)]);
    }
}

} // verus!
