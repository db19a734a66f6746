//! The pattern matcher: a case-insensitive regular expression and the spans
//! it matches in a text.

use vstd::prelude::*;
use crate::error::BookmarkError;
use crate::highlight::{spans_valid, wrap_segments, wrap_spans, lemma_wrap_no_spans};
use crate::text::{TextPart, parts_view, joined_text};

verus! {

#[verifier::external_type_specification]
#[verifier::external_body]
pub struct ExRegex(regex::Regex);

#[verifier::external_type_specification]
#[verifier::external_body]
pub struct ExRegexError(regex::Error);

/// Whether `pattern` compiles as a case-insensitive regular expression.
pub uninterp spec fn pattern_compiles(pattern: Seq<char>) -> bool;

/// The successive non-overlapping leftmost-first matches of the
/// case-insensitive regular expression `pattern` in `text`, as byte offsets.
pub uninterp spec fn match_spans(pattern: Seq<char>, text: Seq<char>) -> Seq<(usize, usize)>;

/// Relies on regex's `RegexBuilder::new(..).case_insensitive(true).build()`:
/// whether it succeeds depends on the pattern alone.
#[verifier::external_body]
fn compile_case_insensitive(pattern: &str) -> (r: Result<regex::Regex, regex::Error>)
    ensures
        r is Ok <==> pattern_compiles(pattern@),
{
    regex::RegexBuilder::new(pattern).case_insensitive(true).build()
}

/// A compiled case-insensitive search pattern.
pub struct Matcher {
    regex: regex::Regex,
    pattern: Ghost<Seq<char>>,
}

impl Matcher {
    /// The pattern text that this matcher was compiled from.
    pub closed spec fn pattern(&self) -> Seq<char> {
        self.pattern@
    }
}

/// Relies on regex's `Regex::find_iter` with `Match::start` and `Match::end`:
/// successive non-overlapping matches, each with `start <= end`, given as
/// byte offsets that fall on UTF-8 boundaries of the haystack and slice it.
/// The regex was compiled from `m.pattern()` (the only constructor is
/// `build_regex`), so the matches depend on that pattern and the text alone.
#[verifier::external_body]
fn find_spans(m: &Matcher, text: &str) -> (r: Vec<(usize, usize)>)
    ensures
        r@ == match_spans(m.pattern(), text@),
        spans_valid(text@, r@),
{
    m.regex.find_iter(text).map(|x| (x.start(), x.end())).collect()
}

/// Compiles `pattern` as a case-insensitive regular expression.
pub fn build_regex(pattern: &str) -> (r: Result<Matcher, BookmarkError>)
    ensures
        r is Ok <==> pattern_compiles(pattern@),
        r matches Ok(m) ==> m.pattern() == pattern@,
        r matches Err(e) ==> e == BookmarkError::InvalidPattern,
{
    match compile_case_insensitive(pattern) {
        Ok(regex) => Ok(Matcher { regex, pattern: Ghost(pattern@) }),
        Err(_) => Err(BookmarkError::InvalidPattern),
    }
}

/// Splits `text` into matched and plain segments for the matches of `m`,
/// and says whether there was any match.
pub fn wrap_matches(m: &Matcher, text: &str) -> (r: (bool, Vec<TextPart>))
    ensures
        r.0 == (match_spans(m.pattern(), text@).len() > 0),
        spans_valid(text@, match_spans(m.pattern(), text@)),
        parts_view(r.1@) == wrap_segments(text@, match_spans(m.pattern(), text@)),
        joined_text(parts_view(r.1@)) == text@,
        !r.0 ==> parts_view(r.1@) == (if text@.len() == 0 {
            Seq::<(bool, Seq<char>)>::empty()
        } else {
            seq![(false, text@)]
        }),
{
    let spans = find_spans(m, text);
    proof {
        lemma_wrap_no_spans(text@);
        if spans@.len() == 0 {
            assert(spans@ =~= Seq::<(usize, usize)>::empty());
        }
    }
    wrap_spans(text, &spans)
}

} // verus!
