//! Checks on a bookmark before it is stored: a well-formed url, and no
//! character in any field that the stored format uses as a separator.

use vstd::prelude::*;
use crate::config::Add;
use crate::text::strings_view;

verus! {

/// Why a bookmark cannot be stored.
#[derive(Debug)]
pub enum ValidationError {
    /// The url is not a well-formed url.
    InvalidUrl,
    /// A field holds the field separator `|`.
    ContainsPipe,
    /// A tag holds the tag separator `,`.
    ContainsComma,
}

/// Whether the url parser accepts the text as a url.
pub uninterp spec fn is_url(s: Seq<char>) -> bool;

/// Relies on validator's `validate_url`: whether `url::Url::parse` accepts the
/// text, which depends on the text alone.
#[verifier::external_body]
fn url_is_valid(s: &str) -> (r: bool)
    ensures
        r == is_url(s@),
{
    validator::validate_url(s)
}

/// Whether `s` holds the character `c`.
pub fn contains_char(s: &str, c: char) -> (r: bool)
    ensures
        r == s@.contains(c),
{
    let n = s.unicode_len();
    let mut i: usize = 0;
    while i < n
        invariant
            n == s@.len(),
            i <= n,
            forall|k: int| 0 <= k < i ==> s@[k] != c,
        decreases n - i,
    {
        if s.get_char(i) == c {
            return true;
        }
        i = i + 1;
    }
    false
}

/// The first failure of a single tag: a `|`, else a `,`.
pub open spec fn tag_error(tag: Seq<char>) -> Option<ValidationError> {
    if tag.contains('|') {
        Some(ValidationError::ContainsPipe)
    } else if tag.contains(',') {
        Some(ValidationError::ContainsComma)
    } else {
        None
    }
}

/// The failure of the first tag that fails, if any.
pub open spec fn tags_error(tags: Seq<Seq<char>>) -> Option<ValidationError>
    decreases tags.len(),
{
    if tags.len() == 0 {
        None
    } else {
        match tags_error(tags.drop_last()) {
            Some(e) => Some(e),
            None => tag_error(tags.last()),
        }
    }
}

/// The first failure of a bookmark: the url (well-formed, then no `|`), the
/// description (no `|`), then the tags in order.
pub open spec fn add_error(url: Seq<char>, description: Seq<char>, tags: Seq<Seq<char>>) -> Option<
    ValidationError,
> {
    if !is_url(url) {
        Some(ValidationError::InvalidUrl)
    } else if url.contains('|') {
        Some(ValidationError::ContainsPipe)
    } else if description.contains('|') {
        Some(ValidationError::ContainsPipe)
    } else {
        tags_error(tags)
    }
}

/// A field must not hold `|`.
pub fn validate_no_pipe(val: &str) -> (r: Result<(), ValidationError>)
    ensures
        r is Ok <==> !val@.contains('|'),
        r matches Err(e) ==> e == ValidationError::ContainsPipe,
{
    if contains_char(val, '|') {
        return Err(ValidationError::ContainsPipe);
    }
    Ok(())
}

/// A tag must not hold `,`.
pub fn validate_no_comma(val: &str) -> (r: Result<(), ValidationError>)
    ensures
        r is Ok <==> !val@.contains(','),
        r matches Err(e) ==> e == ValidationError::ContainsComma,
{
    if contains_char(val, ',') {
        return Err(ValidationError::ContainsComma);
    }
    Ok(())
}

/// No tag may hold `|` or `,`.
pub fn validate_tags(values: &[String]) -> (r: Result<(), ValidationError>)
    ensures
        (match r {
            Ok(()) => tags_error(strings_view(values@)) is None,
            Err(e) => tags_error(strings_view(values@)) == Some(e),
        }),
{
    let mut i: usize = 0;
    while i < values.len()
        invariant
            i <= values.len(),
            tags_error(strings_view(values@.subrange(0, i as int))) is None,
        decreases values.len() - i,
    {
        let ghost next = strings_view(values@.subrange(0, i as int + 1));
        assert(next.drop_last() =~= strings_view(values@.subrange(0, i as int)));
        assert(next.last() == values@[i as int]@);
        match validate_no_pipe(values[i].as_str()) {
            Ok(()) => {},
            Err(e) => {
                proof {
                    lemma_tags_error_extends(values@, i as int + 1);
                }
                return Err(e);
            },
        }
        match validate_no_comma(values[i].as_str()) {
            Ok(()) => {},
            Err(e) => {
                proof {
                    lemma_tags_error_extends(values@, i as int + 1);
                }
                return Err(e);
            },
        }
        i = i + 1;
    }
    assert(values@.subrange(0, i as int) =~= values@);
    Ok(())
}

/// Once some prefix of the tags fails, all of them fail the same way.
proof fn lemma_tags_error_extends(values: Seq<String>, k: int)
    requires
        0 <= k <= values.len(),
        tags_error(strings_view(values.subrange(0, k))) is Some,
    ensures
        tags_error(strings_view(values)) == tags_error(strings_view(values.subrange(0, k))),
    decreases values.len() - k,
{
    if k < values.len() {
        let next = strings_view(values.subrange(0, k + 1));
        assert(next.drop_last() =~= strings_view(values.subrange(0, k)));
        lemma_tags_error_extends(values, k + 1);
    } else {
        assert(values.subrange(0, k) =~= values);
    }
}

impl Add {
    /// Checks the bookmark: the url must be well-formed, and no field may hold
    /// `|`, nor a tag `,`. Gives the first failure found.
    pub fn validate(&self) -> (r: Result<(), ValidationError>)
        ensures
            (match r {
                Ok(()) => add_error(self.url@, self.description@, strings_view(self.tags@)) is None,
                Err(e) => add_error(self.url@, self.description@, strings_view(self.tags@)) == Some(
                    e,
                ),
            }),
    {
        if !url_is_valid(self.url.as_str()) {
            return Err(ValidationError::InvalidUrl);
        }
        validate_no_pipe(self.url.as_str())?;
        validate_no_pipe(self.description.as_str())?;
        validate_tags(self.tags.as_slice())
    }
}

} // verus!
