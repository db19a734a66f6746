//! Tags: case-insensitive presence checks and the display order of tags.

use vstd::prelude::*;
use crate::text::strings_view;

verus! {

/// The lower-case form of a text, as `str::to_lowercase` gives it.
pub uninterp spec fn lower_of(s: Seq<char>) -> Seq<char>;

/// Relies on `str::to_lowercase`: the result depends on the characters alone.
#[verifier::external_body]
pub(crate) fn to_lower(s: &str) -> (r: String)
    ensures
        r@ == lower_of(s@),
{
    s.to_lowercase()
}

/// Some tag of `tags` equals `x` when both are lower-cased.
pub open spec fn has_tag(tags: Seq<Seq<char>>, x: Seq<char>) -> bool {
    exists|i: int| 0 <= i < tags.len() && lower_of(#[trigger] tags[i]) == lower_of(x)
}

/// Every tag of `required` is among `tags`, ignoring case.
pub open spec fn tags_present(tags: Seq<Seq<char>>, required: Seq<Seq<char>>) -> bool {
    forall|j: int| 0 <= j < required.len() ==> has_tag(tags, #[trigger] required[j])
}

/// Whether every required tag is, ignoring case, one of the record's tags.
/// Tags are compared whole; an empty list of required tags is always present.
pub fn all_present(record_tags: &[String], required_tags: &[String]) -> (r: bool)
    ensures
        r == tags_present(strings_view(record_tags@), strings_view(required_tags@)),
{
    let ghost tags = strings_view(record_tags@);
    let ghost required = strings_view(required_tags@);
    let mut lowered: Vec<String> = Vec::new();
    let mut i: usize = 0;
    while i < record_tags.len()
        invariant
            i <= record_tags.len(),
            tags == strings_view(record_tags@),
            lowered@.len() == i,
            forall|k: int| 0 <= k < i ==> #[trigger] lowered@[k]@ == lower_of(tags[k]),
        decreases record_tags.len() - i,
    {
        lowered.push(to_lower(record_tags[i].as_str()));
        i = i + 1;
    }
    let mut j: usize = 0;
    while j < required_tags.len()
        invariant
            j <= required_tags.len(),
            tags == strings_view(record_tags@),
            required == strings_view(required_tags@),
            lowered@.len() == tags.len(),
            forall|k: int| 0 <= k < tags.len() ==> #[trigger] lowered@[k]@ == lower_of(tags[k]),
            forall|jj: int| 0 <= jj < j ==> has_tag(tags, #[trigger] required[jj]),
        decreases required_tags.len() - j,
    {
        let want = to_lower(required_tags[j].as_str());
        let mut found = false;
        let mut k: usize = 0;
        while k < lowered.len()
            invariant
                k <= lowered.len(),
                want@ == lower_of(required[j as int]),
                lowered@.len() == tags.len(),
                forall|q: int| 0 <= q < tags.len() ==> #[trigger] lowered@[q]@ == lower_of(tags[q]),
                found <==> exists|q: int| 0 <= q < k && lower_of(#[trigger] tags[q]) == want@,
            decreases lowered.len() - k,
        {
            if lowered[k] == want {
                found = true;
            }
            k = k + 1;
        }
        if !found {
            assert(!has_tag(tags, required[j as int]));
            return false;
        }
        j = j + 1;
    }
    true
}

/// No tag is present in an empty tag list unless none is required; a single
/// required tag is present exactly when some tag equals it ignoring case.
pub proof fn lemma_presence(tags: Seq<Seq<char>>, required: Seq<Seq<char>>, x: Seq<char>)
    ensures
        tags_present(Seq::empty(), required) <==> required.len() == 0,
        tags_present(tags, seq![x]) <==> exists|i: int|
            0 <= i < tags.len() && lower_of(#[trigger] tags[i]) == lower_of(x),
{
    if required.len() > 0 {
        assert(!has_tag(Seq::empty(), required[0]));
    }
    if tags_present(tags, seq![x]) {
        assert(has_tag(tags, seq![x][0]));
    }
    if exists|i: int| 0 <= i < tags.len() && lower_of(#[trigger] tags[i]) == lower_of(x) {
        assert forall|j: int| 0 <= j < 1 implies has_tag(tags, #[trigger] seq![x][j]) by {
            assert(seq![x][j] == x);
        }
    }
}

/// Lexicographic order on texts by code point, the order of `str`'s `Ord`.
pub open spec fn key_le(a: Seq<char>, b: Seq<char>) -> bool
    decreases a.len(),
{
    if a.len() == 0 {
        true
    } else if b.len() == 0 {
        false
    } else if (a[0] as u32) < (b[0] as u32) {
        true
    } else if (a[0] as u32) > (b[0] as u32) {
        false
    } else {
        key_le(a.drop_first(), b.drop_first())
    }
}

/// Whether `a` comes no later than `b` in code point order.
fn text_le(a: &str, b: &str) -> (r: bool)
    ensures
        r == key_le(a@, b@),
{
    let a_len = a.unicode_len();
    let b_len = b.unicode_len();
    let mut i: usize = 0;
    assert(a@.skip(0) =~= a@);
    assert(b@.skip(0) =~= b@);
    while i < a_len && i < b_len
        invariant
            a_len == a@.len(),
            b_len == b@.len(),
            i <= a_len,
            i <= b_len,
            key_le(a@, b@) == key_le(a@.skip(i as int), b@.skip(i as int)),
        decreases a_len - i,
    {
        let ca = a.get_char(i) as u32;
        let cb = b.get_char(i) as u32;
        assert(a@.skip(i as int)[0] == a@[i as int]);
        assert(b@.skip(i as int)[0] == b@[i as int]);
        if ca < cb {
            return true;
        }
        if ca > cb {
            return false;
        }
        assert(a@.skip(i as int).drop_first() =~= a@.skip(i as int + 1));
        assert(b@.skip(i as int).drop_first() =~= b@.skip(i as int + 1));
        i = i + 1;
    }
    i == a_len
}

/// A pair of a sort key and a value, as texts.
pub type KeyedText = (Seq<char>, Seq<char>);

/// The views of a vector of key and value strings.
pub open spec fn pairs_view(v: Seq<(String, String)>) -> Seq<KeyedText> {
    v.map_values(|p: (String, String)| (p.0@, p.1@))
}

/// `x` put into `s` after every element, from the back, whose key does not
/// exceed the key of `x`.
pub open spec fn insert_by_key(s: Seq<KeyedText>, x: KeyedText) -> Seq<KeyedText>
    decreases s.len(),
{
    if s.len() == 0 || key_le(s.last().0, x.0) {
        s.push(x)
    } else {
        insert_by_key(s.drop_last(), x).push(s.last())
    }
}

/// The pairs of `s` ordered by key; pairs with equal keys keep their order.
pub open spec fn sort_by_key(s: Seq<KeyedText>) -> Seq<KeyedText>
    decreases s.len(),
{
    if s.len() == 0 {
        s
    } else {
        insert_by_key(sort_by_key(s.drop_last()), s.last())
    }
}

proof fn lemma_insert_by_key_split(s: Seq<KeyedText>, x: KeyedText, j: int)
    requires
        0 < j <= s.len(),
        !key_le(s[j - 1].0, x.0),
    ensures
        insert_by_key(s.subrange(0, j), x) == insert_by_key(s.subrange(0, j - 1), x).push(
            s[j - 1],
        ),
{
    let pre = s.subrange(0, j);
    assert(pre.drop_last() =~= s.subrange(0, j - 1));
}

/// Orders key and value pairs by key, keeping the input order among equal keys.
pub fn sort_pairs(items: &Vec<(String, String)>) -> (r: Vec<(String, String)>)
    ensures
        pairs_view(r@) == sort_by_key(pairs_view(items@)),
{
    let mut out: Vec<(String, String)> = Vec::new();
    let mut i: usize = 0;
    while i < items.len()
        invariant
            i <= items.len(),
            pairs_view(out@) == sort_by_key(pairs_view(items@.subrange(0, i as int))),
        decreases items.len() - i,
    {
        let x = (items[i].0.clone(), items[i].1.clone());
        let ghost xv = (x.0@, x.1@);
        let ghost v = pairs_view(out@);
        let mut j: usize = out.len();
        assert(v.subrange(0, j as int) =~= v);
        assert(v.subrange(j as int, v.len() as int) =~= Seq::<KeyedText>::empty());
        assert(insert_by_key(v, xv) + Seq::<KeyedText>::empty() =~= insert_by_key(v, xv));
        while j > 0 && !text_le(out[j - 1].0.as_str(), x.0.as_str())
            invariant
                j <= out.len(),
                v == pairs_view(out@),
                xv == (x.0@, x.1@),
                insert_by_key(v, xv) == insert_by_key(v.subrange(0, j as int), xv) + v.subrange(
                    j as int,
                    v.len() as int,
                ),
            decreases j,
        {
            proof {
                lemma_insert_by_key_split(v, xv, j as int);
                assert(v.subrange(j as int - 1, v.len() as int) =~= seq![v[j as int - 1]]
                    + v.subrange(j as int, v.len() as int));
                assert(insert_by_key(v.subrange(0, j as int - 1), xv).push(v[j as int - 1])
                    + v.subrange(j as int, v.len() as int) =~= insert_by_key(
                    v.subrange(0, j as int - 1),
                    xv,
                ) + v.subrange(j as int - 1, v.len() as int));
            }
            j = j - 1;
        }
        proof {
            assert(insert_by_key(v.subrange(0, j as int), xv) == v.subrange(0, j as int).push(xv));
            let next = pairs_view(items@.subrange(0, i as int + 1));
            assert(next.drop_last() =~= pairs_view(items@.subrange(0, i as int)));
            assert(next.last() == xv);
        }
        out.insert(j, x);
        assert(pairs_view(out@) =~= v.subrange(0, j as int).push(xv) + v.subrange(
            j as int,
            v.len() as int,
        ));
        i = i + 1;
    }
    assert(items@.subrange(0, i as int) =~= items@);
    out
}

/// Each text paired with its lower-case form as the key.
pub open spec fn keyed_by_lower(s: Seq<Seq<char>>) -> Seq<KeyedText> {
    s.map_values(|t: Seq<char>| (lower_of(t), t))
}

/// The values of key and value pairs.
pub open spec fn values_of(s: Seq<KeyedText>) -> Seq<Seq<char>> {
    s.map_values(|p: KeyedText| p.1)
}

/// Tags in display order: ordered by their lower-case form, with tags of
/// equal lower-case form in their input order.
pub open spec fn sorted_tags(tags: Seq<Seq<char>>) -> Seq<Seq<char>> {
    values_of(sort_by_key(keyed_by_lower(tags)))
}

/// Orders tags case-insensitively for display, keeping their own case.
pub fn sort_tags(tags: &Vec<String>) -> (r: Vec<String>)
    ensures
        strings_view(r@) == sorted_tags(strings_view(tags@)),
{
    let mut keyed: Vec<(String, String)> = Vec::new();
    let mut i: usize = 0;
    while i < tags.len()
        invariant
            i <= tags.len(),
            keyed@.len() == i,
            forall|m: int|
                0 <= m < i ==> (#[trigger] keyed@[m]).0@ == lower_of(tags@[m]@) && keyed@[m].1@
                    == tags@[m]@,
        decreases tags.len() - i,
    {
        let key = to_lower(tags[i].as_str());
        let tag = tags[i].clone();
        keyed.push((key, tag));
        i = i + 1;
    }
    assert(pairs_view(keyed@) =~= keyed_by_lower(strings_view(tags@)));
    let sorted = sort_pairs(&keyed);
    let mut out: Vec<String> = Vec::new();
    let mut k: usize = 0;
    while k < sorted.len()
        invariant
            k <= sorted.len(),
            out@.len() == k,
            strings_view(out@) == values_of(pairs_view(sorted@)).subrange(0, k as int),
        decreases sorted.len() - k,
    {
        let v = sorted[k].1.clone();
        out.push(v);
        assert(strings_view(out@)[k as int] == pairs_view(sorted@)[k as int].1);
        assert(strings_view(out@) =~= values_of(pairs_view(sorted@)).subrange(0, k as int + 1));
        k = k + 1;
    }
    assert(values_of(pairs_view(sorted@)).subrange(0, k as int) =~= values_of(pairs_view(sorted@)));
    out
}


/// The keys of `s` never decrease.
pub open spec fn keys_ordered(s: Seq<KeyedText>) -> bool {
    forall|i: int, j: int| 0 <= i < j < s.len() ==> key_le(#[trigger] s[i].0, #[trigger] s[j].0)
}

/// The pairs of `s` whose key is `k`, in order.
pub open spec fn with_key(s: Seq<KeyedText>, k: Seq<char>) -> Seq<KeyedText>
    decreases s.len(),
{
    if s.len() == 0 {
        s
    } else {
        let prev = with_key(s.drop_last(), k);
        if s.last().0 == k {
            prev.push(s.last())
        } else {
            prev
        }
    }
}

proof fn lemma_key_le_reflexive(a: Seq<char>)
    ensures
        key_le(a, a),
    decreases a.len(),
{
    if a.len() > 0 {
        lemma_key_le_reflexive(a.drop_first());
    }
}

proof fn lemma_key_le_total(a: Seq<char>, b: Seq<char>)
    ensures
        key_le(a, b) || key_le(b, a),
    decreases a.len(),
{
    if a.len() > 0 && b.len() > 0 && a[0] as u32 == b[0] as u32 {
        lemma_key_le_total(a.drop_first(), b.drop_first());
    }
}

proof fn lemma_key_le_transitive(a: Seq<char>, b: Seq<char>, c: Seq<char>)
    requires
        key_le(a, b),
        key_le(b, c),
    ensures
        key_le(a, c),
    decreases a.len(),
{
    if a.len() > 0 && b.len() > 0 && c.len() > 0 && a[0] as u32 == b[0] as u32 && b[0] as u32
        == c[0] as u32 {
        lemma_key_le_transitive(a.drop_first(), b.drop_first(), c.drop_first());
    }
}

proof fn lemma_insert_contents(s: Seq<KeyedText>, x: KeyedText)
    ensures
        insert_by_key(s, x).len() == s.len() + 1,
        forall|i: int|
            0 <= i < insert_by_key(s, x).len() ==> #[trigger] insert_by_key(s, x)[i] == x
                || s.contains(insert_by_key(s, x)[i]),
    decreases s.len(),
{
    if s.len() > 0 && !key_le(s.last().0, x.0) {
        let prev = s.drop_last();
        lemma_insert_contents(prev, x);
        let r = insert_by_key(s, x);
        assert forall|i: int| 0 <= i < r.len() implies #[trigger] r[i] == x || s.contains(r[i]) by {
            if i < r.len() - 1 {
                if r[i] != x {
                    let j = choose|j: int| 0 <= j < prev.len() && prev[j] == r[i];
                    assert(s[j] == r[i]);
                }
            } else {
                assert(s[s.len() - 1] == r[i]);
            }
        }
    } else {
        let r = insert_by_key(s, x);
        assert forall|i: int| 0 <= i < r.len() implies #[trigger] r[i] == x || s.contains(r[i]) by {
            if i < s.len() {
                assert(s[i] == r[i]);
            }
        }
    }
}

proof fn lemma_insert_ordered(s: Seq<KeyedText>, x: KeyedText)
    requires
        keys_ordered(s),
    ensures
        keys_ordered(insert_by_key(s, x)),
    decreases s.len(),
{
    let r = insert_by_key(s, x);
    if s.len() == 0 || key_le(s.last().0, x.0) {
        assert forall|i: int, j: int| 0 <= i < j < r.len() implies key_le(
            #[trigger] r[i].0,
            #[trigger] r[j].0,
        ) by {
            if j == s.len() && i < s.len() - 1 {
                lemma_key_le_transitive(s[i].0, s.last().0, x.0);
            }
        }
    } else {
        let prev = s.drop_last();
        let l = s.last();
        lemma_insert_ordered(prev, x);
        lemma_insert_contents(prev, x);
        lemma_key_le_total(l.0, x.0);
        let inner = insert_by_key(prev, x);
        assert forall|i: int, j: int| 0 <= i < j < r.len() implies key_le(
            #[trigger] r[i].0,
            #[trigger] r[j].0,
        ) by {
            if j == r.len() - 1 {
                assert(r[i] == inner[i]);
                if inner[i] != x {
                    let k = choose|k: int| 0 <= k < prev.len() && prev[k] == inner[i];
                    assert(s[k] == inner[i]);
                    assert(key_le(s[k].0, s[s.len() - 1].0));
                }
            } else {
                assert(r[i] == inner[i]);
                assert(r[j] == inner[j]);
            }
        }
    }
}

proof fn lemma_insert_with_key(s: Seq<KeyedText>, x: KeyedText, k: Seq<char>)
    ensures
        with_key(insert_by_key(s, x), k) == if x.0 == k {
            with_key(s, k).push(x)
        } else {
            with_key(s, k)
        },
    decreases s.len(),
{
    if s.len() == 0 || key_le(s.last().0, x.0) {
        assert(s.push(x).drop_last() =~= s);
    } else {
        let prev = s.drop_last();
        let l = s.last();
        lemma_insert_with_key(prev, x, k);
        lemma_key_le_reflexive(x.0);
        let inner = insert_by_key(prev, x);
        assert(inner.push(l).drop_last() =~= inner);
        if x.0 == k && l.0 != k {
            assert(with_key(s, k) == with_key(prev, k));
        }
    }
}

/// Sorting by key puts the keys in order, and keeps the pairs of each key in
/// their input order.
pub proof fn lemma_sort_by_key_stable(s: Seq<KeyedText>)
    ensures
        sort_by_key(s).len() == s.len(),
        keys_ordered(sort_by_key(s)),
        forall|k: Seq<char>| #[trigger] with_key(sort_by_key(s), k) == with_key(s, k),
    decreases s.len(),
{
    if s.len() > 0 {
        let prev = s.drop_last();
        lemma_sort_by_key_stable(prev);
        lemma_insert_ordered(sort_by_key(prev), s.last());
        lemma_insert_contents(sort_by_key(prev), s.last());
        assert forall|k: Seq<char>| #[trigger] with_key(sort_by_key(s), k) == with_key(s, k) by {
            lemma_insert_with_key(sort_by_key(prev), s.last(), k);
        }
    }
}

} // verus!
