//! The list of all tags in use: one line per tag ignoring case, showing
//! each spelling of it.

use vstd::prelude::*;
use crate::record::Line;
use crate::tags::{lower_of, to_lower, KeyedText, pairs_view, values_of, sort_by_key, sort_pairs};
use crate::text::{strings_view, joined_with, join};

verus! {

/// Every tag of the records, record by record, in order.
pub open spec fn all_tags(records: Seq<Line>) -> Seq<Seq<char>>
    decreases records.len(),
{
    if records.len() == 0 {
        Seq::empty()
    } else {
        all_tags(records.drop_last()) + strings_view(records.last().tags@)
    }
}

/// The texts of `s` without repeats, each where it first occurs.
pub open spec fn distinct(s: Seq<Seq<char>>) -> Seq<Seq<char>>
    decreases s.len(),
{
    if s.len() == 0 {
        s
    } else {
        let prev = distinct(s.drop_last());
        if prev.contains(s.last()) {
            prev
        } else {
            prev.push(s.last())
        }
    }
}

/// The lower-case forms of texts.
pub open spec fn lowered(s: Seq<Seq<char>>) -> Seq<Seq<char>> {
    s.map_values(|t: Seq<char>| lower_of(t))
}

/// The texts of `s` whose lower-case form is `k`, in order.
pub open spec fn with_lower(s: Seq<Seq<char>>, k: Seq<char>) -> Seq<Seq<char>>
    decreases s.len(),
{
    if s.len() == 0 {
        s
    } else {
        let prev = with_lower(s.drop_last(), k);
        if lower_of(s.last()) == k {
            prev.push(s.last())
        } else {
            prev
        }
    }
}

/// The tags ignoring case, as lower-case forms in order of first use.
pub open spec fn tag_keys(tags: Seq<Seq<char>>) -> Seq<Seq<char>> {
    distinct(lowered(tags))
}

/// The spellings in use of the tag whose lower-case form is `k`, in order of
/// first use.
pub open spec fn tag_variants(tags: Seq<Seq<char>>, k: Seq<char>) -> Seq<Seq<char>> {
    distinct(with_lower(tags, k))
}

/// Each text paired with itself as the key.
pub open spec fn self_keyed(s: Seq<Seq<char>>) -> Seq<KeyedText> {
    s.map_values(|t: Seq<char>| (t, t))
}

/// The listing line of a tag: its spellings in order, joined by `", "`.
pub open spec fn group_line(tags: Seq<Seq<char>>, k: Seq<char>) -> Seq<char> {
    joined_with(values_of(sort_by_key(self_keyed(tag_variants(tags, k)))), seq![',', ' '])
}

/// The listing of the records' tags: a line per tag ignoring case, in order
/// of the lower-case forms.
pub open spec fn tag_listing(records: Seq<Line>) -> Seq<Seq<char>> {
    let tags = all_tags(records);
    values_of(
        sort_by_key(tag_keys(tags).map_values(|k: Seq<char>| (k, group_line(tags, k)))),
    )
}

proof fn lemma_distinct_contains(s: Seq<Seq<char>>, x: Seq<char>)
    ensures
        distinct(s).contains(x) <==> s.contains(x),
    decreases s.len(),
{
    if s.len() > 0 {
        lemma_distinct_contains(s.drop_last(), x);
        let prev = distinct(s.drop_last());
        if s.contains(x) {
            let i = choose|i: int| 0 <= i < s.len() && s[i] == x;
            if i < s.len() - 1 {
                assert(s.drop_last()[i] == x);
            } else if !prev.contains(x) {
                assert(distinct(s)[prev.len() as int] == x);
            }
        }
        if distinct(s).contains(x) && !prev.contains(x) {
            assert(s[s.len() - 1] == x);
        }
        if s.drop_last().contains(x) {
            let i = choose|i: int| 0 <= i < s.len() - 1 && s.drop_last()[i] == x;
            assert(s[i] == x);
        }
        if prev.contains(x) {
            let i = choose|i: int| 0 <= i < prev.len() && prev[i] == x;
            if !prev.contains(s.last()) {
                assert(distinct(s)[i] == x);
            }
        }
    }
}

proof fn lemma_distinct_unique(s: Seq<Seq<char>>)
    ensures
        forall|a: int, b: int|
            0 <= a < b < distinct(s).len() ==> #[trigger] distinct(s)[a] != #[trigger] distinct(
                s,
            )[b],
    decreases s.len(),
{
    if s.len() > 0 {
        lemma_distinct_unique(s.drop_last());
        let prev = distinct(s.drop_last());
        if !prev.contains(s.last()) {
            assert forall|a: int, b: int|
                0 <= a < b < distinct(s).len() implies #[trigger] distinct(s)[a]
                != #[trigger] distinct(s)[b] by {
                if b == prev.len() {
                    assert(distinct(s)[a] == prev[a]);
                } else {
                    assert(distinct(s)[a] == prev[a]);
                    assert(distinct(s)[b] == prev[b]);
                }
            }
        }
    }
}

proof fn lemma_no_key_no_variants(s: Seq<Seq<char>>, k: Seq<char>)
    requires
        !lowered(s).contains(k),
    ensures
        with_lower(s, k) == Seq::<Seq<char>>::empty(),
    decreases s.len(),
{
    if s.len() > 0 {
        assert(lowered(s.drop_last()) =~= lowered(s).drop_last());
        if lowered(s.drop_last()).contains(k) {
            let i = choose|i: int| 0 <= i < s.len() - 1 && lowered(s.drop_last())[i] == k;
            assert(lowered(s)[i] == k);
        }
        lemma_no_key_no_variants(s.drop_last(), k);
        assert(lowered(s)[s.len() - 1] == lower_of(s.last()));
    }
}

/// Whether `v` holds a string equal to `x`.
fn holds(v: &Vec<String>, x: &String) -> (r: Option<usize>)
    ensures
        (match r {
            Some(g) => g < v@.len() && v@[g as int]@ == x@,
            None => !strings_view(v@).contains(x@),
        }),
{
    let mut i: usize = 0;
    while i < v.len()
        invariant
            i <= v.len(),
            forall|k: int| 0 <= k < i ==> (#[trigger] v@[k])@ != x@,
        decreases v.len() - i,
    {
        if v[i] == *x {
            return Some(i);
        }
        i = i + 1;
    }
    proof {
        if strings_view(v@).contains(x@) {
            let k = choose|k: int| 0 <= k < v@.len() && strings_view(v@)[k] == x@;
            assert(v@[k]@ == x@);
        }
    }
    None
}

/// The groups' keys and spellings are those of the tags seen so far.
pub open spec fn groups_match(keys: Seq<String>, variants: Seq<Vec<String>>, seen: Seq<Seq<char>>) -> bool {
    &&& keys.len() == variants.len()
    &&& strings_view(keys) == tag_keys(seen)
    &&& forall|g: int|
        0 <= g < keys.len() ==> strings_view((#[trigger] variants[g])@) == tag_variants(
            seen,
            keys[g]@,
        )
}

fn add_tag(
    keys: &mut Vec<String>,
    variants: &mut Vec<Vec<String>>,
    tag: String,
    Ghost(seen): Ghost<Seq<Seq<char>>>,
)
    requires
        groups_match(old(keys)@, old(variants)@, seen),
    ensures
        groups_match(final(keys)@, final(variants)@, seen.push(tag@)),
{
    let ghost next = seen.push(tag@);
    let key = to_lower(tag.as_str());
    assert(lowered(next) =~= lowered(seen).push(key@));
    assert(lowered(next).drop_last() =~= lowered(seen));
    assert(next.drop_last() =~= seen);
    match holds(keys, &key) {
        Some(g) => {
            assert(strings_view(keys@)[g as int] == key@);
            assert(tag_keys(seen).contains(key@));
            assert(tag_keys(next) == tag_keys(seen));
            let mut group = variants.remove(g);
            let ghost w = with_lower(seen, key@);
            assert(with_lower(next, key@) == w.push(tag@));
            assert(w.push(tag@).drop_last() =~= w);
            assert(strings_view(group@) == distinct(w));
            assert(tag_variants(next, key@) == if distinct(w).contains(tag@) {
                distinct(w)
            } else {
                distinct(w).push(tag@)
            });
            match holds(&group, &tag) {
                Some(idx) => {
                    assert(strings_view(group@)[idx as int] == tag@);
                },
                None => {
                    group.push(tag);
                    assert(strings_view(group@) =~= strings_view(old(variants)@[g as int]@).push(
                        tag@,
                    ));
                },
            }
            variants.insert(g, group);
            proof {
                lemma_distinct_unique(lowered(seen));
            }
            assert forall|h: int| 0 <= h < keys@.len() implies strings_view(
                (#[trigger] variants@[h])@,
            ) == tag_variants(next, keys@[h]@) by {
                if h == g {
                    assert(variants@[h] == group);
                    assert(keys@[h]@ == key@);
                } else {
                    assert(strings_view(keys@)[g as int] == tag_keys(seen)[g as int]);
                    assert(strings_view(keys@)[h] == tag_keys(seen)[h]);
                    assert(keys@[h]@ != key@);
                    assert(variants@[h] == old(variants)@[h]);
                    assert(strings_view(keys@)[h] == keys@[h]@);
                    assert(with_lower(next, keys@[h]@) == with_lower(seen, keys@[h]@));
                }
            }
        },
        None => {
            proof {
                lemma_distinct_contains(lowered(seen), key@);
                lemma_no_key_no_variants(seen, key@);
            }
            let ghost old_keys = keys@;
            keys.push(key);
            let mut group: Vec<String> = Vec::new();
            group.push(tag);
            variants.push(group);
            assert(strings_view(keys@) =~= strings_view(old_keys).push(key@));
            assert(tag_keys(next) == tag_keys(seen).push(key@));
            assert(with_lower(next, key@) == Seq::<Seq<char>>::empty().push(tag@));
            assert(Seq::<Seq<char>>::empty().push(tag@).drop_last() =~= Seq::<Seq<char>>::empty());
            assert(distinct(Seq::<Seq<char>>::empty()) == Seq::<Seq<char>>::empty());
            assert(!Seq::<Seq<char>>::empty().contains(tag@));
            assert(tag_variants(next, key@) =~= seq![tag@]);
            assert forall|h: int| 0 <= h < keys@.len() implies strings_view(
                (#[trigger] variants@[h])@,
            ) == tag_variants(next, keys@[h]@) by {
                if h < keys@.len() - 1 {
                    assert(variants@[h] == old(variants)@[h]);
                    assert(keys@[h] == old_keys[h]);
                    assert(strings_view(old_keys)[h] == old_keys[h]@);
                    assert(tag_keys(seen).contains(old_keys[h]@));
                    assert(old_keys[h]@ != key@);
                    assert(with_lower(next, keys@[h]@) == with_lower(seen, keys@[h]@));
                } else {
                    assert(strings_view(variants@[h]@) =~= seq![tag@]);
                }
            }
        },
    }
}

/// A tag in use, ignoring case: its lower-case form and its spellings in
/// order of first use.
pub struct TagGroup {
    pub key: String,
    pub variants: Vec<String>,
}

/// Groups the records' tags by lower-case form, in order of first use; each
/// group holds the distinct spellings of its tag in order of first use.
pub fn get_tags(records: &Vec<Line>) -> (r: Vec<TagGroup>)
    ensures
        strings_view(r@.map_values(|g: TagGroup| g.key)) == tag_keys(all_tags(records@)),
        forall|g: int|
            0 <= g < r@.len() ==> strings_view((#[trigger] r@[g]).variants@) == tag_variants(
                all_tags(records@),
                r@[g].key@,
            ),
{
    let mut keys: Vec<String> = Vec::new();
    let mut variants: Vec<Vec<String>> = Vec::new();
    let mut i: usize = 0;
    assert(all_tags(records@.subrange(0, 0)) =~= Seq::<Seq<char>>::empty());
    assert(strings_view(keys@) =~= tag_keys(Seq::<Seq<char>>::empty()));
    while i < records.len()
        invariant
            i <= records.len(),
            groups_match(keys@, variants@, all_tags(records@.subrange(0, i as int))),
        decreases records.len() - i,
    {
        let tags = &records[i].tags;
        let ghost before = all_tags(records@.subrange(0, i as int));
        let mut j: usize = 0;
        assert(before + strings_view(tags@.subrange(0, 0)) =~= before);
        while j < tags.len()
            invariant
                j <= tags.len(),
                groups_match(keys@, variants@, before + strings_view(tags@.subrange(0, j as int))),
            decreases tags.len() - j,
        {
            let ghost seen = before + strings_view(tags@.subrange(0, j as int));
            add_tag(&mut keys, &mut variants, tags[j].clone(), Ghost(seen));
            assert(seen.push(tags@[j as int]@) =~= before + strings_view(
                tags@.subrange(0, j as int + 1),
            ));
            j = j + 1;
        }
        let ghost upto = records@.subrange(0, i as int + 1);
        assert(upto.drop_last() =~= records@.subrange(0, i as int));
        assert(tags@.subrange(0, j as int) =~= tags@);
        i = i + 1;
    }
    assert(records@.subrange(0, i as int) =~= records@);
    let ghost all = all_tags(records@);
    let mut out: Vec<TagGroup> = Vec::new();
    let mut g: usize = 0;
    while g < keys.len()
        invariant
            g <= keys.len(),
            groups_match(keys@, variants@, all),
            out@.len() == g,
            forall|h: int|
                0 <= h < g ==> (#[trigger] out@[h]).key@ == keys@[h]@ && strings_view(
                    out@[h].variants@,
                ) == tag_variants(all, keys@[h]@),
        decreases keys.len() - g,
    {
        let key = keys[g].clone();
        let vs = variants[g].clone();
        assert(strings_view(vs@) =~= strings_view(variants@[g as int]@));
        out.push(TagGroup { key, variants: vs });
        g = g + 1;
    }
    assert(strings_view(out@.map_values(|t: TagGroup| t.key)) =~= strings_view(keys@));
    out
}

/// Each string paired with itself.
fn self_pairs(v: &Vec<String>) -> (r: Vec<(String, String)>)
    ensures
        pairs_view(r@) == self_keyed(strings_view(v@)),
{
    let mut out: Vec<(String, String)> = Vec::new();
    let mut i: usize = 0;
    while i < v.len()
        invariant
            i <= v.len(),
            out@.len() == i,
            forall|k: int| 0 <= k < i ==> (#[trigger] out@[k]).0@ == v@[k]@ && out@[k].1@ == v@[k]@,
        decreases v.len() - i,
    {
        out.push((v[i].clone(), v[i].clone()));
        i = i + 1;
    }
    assert(pairs_view(out@) =~= self_keyed(strings_view(v@)));
    out
}

/// The values of key and value pairs.
fn values(pairs: &Vec<(String, String)>) -> (r: Vec<String>)
    ensures
        strings_view(r@) == values_of(pairs_view(pairs@)),
{
    let mut out: Vec<String> = Vec::new();
    let mut i: usize = 0;
    while i < pairs.len()
        invariant
            i <= pairs.len(),
            out@.len() == i,
            forall|k: int| 0 <= k < i ==> (#[trigger] out@[k])@ == pairs@[k].1@,
        decreases pairs.len() - i,
    {
        out.push(pairs[i].1.clone());
        i = i + 1;
    }
    assert(strings_view(out@) =~= values_of(pairs_view(pairs@)));
    out
}

/// The listing of all tags of the records: one line per tag ignoring case,
/// ordered by lower-case form, holding the tag's spellings in order joined
/// by `", "`.
pub fn tag_lines(records: &Vec<Line>) -> (r: Vec<String>)
    ensures
        strings_view(r@) == tag_listing(records@),
{
    let ghost all = all_tags(records@);
    let groups = get_tags(records);
    let sep = ", ";
    proof {
        reveal_strlit(", ");
    }
    assert(sep@ =~= seq![',', ' ']);
    let mut lines: Vec<(String, String)> = Vec::new();
    let mut g: usize = 0;
    while g < groups.len()
        invariant
            g <= groups.len(),
            sep@ == seq![',', ' '],
            lines@.len() == g,
            strings_view(groups@.map_values(|t: TagGroup| t.key)) == tag_keys(all),
            forall|h: int|
                0 <= h < groups@.len() ==> strings_view((#[trigger] groups@[h]).variants@)
                    == tag_variants(all, groups@[h].key@),
            forall|h: int|
                0 <= h < g ==> (#[trigger] lines@[h]).0@ == groups@[h].key@ && lines@[h].1@
                    == group_line(all, groups@[h].key@),
        decreases groups.len() - g,
    {
        let group = &groups[g];
        let sorted = sort_pairs(&self_pairs(&group.variants));
        let spellings = values(&sorted);
        let line = join(&spellings, sep);
        lines.push((group.key.clone(), line));
        g = g + 1;
    }
    let ghost keyed = tag_keys(all).map_values(|k: Seq<char>| (k, group_line(all, k)));
    assert forall|h: int| 0 <= h < lines@.len() implies pairs_view(lines@)[h] == keyed[h] by {
        assert(strings_view(groups@.map_values(|t: TagGroup| t.key))[h] == groups@[h].key@);
    }
    assert(pairs_view(lines@) =~= keyed);
    let sorted = sort_pairs(&lines);
    values(&sorted)
}

} // verus!
