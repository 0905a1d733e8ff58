//! Tag edits on a single note: adding, removing and renaming entries of
//! the frontmatter `tags` list.

use vstd::prelude::*;
use crate::kernel::note::{
    contains_string, copy_strings, fm_get, lemma_str_views_push, list_property, opt_view,
    str_views, tags_key, Note,
};
use crate::kernel::text::{chars_of, eq_exec};
use crate::plugins::frontmatter::{rebuild_frontmatter_with_tags, rebuilt};

verus! {

/// The note's `tags` property as a list.
pub open spec fn note_prop_tags(n: Note) -> Seq<Seq<char>> {
    list_property(fm_get(n.frontmatter@, tags_key()))
}

/// The test "is not `t`".
pub open spec fn other_than(t: Seq<char>) -> spec_fn(Seq<char>) -> bool {
    |x: Seq<char>| x != t
}

/// `ts` without the entries equal to `t`.
pub open spec fn drop_tag(ts: Seq<Seq<char>>, t: Seq<char>) -> Seq<Seq<char>> {
    ts.filter(other_than(t))
}

/// `ts` with each entry equal to `old` replaced by `new`.
pub open spec fn rename_in(ts: Seq<Seq<char>>, old: Seq<char>, new: Seq<char>) -> Seq<Seq<char>> {
    ts.map_values(|x: Seq<char>| if x == old { new } else { x })
}

/// The new content after adding `tag` to a note: nothing when the note
/// already has the tag (in its frontmatter or inline), else the tags list
/// rewritten with `tag` appended.
pub open spec fn added_tag(n: Note, tag: Seq<char>) -> Option<Seq<char>> {
    if str_views(n.tags@).contains(tag) {
        None
    } else {
        Some(rebuilt(n.raw@, note_prop_tags(n).push(tag)))
    }
}

/// The new content after removing `tag`: nothing when the `tags` list
/// does not hold it, else the list rewritten without it.
pub open spec fn removed_tag(n: Note, tag: Seq<char>) -> Option<Seq<char>> {
    let ts = note_prop_tags(n);
    if drop_tag(ts, tag).len() == ts.len() {
        None
    } else {
        Some(rebuilt(n.raw@, drop_tag(ts, tag)))
    }
}

/// Adds `tag` to the note's frontmatter tags.
pub fn add_tag(note: &Note, tag: &str) -> (r: Option<String>)
    ensures
        opt_view(r) == added_tag(*note, tag@),
{
    if note.has_tag(tag) {
        return None;
    }
    let mut ts = note.property_tags();
    let t = tag.to_string();
    proof {
        vstd::string::to_string_from_display_ensures_for_str(tag, t);
        lemma_str_views_push(ts@, t);
    }
    ts.push(t);
    let out = rebuild_frontmatter_with_tags(note.raw.as_str(), ts.as_slice());
    Some(out)
}

/// `ts` without the entries equal to `t`.
pub fn drop_tag_exec(ts: &Vec<String>, t: &str) -> (r: Vec<String>)
    ensures
        str_views(r@) == drop_tag(str_views(ts@), t@),
{
    let tc = chars_of(t);
    let mut out: Vec<String> = Vec::new();
    let mut i: usize = 0;
    while i < ts.len()
        invariant
            i <= ts.len(),
            tc@ == t@,
            str_views(out@) == drop_tag(str_views(ts@).subrange(0, i as int), t@),
        decreases ts.len() - i,
    {
        proof {
            reveal_with_fuel(Seq::filter, 1);
            assert(str_views(ts@).subrange(0, i + 1).drop_last() =~= str_views(ts@).subrange(0, i as int));
        }
        let c = chars_of(ts[i].as_str());
        if !eq_exec(&c, &tc) {
            let s = ts[i].clone();
            proof {
                lemma_str_views_push(out@, s);
            }
            out.push(s);
        }
        assert(str_views(out@) =~= drop_tag(str_views(ts@).subrange(0, i + 1), t@));
        i = i + 1;
    }
    assert(str_views(ts@).subrange(0, ts.len() as int) =~= str_views(ts@));
    out
}

/// `ts` with each entry equal to `old` replaced by `new`.
pub fn rename_in_exec(ts: &Vec<String>, old: &str, new: &str) -> (r: Vec<String>)
    ensures
        str_views(r@) == rename_in(str_views(ts@), old@, new@),
{
    let oc = chars_of(old);
    let mut out: Vec<String> = Vec::new();
    let mut i: usize = 0;
    while i < ts.len()
        invariant
            i <= ts.len(),
            oc@ == old@,
            str_views(out@) == rename_in(str_views(ts@).subrange(0, i as int), old@, new@),
        decreases ts.len() - i,
    {
        let c = chars_of(ts[i].as_str());
        let s = if eq_exec(&c, &oc) {
            let n = new.to_string();
            proof {
                vstd::string::to_string_from_display_ensures_for_str(new, n);
            }
            n
        } else {
            ts[i].clone()
        };
        proof {
            lemma_str_views_push(out@, s);
        }
        out.push(s);
        assert(str_views(out@) =~= rename_in(str_views(ts@).subrange(0, i + 1), old@, new@));
        i = i + 1;
    }
    assert(str_views(ts@).subrange(0, ts.len() as int) =~= str_views(ts@));
    out
}

/// Removes `tag` from the note's frontmatter tags.
pub fn remove_tag(note: &Note, tag: &str) -> (r: Option<String>)
    ensures
        opt_view(r) == removed_tag(*note, tag@),
{
    let ts = note.property_tags();
    let kept = drop_tag_exec(&ts, tag);
    if kept.len() == ts.len() {
        return None;
    }
    Some(rebuild_frontmatter_with_tags(note.raw.as_str(), kept.as_slice()))
}

/// Renames tag `old` to `new` in the note's frontmatter tags.
pub fn rename_tag(note: &Note, old: &str, new: &str) -> (r: String)
    ensures
        r@ == rebuilt(note.raw@, rename_in(note_prop_tags(*note), old@, new@)),
{
    let ts = note.property_tags();
    let renamed = rename_in_exec(&ts, old, new);
    rebuild_frontmatter_with_tags(note.raw.as_str(), renamed.as_slice())
}

/// `ts` with each of `add` appended that it does not hold yet (checking
/// against the list as it grows).
pub open spec fn with_added(ts: Seq<Seq<char>>, add: Seq<Seq<char>>) -> Seq<Seq<char>>
    decreases add.len(),
{
    if add.len() == 0 {
        ts
    } else {
        let prev = with_added(ts, add.drop_last());
        if prev.contains(add.last()) {
            prev
        } else {
            prev.push(add.last())
        }
    }
}

/// `ts` without the entries that occur in `remove`.
pub open spec fn without_any(ts: Seq<Seq<char>>, remove: Seq<Seq<char>>) -> Seq<Seq<char>> {
    ts.filter(|x: Seq<char>| !remove.contains(x))
}

/// The new content after adding each of `tags` to the frontmatter tags
/// list: nothing when the list already holds all of them.
pub open spec fn batch_tagged(n: Note, tags: Seq<Seq<char>>) -> Option<Seq<char>> {
    let ts = note_prop_tags(n);
    if with_added(ts, tags).len() == ts.len() {
        None
    } else {
        Some(rebuilt(n.raw@, with_added(ts, tags)))
    }
}

/// The new content after removing each of `tags` from the frontmatter
/// tags list: nothing when the list holds none of them.
pub open spec fn batch_untagged(n: Note, tags: Seq<Seq<char>>) -> Option<Seq<char>> {
    let ts = note_prop_tags(n);
    if without_any(ts, tags).len() == ts.len() {
        None
    } else {
        Some(rebuilt(n.raw@, without_any(ts, tags)))
    }
}

proof fn lemma_with_added_len(ts: Seq<Seq<char>>, add: Seq<Seq<char>>)
    ensures
        with_added(ts, add).len() >= ts.len(),
        with_added(ts, add).subrange(0, ts.len() as int) == ts,
    decreases add.len(),
{
    if add.len() > 0 {
        lemma_with_added_len(ts, add.drop_last());
        let prev = with_added(ts, add.drop_last());
        assert(prev.push(add.last()).subrange(0, ts.len() as int) =~= prev.subrange(0, ts.len() as int));
    }
}

/// Adds every tag of `tags` that the frontmatter tags list lacks.
pub fn batch_tag(note: &Note, tags: &[String]) -> (r: Option<String>)
    ensures
        opt_view(r) == batch_tagged(*note, str_views(tags@)),
{
    let ts0 = note.property_tags();
    let mut ts = copy_strings(&ts0);
    let ghost tv = str_views(tags@);
    let mut added = false;
    let mut i: usize = 0;
    while i < tags.len()
        invariant
            i <= tags.len(),
            tv == str_views(tags@),
            str_views(ts@) == with_added(str_views(ts0@), tv.subrange(0, i as int)),
            added == (str_views(ts@).len() != str_views(ts0@).len()),
        decreases tags.len() - i,
    {
        proof {
            assert(tv.subrange(0, i + 1).drop_last() =~= tv.subrange(0, i as int));
            lemma_with_added_len(str_views(ts0@), tv.subrange(0, i as int));
        }
        if !contains_string(&ts, tags[i].as_str()) {
            let s = tags[i].clone();
            proof {
                lemma_str_views_push(ts@, s);
            }
            ts.push(s);
            added = true;
        }
        assert(str_views(ts@) == with_added(str_views(ts0@), tv.subrange(0, i + 1)));
        i = i + 1;
    }
    assert(tv.subrange(0, tags.len() as int) =~= tv);
    if !added {
        return None;
    }
    Some(rebuild_frontmatter_with_tags(note.raw.as_str(), ts.as_slice()))
}

/// Removes every tag of `tags` from the frontmatter tags list.
pub fn batch_untag(note: &Note, tags: &[String]) -> (r: Option<String>)
    ensures
        opt_view(r) == batch_untagged(*note, str_views(tags@)),
{
    let ts = note.property_tags();
    let mut out: Vec<String> = Vec::new();
    let mut i: usize = 0;
    while i < ts.len()
        invariant
            i <= ts.len(),
            str_views(out@) == without_any(str_views(ts@).subrange(0, i as int), str_views(tags@)),
        decreases ts.len() - i,
    {
        proof {
            reveal_with_fuel(Seq::filter, 1);
            assert(str_views(ts@).subrange(0, i + 1).drop_last() =~= str_views(ts@).subrange(0, i as int));
        }
        if !contains_string(tags, ts[i].as_str()) {
            let s = ts[i].clone();
            proof {
                lemma_str_views_push(out@, s);
            }
            out.push(s);
        }
        assert(str_views(out@) =~= without_any(str_views(ts@).subrange(0, i + 1), str_views(tags@)));
        i = i + 1;
    }
    assert(str_views(ts@).subrange(0, ts.len() as int) =~= str_views(ts@));
    if out.len() == ts.len() {
        return None;
    }
    Some(rebuild_frontmatter_with_tags(note.raw.as_str(), out.as_slice()))
}

proof fn lemma_filter_keeps_all<A>(s: Seq<A>, f: spec_fn(A) -> bool)
    ensures
        (forall|i: int| 0 <= i < s.len() ==> f(#[trigger] s[i])) <==> s.filter(f) == s,
    decreases s.len(),
{
    reveal_with_fuel(Seq::filter, 1);
    if s.len() > 0 {
        let d = s.drop_last();
        lemma_filter_keeps_all(d, f);
        d.filter_lemma(f);
        if forall|i: int| 0 <= i < s.len() ==> f(#[trigger] s[i]) {
            assert forall|i: int| 0 <= i < d.len() implies f(#[trigger] d[i]) by {
                assert(d[i] == s[i]);
            }
            assert(s.last() == s[s.len() - 1]);
            assert(d.push(s.last()) =~= s);
        }
        if s.filter(f) == s {
            if !f(s.last()) {
                assert(s.filter(f).len() == d.filter(f).len());
            } else {
                assert(d.filter(f) =~= s.filter(f).drop_last());
                assert forall|i: int| 0 <= i < s.len() implies f(#[trigger] s[i]) by {
                    if i < d.len() {
                        assert(d[i] == s[i]);
                    }
                }
            }
        }
    } else {
        assert(s.filter(f) =~= s);
    }
}

proof fn lemma_with_added_has(ts: Seq<Seq<char>>, add: Seq<Seq<char>>)
    ensures
        forall|i: int| 0 <= i < add.len() ==> with_added(ts, add).contains(#[trigger] add[i]),
        forall|i: int|
            0 <= i < with_added(ts, add).len() ==> ts.contains(#[trigger] with_added(ts, add)[i])
                || add.contains(with_added(ts, add)[i]),
    decreases add.len(),
{
    if add.len() > 0 {
        let d = add.drop_last();
        let prev = with_added(ts, d);
        lemma_with_added_has(ts, d);
        let cur = with_added(ts, add);
        assert forall|i: int| 0 <= i < add.len() implies cur.contains(#[trigger] add[i]) by {
            if i < d.len() {
                assert(d[i] == add[i]);
                let k = choose|k: int| 0 <= k < prev.len() && prev[k] == d[i];
                if !prev.contains(add.last()) {
                    assert(cur[k] == prev[k]);
                }
            } else if !prev.contains(add.last()) {
                assert(cur[prev.len() as int] == add.last());
            }
        }
        assert forall|i: int| 0 <= i < cur.len() implies ts.contains(#[trigger] cur[i]) || add.contains(cur[i]) by {
            if i < prev.len() {
                assert(cur[i] == prev[i]);
                if add.contains(prev[i]) && !ts.contains(prev[i]) {
                } else if !ts.contains(prev[i]) {
                    let k = choose|k: int| 0 <= k < d.len() && d[k] == prev[i];
                    assert(add[k] == d[k]);
                }
            } else {
                assert(cur[i] == add.last());
                assert(add[add.len() - 1] == add.last());
            }
        }
    }
}

/// Edits of a tags list. Removing `t` leaves no `t` and keeps every other
/// entry, in order, and changes nothing exactly when `t` is absent.
/// Renaming `old` to `new` keeps the length, puts `new` where `old` was,
/// keeps every other entry, and leaves no `old` behind when the names
/// differ. Adding a batch keeps the list as a prefix, ends with every tag
/// of the batch present, and brings in nothing else. Removing a batch
/// keeps exactly the entries outside it.
pub proof fn law_tag_list_edits(
    ts: Seq<Seq<char>>,
    t: Seq<char>,
    old: Seq<char>,
    new: Seq<char>,
    add: Seq<Seq<char>>,
    remove: Seq<Seq<char>>,
)
    ensures
        forall|i: int|
            0 <= i < drop_tag(ts, t).len() ==> #[trigger] drop_tag(ts, t)[i] != t && ts.contains(
                drop_tag(ts, t)[i],
            ),
        forall|j: int| 0 <= j < ts.len() && ts[j] != t ==> drop_tag(ts, t).contains(#[trigger] ts[j]),
        !ts.contains(t) <==> drop_tag(ts, t) == ts,
        !ts.contains(t) <==> drop_tag(ts, t).len() == ts.len(),
        rename_in(ts, old, new).len() == ts.len(),
        forall|j: int|
            0 <= j < ts.len() ==> #[trigger] rename_in(ts, old, new)[j] == (if ts[j] == old {
                new
            } else {
                ts[j]
            }),
        old != new ==> !rename_in(ts, old, new).contains(old),
        with_added(ts, add).subrange(0, ts.len() as int) == ts,
        forall|i: int| 0 <= i < add.len() ==> with_added(ts, add).contains(#[trigger] add[i]),
        forall|i: int|
            0 <= i < with_added(ts, add).len() ==> ts.contains(#[trigger] with_added(ts, add)[i])
                || add.contains(with_added(ts, add)[i]),
        forall|i: int|
            0 <= i < without_any(ts, remove).len() ==> !remove.contains(#[trigger] without_any(ts, remove)[i])
                && ts.contains(without_any(ts, remove)[i]),
        forall|j: int| 0 <= j < ts.len() && !remove.contains(ts[j]) ==> without_any(ts, remove).contains(#[trigger] ts[j]),
{
    let f = other_than(t);
    ts.filter_lemma(f);
    assert forall|i: int| 0 <= i < drop_tag(ts, t).len() implies ts.contains(#[trigger] drop_tag(ts, t)[i]) by {
        assert(ts.filter(f).contains(ts.filter(f)[i]));
        ts.lemma_filter_contains_rev(f, drop_tag(ts, t)[i]);
    }
    lemma_filter_keeps_all(ts, f);
    if drop_tag(ts, t).len() == ts.len() && ts.contains(t) {
        let k = choose|k: int| 0 <= k < ts.len() && ts[k] == t;
        assert(!f(ts[k]));
        lemma_filter_len_eq(ts, f);
    }
    let rn = rename_in(ts, old, new);
    if old != new && rn.contains(old) {
        let k = choose|k: int| 0 <= k < rn.len() && rn[k] == old;
        assert(rn[k] == (if ts[k] == old { new } else { ts[k] }));
    }
    lemma_with_added_len(ts, add);
    lemma_with_added_has(ts, add);
    let g = |x: Seq<char>| !remove.contains(x);
    assert(g =~= (|x: Seq<char>| !remove.contains(x)));
    assert(without_any(ts, remove) == ts.filter(g));
    ts.filter_lemma(g);
    assert forall|i: int| 0 <= i < without_any(ts, remove).len() implies ts.contains(#[trigger] without_any(ts, remove)[i]) by {
        assert(ts.filter(g).contains(ts.filter(g)[i]));
        ts.lemma_filter_contains_rev(g, without_any(ts, remove)[i]);
    }
}

proof fn lemma_filter_len_eq<A>(s: Seq<A>, f: spec_fn(A) -> bool)
    requires
        s.filter(f).len() == s.len(),
    ensures
        s.filter(f) == s,
    decreases s.len(),
{
    reveal_with_fuel(Seq::filter, 1);
    if s.len() > 0 {
        let d = s.drop_last();
        d.filter_lemma(f);
        if f(s.last()) {
            lemma_filter_len_eq(d, f);
            assert(d.push(s.last()) =~= s);
        }
    } else {
        assert(s.filter(f) =~= s);
    }
}

} // verus!
