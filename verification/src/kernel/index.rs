//! The vault index: notes by name and by tag, backlinks and unresolved links.

use vstd::prelude::*;
use crate::kernel::markdown::LinkSpec;
use crate::kernel::note::{link_views, parsed, str_views, lemma_str_views_push, Note, Wikilink};
use crate::kernel::text::{chars_of, eq_exec, lower, to_lower};
use crate::kernel::order::{insert_by, lemma_sort_by_contains, lemma_sort_by_sorted, sort_by, weak_order};

verus! {

// ---------------------------------------------------------------------------
// Keyed lists
// ---------------------------------------------------------------------------

/// The keys of a keyed list are distinct.
pub open spec fn keys_distinct<V>(g: Seq<(String, V)>) -> bool {
    forall|i: int, j: int| 0 <= i < j < g.len() ==> (#[trigger] g[i]).0@ != (#[trigger] g[j]).0@
}

/// `key` is a key of the list.
pub open spec fn has_key<V>(g: Seq<(String, V)>, key: Seq<char>) -> bool {
    exists|i: int| 0 <= i < g.len() && (#[trigger] g[i]).0@ == key
}

/// The paths stored under `key` (empty when the key is absent).
pub open spec fn lookup(g: Seq<(String, Vec<String>)>, key: Seq<char>) -> Seq<Seq<char>> {
    if has_key(g, key) {
        str_views(g[choose|i: int| 0 <= i < g.len() && (#[trigger] g[i]).0@ == key].1@)
    } else {
        Seq::empty()
    }
}

pub proof fn lemma_lookup_at(g: Seq<(String, Vec<String>)>, i: int)
    requires
        keys_distinct(g),
        0 <= i < g.len(),
    ensures
        lookup(g, g[i].0@) == str_views(g[i].1@),
{
    let key = g[i].0@;
    assert(has_key(g, key));
    let j = choose|j: int| 0 <= j < g.len() && (#[trigger] g[j]).0@ == key;
    if j != i {
        if j < i {
            assert(g[j].0@ != g[i].0@);
        } else {
            assert(g[i].0@ != g[j].0@);
        }
    }
}

/// Index of the entry with key `key`.
pub fn find_entry<V>(g: &Vec<(String, V)>, key: &[char]) -> (r: Option<usize>)
    ensures
        match r {
            Some(i) => i < g.len() && g@[i as int].0@ == key@,
            None => !has_key(g@, key@),
        },
{
    let mut i: usize = 0;
    while i < g.len()
        invariant
            i <= g.len(),
            forall|m: int| 0 <= m < i ==> (#[trigger] g@[m]).0@ != key@,
        decreases g.len() - i,
    {
        let kc = chars_of(g[i].0.as_str());
        if eq_exec(&kc, key) {
            return Some(i);
        }
        i = i + 1;
    }
    None
}

/// Adds `path` under `key`, creating the entry at the end if the key is new.
pub fn group_add(g: &mut Vec<(String, Vec<String>)>, key: &str, path: &str)
    requires
        keys_distinct(old(g)@),
    ensures
        keys_distinct(final(g)@),
        lookup(final(g)@, key@) == lookup(old(g)@, key@).push(path@),
        forall|k: Seq<char>| k != key@ ==> lookup(final(g)@, k) == lookup(old(g)@, k),
        forall|k: Seq<char>| has_key(final(g)@, k) <==> (has_key(old(g)@, k) || k == key@),
{
    let kc = chars_of(key);
    let ghost g0 = g@;
    match find_entry(g, &kc) {
        Some(i) => {
            let (k, mut ps) = g.remove(i);
            let ghost ps0 = ps@;
            let p = path.to_string();
            assert(p@ == path@) by {
                vstd::string::to_string_from_display_ensures_for_str(path, p);
            }
            proof {
                lemma_str_views_push(ps@, p);
            }
            ps.push(p);
            g.insert(i, (k, ps));
            proof {
                assert(g@ =~= g0.update(i as int, (k, ps)));
                assert forall|a: int, b: int| 0 <= a < b < g@.len() implies (#[trigger] g@[a]).0@
                    != (#[trigger] g@[b]).0@ by {
                    assert(g@[a].0@ == g0[a].0@);
                    assert(g@[b].0@ == g0[b].0@);
                }
                lemma_lookup_at(g0, i as int);
                lemma_lookup_at(g@, i as int);
                assert forall|kk: Seq<char>| kk != key@ implies lookup(g@, kk) == lookup(g0, kk) by {
                    if has_key(g0, kk) {
                        let j = choose|j: int| 0 <= j < g0.len() && (#[trigger] g0[j]).0@ == kk;
                        lemma_lookup_at(g0, j);
                        assert(g@[j].0@ == kk);
                        lemma_lookup_at(g@, j);
                    } else {
                        assert forall|j: int| 0 <= j < g@.len() implies (#[trigger] g@[j]).0@ != kk by {
                            assert(g@[j].0@ == g0[j].0@);
                        }
                    }
                }
                assert forall|kk: Seq<char>| has_key(g@, kk) <==> (has_key(g0, kk) || kk == key@) by {
                    if has_key(g@, kk) {
                        let j = choose|j: int| 0 <= j < g@.len() && (#[trigger] g@[j]).0@ == kk;
                        assert(g0[j].0@ == kk);
                    }
                    if has_key(g0, kk) {
                        let j = choose|j: int| 0 <= j < g0.len() && (#[trigger] g0[j]).0@ == kk;
                        assert(g@[j].0@ == kk);
                    }
                    if kk == key@ {
                        assert(g@[i as int].0@ == kk);
                    }
                }
            }
        },
        None => {
            let k = key.to_string();
            let p = path.to_string();
            assert(k@ == key@) by {
                vstd::string::to_string_from_display_ensures_for_str(key, k);
            }
            assert(p@ == path@) by {
                vstd::string::to_string_from_display_ensures_for_str(path, p);
            }
            let mut ps: Vec<String> = Vec::new();
            ps.push(p);
            assert(str_views(ps@) =~= seq![path@]);
            g.push((k, ps));
            proof {
                let n = g0.len() as int;
                assert forall|a: int, b: int| 0 <= a < b < g@.len() implies (#[trigger] g@[a]).0@
                    != (#[trigger] g@[b]).0@ by {
                    if b == n {
                        assert(g@[a] == g0[a]);
                    } else {
                        assert(g@[a] == g0[a]);
                        assert(g@[b] == g0[b]);
                    }
                }
                lemma_lookup_at(g@, n);
                assert(lookup(g0, key@) =~= Seq::<Seq<char>>::empty());
                assert(lookup(g@, key@) =~= lookup(g0, key@).push(path@));
                assert forall|kk: Seq<char>| kk != key@ implies lookup(g@, kk) == lookup(g0, kk) by {
                    if has_key(g0, kk) {
                        let j = choose|j: int| 0 <= j < g0.len() && (#[trigger] g0[j]).0@ == kk;
                        lemma_lookup_at(g0, j);
                        assert(g@[j] == g0[j]);
                        lemma_lookup_at(g@, j);
                    } else {
                        assert forall|j: int| 0 <= j < g@.len() implies (#[trigger] g@[j]).0@ != kk by {
                            if j < n {
                                assert(g@[j] == g0[j]);
                            }
                        }
                    }
                }
                assert forall|kk: Seq<char>| has_key(g@, kk) <==> (has_key(g0, kk) || kk == key@) by {
                    if has_key(g@, kk) {
                        let j = choose|j: int| 0 <= j < g@.len() && (#[trigger] g@[j]).0@ == kk;
                        if j < n {
                            assert(g@[j] == g0[j]);
                        }
                    }
                    if has_key(g0, kk) {
                        let j = choose|j: int| 0 <= j < g0.len() && (#[trigger] g0[j]).0@ == kk;
                        assert(g@[j] == g0[j]);
                    }
                    if kk == key@ {
                        assert(g@[n].0@ == kk);
                    }
                }
            }
        },
    }
}

// ---------------------------------------------------------------------------
// What the index holds, in terms of the notes
// ---------------------------------------------------------------------------

/// Paths of the notes whose lowercased name is `key`, in order.
pub open spec fn name_paths(notes: Seq<Note>, key: Seq<char>) -> Seq<Seq<char>>
    decreases notes.len(),
{
    if notes.len() == 0 {
        Seq::empty()
    } else {
        name_paths(notes.drop_last(), key) + if lower(notes.last().name@) == key {
            seq![notes.last().path@]
        } else {
            Seq::empty()
        }
    }
}

/// Paths of the notes that have tag `t`, in order.
pub open spec fn tag_paths(notes: Seq<Note>, t: Seq<char>) -> Seq<Seq<char>>
    decreases notes.len(),
{
    if notes.len() == 0 {
        Seq::empty()
    } else {
        tag_paths(notes.drop_last(), t) + if str_views(notes.last().tags@).contains(t) {
            seq![notes.last().path@]
        } else {
            Seq::empty()
        }
    }
}

/// A link target names a note of `all` (compared lowercased).
pub open spec fn known(all: Seq<Note>, target: Seq<char>) -> bool {
    name_paths(all, lower(target)).len() > 0
}

/// `path` once for each non-embed link of `links` to `target` that resolves.
pub open spec fn link_backrefs(path: Seq<char>, links: Seq<LinkSpec>, all: Seq<Note>, target: Seq<char>) -> Seq<Seq<char>>
    decreases links.len(),
{
    if links.len() == 0 {
        Seq::empty()
    } else {
        let l = links.last();
        link_backrefs(path, links.drop_last(), all, target) + if !l.is_embed && l.target == target
            && known(all, l.target) {
            seq![path]
        } else {
            Seq::empty()
        }
    }
}

/// The source paths of the resolved non-embed links to `target` (exactly
/// as written) in `notes`: one entry per link, in order.
pub open spec fn backlink_paths(notes: Seq<Note>, all: Seq<Note>, target: Seq<char>) -> Seq<Seq<char>>
    decreases notes.len(),
{
    if notes.len() == 0 {
        Seq::empty()
    } else {
        backlink_paths(notes.drop_last(), all, target) + link_backrefs(
            notes.last().path@,
            link_views(notes.last().wikilinks@),
            all,
            target,
        )
    }
}

/// `(path, target)` for each non-embed link of `links` that does not resolve.
pub open spec fn link_unresolved(path: Seq<char>, links: Seq<LinkSpec>, all: Seq<Note>) -> Seq<(Seq<char>, Seq<char>)>
    decreases links.len(),
{
    if links.len() == 0 {
        Seq::empty()
    } else {
        let l = links.last();
        link_unresolved(path, links.drop_last(), all) + if !l.is_embed && !known(all, l.target) {
            seq![(path, l.target)]
        } else {
            Seq::empty()
        }
    }
}

/// The unresolved non-embed links of `notes`, in order.
pub open spec fn unresolved_of(notes: Seq<Note>, all: Seq<Note>) -> Seq<(Seq<char>, Seq<char>)>
    decreases notes.len(),
{
    if notes.len() == 0 {
        Seq::empty()
    } else {
        unresolved_of(notes.drop_last(), all) + link_unresolved(
            notes.last().path@,
            link_views(notes.last().wikilinks@),
            all,
        )
    }
}

/// The views of a list of (source, target) pairs.
pub open spec fn pair_views(v: Seq<(String, String)>) -> Seq<(Seq<char>, Seq<char>)> {
    v.map_values(|p: (String, String)| (p.0@, p.1@))
}

/// Vault index for lookups by name, tag and link.
#[derive(Debug)]
pub struct VaultIndex {
    /// All notes, in the order they were given.
    pub notes: Vec<Note>,
    /// Notes by name (lowercase) → paths.
    pub by_name: Vec<(String, Vec<String>)>,
    /// All tags → note paths.
    pub tag_index: Vec<(String, Vec<String>)>,
    /// Backlinks: target name → source paths.
    pub backlinks: Vec<(String, Vec<String>)>,
    /// Unresolved links: (source path, target name).
    pub unresolved: Vec<(String, String)>,
}

impl VaultIndex {
    /// The index describes its notes: every keyed list is what the notes
    /// give.
    pub open spec fn wf(&self) -> bool {
        let notes = self.notes@;
        &&& keys_distinct(self.by_name@)
        &&& keys_distinct(self.tag_index@)
        &&& keys_distinct(self.backlinks@)
        &&& forall|k: Seq<char>| #[trigger] lookup(self.by_name@, k) == name_paths(notes, k)
        &&& forall|t: Seq<char>| #[trigger] lookup(self.tag_index@, t) == tag_paths(notes, t)
        &&& forall|t: Seq<char>| #[trigger] lookup(self.backlinks@, t) == backlink_paths(notes, notes, t)
        &&& pair_views(self.unresolved@) == unresolved_of(notes, notes)
    }

    /// Builds the index from the vault's Markdown files, given as
    /// `(path, content)` pairs: each is parsed into a note, then notes are
    /// indexed by lowercased name and by tag, and every non-embed link is
    /// recorded as a backlink of its target when some note has that name
    /// (compared lowercased), or else as unresolved.
    pub fn build(files: Vec<(String, String)>) -> (r: VaultIndex)
        requires
            forall|i: int| 0 <= i < files.len() ==> (#[trigger] files@[i]).1@.len() < usize::MAX / 4,
        ensures
            r.wf(),
            r.notes.len() == files.len(),
            forall|i: int| 0 <= i < files.len() ==> parsed(#[trigger] r.notes@[i], files@[i].0@, files@[i].1@),
    {
        let mut notes: Vec<Note> = Vec::new();
        let mut by_name: Vec<(String, Vec<String>)> = Vec::new();
        let mut tag_index: Vec<(String, Vec<String>)> = Vec::new();
        let mut i: usize = 0;
        while i < files.len()
            invariant
                i <= files.len(),
                notes.len() == i,
                forall|m: int| 0 <= m < files.len() ==> (#[trigger] files@[m]).1@.len() < usize::MAX / 4,
                forall|m: int| 0 <= m < i ==> parsed(#[trigger] notes@[m], files@[m].0@, files@[m].1@),
                keys_distinct(by_name@),
                keys_distinct(tag_index@),
                forall|k: Seq<char>| #[trigger] lookup(by_name@, k) == name_paths(notes@, k),
                forall|t: Seq<char>| #[trigger] lookup(tag_index@, t) == tag_paths(notes@, t),
            decreases files.len() - i,
        {
            let note = Note::parse_str(files[i].0.as_str(), files[i].1.as_str());
            let ghost prev = notes@;
            let lname = to_lower(note.name.as_str());
            group_add(&mut by_name, lname.as_str(), note.path.as_str());
            let mut j: usize = 0;
            while j < note.tags.len()
                invariant
                    j <= note.tags.len(),
                    keys_distinct(tag_index@),
                    crate::kernel::text::sorted_unique(str_views(note.tags@)),
                    forall|t: Seq<char>| #[trigger] lookup(tag_index@, t) == tag_paths(prev, t) + if str_views(
                        note.tags@,
                    ).subrange(0, j as int).contains(t) {
                        seq![note.path@]
                    } else {
                        Seq::empty()
                    },
                decreases note.tags.len() - j,
            {
                let ghost before = tag_index@;
                group_add(&mut tag_index, note.tags[j].as_str(), note.path.as_str());
                proof {
                    let tv = str_views(note.tags@);
                    assert forall|t: Seq<char>| #[trigger] lookup(tag_index@, t) == tag_paths(prev, t)
                        + if tv.subrange(0, j + 1).contains(t) {
                        seq![note.path@]
                    } else {
                        Seq::empty()
                    } by {
                        if t == tv[j as int] {
                            if tv.subrange(0, j as int).contains(t) {
                                let m = choose|m: int| 0 <= m < j && tv.subrange(0, j as int)[m] == t;
                                crate::kernel::text::lemma_lex_irrefl(t);
                                assert(crate::kernel::text::lex_lt(tv[m], tv[j as int]));
                            }
                            assert(tv.subrange(0, j + 1)[j as int] == t);
                        } else {
                            assert(tv.subrange(0, j + 1) =~= tv.subrange(0, j as int).push(tv[j as int]));
                            if tv.subrange(0, j as int).contains(t) {
                                let m = choose|m: int| 0 <= m < j && tv.subrange(0, j as int)[m] == t;
                                assert(tv.subrange(0, j + 1)[m] == t);
                            }
                        }
                    }
                }
                j = j + 1;
            }
            notes.push(note);
            proof {
                let tv = str_views(notes@.last().tags@);
                assert(notes@.drop_last() =~= prev);
                assert(tv.subrange(0, tv.len() as int) =~= tv);
                assert forall|t: Seq<char>| #[trigger] lookup(tag_index@, t) == tag_paths(notes@, t) by {
                    assert(tag_paths(notes@, t) == tag_paths(prev, t) + if tv.contains(t) {
                        seq![notes@.last().path@]
                    } else {
                        Seq::empty()
                    });
                }
                assert forall|k: Seq<char>| #[trigger] lookup(by_name@, k) == name_paths(notes@, k) by {
                    assert(name_paths(notes@, k) == name_paths(prev, k) + if lower(notes@.last().name@) == k {
                        seq![notes@.last().path@]
                    } else {
                        Seq::empty()
                    });
                }
            }
            i = i + 1;
        }
        let mut backlinks: Vec<(String, Vec<String>)> = Vec::new();
        let mut unresolved: Vec<(String, String)> = Vec::new();
        let mut n: usize = 0;
        while n < notes.len()
            invariant
                n <= notes.len(),
                keys_distinct(by_name@),
                keys_distinct(backlinks@),
                forall|k: Seq<char>| #[trigger] lookup(by_name@, k) == name_paths(notes@, k),
                forall|t: Seq<char>| #[trigger] lookup(backlinks@, t) == backlink_paths(notes@.subrange(0, n as int), notes@, t),
                pair_views(unresolved@) == unresolved_of(notes@.subrange(0, n as int), notes@),
            decreases notes.len() - n,
        {
            let note = &notes[n];
            let ghost pre = notes@.subrange(0, n as int);
            let ghost links = link_views(note.wikilinks@);
            let mut j: usize = 0;
            while j < note.wikilinks.len()
                invariant
                    j <= note.wikilinks.len(),
                    note == notes@[n as int],
                    links == link_views(note.wikilinks@),
                    keys_distinct(by_name@),
                    keys_distinct(backlinks@),
                    forall|k: Seq<char>| #[trigger] lookup(by_name@, k) == name_paths(notes@, k),
                    forall|t: Seq<char>| #[trigger] lookup(backlinks@, t) == backlink_paths(pre, notes@, t)
                        + link_backrefs(note.path@, links.subrange(0, j as int), notes@, t),
                    pair_views(unresolved@) == unresolved_of(pre, notes@) + link_unresolved(
                        note.path@,
                        links.subrange(0, j as int),
                        notes@,
                    ),
                decreases note.wikilinks.len() - j,
            {
                let link = &note.wikilinks[j];
                let ghost l = links[j as int];
                assert(l == link@);
                assert(links.subrange(0, j + 1).drop_last() =~= links.subrange(0, j as int));
                let ghost bl0 = backlinks@;
                let ghost un0 = pair_views(unresolved@);
                if !link.is_embed {
                    let lt = to_lower(link.target.as_str());
                    let lc = chars_of(lt.as_str());
                    let resolved = match find_entry(&by_name, &lc) {
                        Some(e) => {
                            proof {
                                lemma_lookup_at(by_name@, e as int);
                            }
                            by_name[e].1.len() > 0
                        },
                        None => {
                            assert(lookup(by_name@, lc@) =~= Seq::<Seq<char>>::empty());
                            false
                        },
                    };
                    assert(resolved == known(notes@, l.target));
                    if resolved {
                        group_add(&mut backlinks, link.target.as_str(), note.path.as_str());
                    } else {
                        let src = note.path.clone();
                        let tgt = link.target.clone();
                        unresolved.push((src, tgt));
                        assert(pair_views(unresolved@) =~= un0.push((note.path@, l.target)));
                    }
                }
                proof {
                    assert forall|t: Seq<char>| #[trigger] lookup(backlinks@, t) == backlink_paths(pre, notes@, t)
                        + link_backrefs(note.path@, links.subrange(0, j + 1), notes@, t) by {
                        assert(lookup(bl0, t) == backlink_paths(pre, notes@, t) + link_backrefs(
                            note.path@,
                            links.subrange(0, j as int),
                            notes@,
                            t,
                        ));
                    }
                    if link.is_embed {
                        assert(pair_views(unresolved@) == un0);
                    }
                }
                j = j + 1;
            }
            proof {
                assert(notes@.subrange(0, n + 1).drop_last() =~= pre);
                assert(links.subrange(0, links.len() as int) =~= links);
                assert forall|t: Seq<char>| #[trigger] lookup(backlinks@, t) == backlink_paths(
                    notes@.subrange(0, n + 1),
                    notes@,
                    t,
                ) by {
                    assert(notes@.subrange(0, n + 1).last() == notes@[n as int]);
                }
                assert(notes@.subrange(0, n + 1).last() == notes@[n as int]);
            }
            n = n + 1;
        }
        assert(notes@.subrange(0, notes.len() as int) =~= notes@);
        VaultIndex { notes, by_name, tag_index, backlinks, unresolved }
    }
}

// ---------------------------------------------------------------------------
// Queries
// ---------------------------------------------------------------------------

/// Index of the first note with path `p`.
pub open spec fn first_with_path(notes: Seq<Note>, p: Seq<char>) -> Option<int> {
    if exists|i: int| 0 <= i < notes.len() && (#[trigger] notes[i]).path@ == p {
        Some(choose|i: int| 0 <= i < notes.len() && (#[trigger] notes[i]).path@ == p && forall|j: int|
            0 <= j < i ==> (#[trigger] notes[j]).path@ != p)
    } else {
        None
    }
}

/// The notes at the given paths (the first note with each path; paths
/// with no note are skipped), in order.
pub open spec fn notes_at(notes: Seq<Note>, ps: Seq<Seq<char>>) -> Seq<Note>
    decreases ps.len(),
{
    if ps.len() == 0 {
        Seq::empty()
    } else {
        notes_at(notes, ps.drop_last()) + match first_with_path(notes, ps.last()) {
            Some(i) => seq![notes[i]],
            None => Seq::empty(),
        }
    }
}

/// The plain values of a list of note references.
pub open spec fn derefs(v: Seq<&Note>) -> Seq<Note> {
    v.map_values(|n: &Note| *n)
}

/// Index of the first note with path `p`.
fn note_with_path(notes: &Vec<Note>, p: &str) -> (r: Option<usize>)
    ensures
        match r {
            Some(i) => first_with_path(notes@, p@) == Some(i as int) && i < notes.len(),
            None => first_with_path(notes@, p@) is None,
        },
{
    let pc = chars_of(p);
    let mut i: usize = 0;
    while i < notes.len()
        invariant
            i <= notes.len(),
            pc@ == p@,
            forall|m: int| 0 <= m < i ==> (#[trigger] notes@[m]).path@ != p@,
        decreases notes.len() - i,
    {
        let c = chars_of(notes[i].path.as_str());
        if eq_exec(&c, &pc) {
            proof {
                let w = choose|w: int| 0 <= w < notes.len() && (#[trigger] notes@[w]).path@ == p@ && forall|j: int|
                    0 <= j < w ==> (#[trigger] notes@[j]).path@ != p@;
                assert(notes@[i as int].path@ == p@);
                if w < i {
                } else if w > i {
                    assert(notes@[i as int].path@ != p@);
                }
            }
            return Some(i);
        }
        i = i + 1;
    }
    None
}

/// The notes at `ps`, as references.
fn notes_at_exec<'a>(notes: &'a Vec<Note>, ps: &Vec<String>) -> (r: Vec<&'a Note>)
    ensures
        derefs(r@) == notes_at(notes@, str_views(ps@)),
{
    let mut out: Vec<&Note> = Vec::new();
    let mut i: usize = 0;
    while i < ps.len()
        invariant
            i <= ps.len(),
            derefs(out@) == notes_at(notes@, str_views(ps@).subrange(0, i as int)),
        decreases ps.len() - i,
    {
        let ghost before = derefs(out@);
        assert(str_views(ps@).subrange(0, i + 1).drop_last() =~= str_views(ps@).subrange(0, i as int));
        assert(str_views(ps@).subrange(0, i + 1).last() == ps@[i as int]@);
        match note_with_path(notes, ps[i].as_str()) {
            Some(k) => {
                out.push(&notes[k]);
                assert(derefs(out@) =~= before + seq![notes@[k as int]]);
            },
            None => {},
        }
        assert(derefs(out@) =~= notes_at(notes@, str_views(ps@).subrange(0, i + 1)));
        i = i + 1;
    }
    assert(str_views(ps@).subrange(0, ps.len() as int) =~= str_views(ps@));
    out
}

/// The paths stored under `key`.
fn lookup_exec(g: &Vec<(String, Vec<String>)>, key: &str) -> (r: Vec<String>)
    requires
        keys_distinct(g@),
    ensures
        str_views(r@) == lookup(g@, key@),
{
    let kc = chars_of(key);
    match find_entry(g, &kc) {
        Some(i) => {
            proof {
                lemma_lookup_at(g@, i as int);
            }
            crate::kernel::note::copy_strings(&g[i].1)
        },
        None => {
            let v: Vec<String> = Vec::new();
            assert(str_views(v@) =~= lookup(g@, key@));
            v
        },
    }
}

/// A tag with its number of notes.
pub open spec fn tag_count_views(v: Seq<(&String, usize)>) -> Seq<(Seq<char>, nat)> {
    v.map_values(|p: (&String, usize)| (p.0@, p.1 as nat))
}

/// Inserts `x` after every element whose count is at least `x`'s.
pub open spec fn insert_by_count(s: Seq<(Seq<char>, nat)>, x: (Seq<char>, nat)) -> Seq<(Seq<char>, nat)>
    decreases s.len(),
{
    if s.len() == 0 {
        seq![x]
    } else if s.last().1 >= x.1 {
        s.push(x)
    } else {
        insert_by_count(s.drop_last(), x).push(s.last())
    }
}

/// Stable sort by count, largest first.
pub open spec fn sort_by_count(s: Seq<(Seq<char>, nat)>) -> Seq<(Seq<char>, nat)>
    decreases s.len(),
{
    if s.len() == 0 {
        s
    } else {
        insert_by_count(sort_by_count(s.drop_last()), s.last())
    }
}

/// Each tag of a tag list with its number of paths.
pub open spec fn tag_counts(g: Seq<(String, Vec<String>)>) -> Seq<(Seq<char>, nat)> {
    g.map_values(|e: (String, Vec<String>)| (e.0@, e.1.len() as nat))
}

/// Position where `insert_by_count` puts `x`.
fn count_insert_pos(v: &Vec<(&String, usize)>, c: usize) -> (r: usize)
    ensures
        r <= v.len(),
        insert_by_count(tag_count_views(v@), (Seq::empty(), c as nat)).len() == v.len() + 1,
        forall|x: Seq<char>| insert_by_count(tag_count_views(v@), (x, c as nat)) == tag_count_views(
            v@,
        ).subrange(0, r as int).push((x, c as nat)) + tag_count_views(v@).subrange(r as int, v.len() as int),
{
    let mut r = v.len();
    proof {
        let tv = tag_count_views(v@);
        assert(tv.subrange(0, r as int) =~= tv);
        assert forall|x: Seq<char>| insert_by_count(tv, (x, c as nat)) == insert_by_count(
            tv.subrange(0, r as int),
            (x, c as nat),
        ) + tv.subrange(r as int, v.len() as int) by {
            assert(insert_by_count(tv, (x, c as nat)) + tv.subrange(r as int, v.len() as int) =~= insert_by_count(tv, (x, c as nat)));
        }
    }
    while r > 0 && v[r - 1].1 < c
        invariant
            r <= v.len(),
            forall|x: Seq<char>| insert_by_count(tag_count_views(v@), (x, c as nat)) == insert_by_count(
                tag_count_views(v@).subrange(0, r as int),
                (x, c as nat),
            ) + tag_count_views(v@).subrange(r as int, v.len() as int),
        decreases r,
    {
        proof {
            let tv = tag_count_views(v@);
            assert forall|x: Seq<char>| insert_by_count(tv, (x, c as nat)) == insert_by_count(
                tv.subrange(0, r - 1),
                (x, c as nat),
            ) + tv.subrange(r - 1, v.len() as int) by {
                let pre = tv.subrange(0, r as int);
                assert(pre.drop_last() =~= tv.subrange(0, r - 1));
                assert(insert_by_count(pre, (x, c as nat)) == insert_by_count(pre.drop_last(), (x, c as nat)).push(pre.last()));
                assert(tv.subrange(r - 1, v.len() as int) =~= seq![pre.last()] + tv.subrange(r as int, v.len() as int));
                assert(insert_by_count(pre.drop_last(), (x, c as nat)).push(pre.last()) + tv.subrange(r as int, v.len() as int)
                    =~= insert_by_count(pre.drop_last(), (x, c as nat)) + tv.subrange(r - 1, v.len() as int));
            }
        }
        r = r - 1;
    }
    proof {
        let tv = tag_count_views(v@);
        assert forall|x: Seq<char>| insert_by_count(tv, (x, c as nat)) == tv.subrange(0, r as int).push((x, c as nat))
            + tv.subrange(r as int, v.len() as int) by {
            let pre = tv.subrange(0, r as int);
            if r > 0 {
                assert(pre.last() == tv[r - 1]);
            }
        }
        lemma_insert_by_count_len(tv, (Seq::empty(), c as nat));
    }
    r
}

pub proof fn lemma_insert_by_count_len(s: Seq<(Seq<char>, nat)>, x: (Seq<char>, nat))
    ensures
        insert_by_count(s, x).len() == s.len() + 1,
    decreases s.len(),
{
    if s.len() > 0 && s.last().1 < x.1 {
        lemma_insert_by_count_len(s.drop_last(), x);
    }
}

/// Sorted by count, largest first.
pub open spec fn counts_descending(s: Seq<(Seq<char>, nat)>) -> bool {
    forall|i: int, j: int| 0 <= i < j < s.len() ==> (#[trigger] s[i]).1 >= (#[trigger] s[j]).1
}

impl VaultIndex {
    /// The first note whose lowercased name is the lowercased `name`.
    pub fn find_by_name(&self, name: &str) -> (r: Option<&Note>)
        requires
            keys_distinct(self.by_name@),
        ensures
            ({
                let ps = lookup(self.by_name@, lower(name@));
                if ps.len() == 0 {
                    r is None
                } else {
                    match first_with_path(self.notes@, ps[0]) {
                        Some(i) => r matches Some(n) && *n == self.notes@[i],
                        None => r is None,
                    }
                }
            }),
    {
        let key = to_lower(name);
        let ps = lookup_exec(&self.by_name, key.as_str());
        if ps.len() == 0 {
            return None;
        }
        match note_with_path(&self.notes, ps[0].as_str()) {
            Some(i) => Some(&self.notes[i]),
            None => None,
        }
    }

    /// The notes tagged `tag`.
    pub fn find_by_tag(&self, tag: &str) -> (r: Vec<&Note>)
        requires
            keys_distinct(self.tag_index@),
        ensures
            derefs(r@) == notes_at(self.notes@, lookup(self.tag_index@, tag@)),
    {
        let ps = lookup_exec(&self.tag_index, tag);
        notes_at_exec(&self.notes, &ps)
    }

    /// The notes linking to `name` (one entry per link).
    pub fn get_backlinks(&self, name: &str) -> (r: Vec<&Note>)
        requires
            keys_distinct(self.backlinks@),
        ensures
            derefs(r@) == notes_at(self.notes@, lookup(self.backlinks@, name@)),
    {
        let ps = lookup_exec(&self.backlinks, name);
        notes_at_exec(&self.notes, &ps)
    }

    /// Every tag with its number of notes, most used first (ties keep index
    /// order).
    pub fn all_tags(&self) -> (r: Vec<(&String, usize)>)
        ensures
            tag_count_views(r@) == sort_by_count(tag_counts(self.tag_index@)),
    {
        let mut out: Vec<(&String, usize)> = Vec::new();
        let mut i: usize = 0;
        while i < self.tag_index.len()
            invariant
                i <= self.tag_index.len(),
                tag_count_views(out@) == sort_by_count(tag_counts(self.tag_index@).subrange(0, i as int)),
            decreases self.tag_index.len() - i,
        {
            let c = self.tag_index[i].1.len();
            let pos = count_insert_pos(&out, c);
            let ghost before = tag_count_views(out@);
            out.insert(pos, (&self.tag_index[i].0, c));
            proof {
                let tc = tag_counts(self.tag_index@);
                assert(tc.subrange(0, i + 1).drop_last() =~= tc.subrange(0, i as int));
                assert(tc.subrange(0, i + 1).last() == (self.tag_index@[i as int].0@, c as nat));
                assert(tag_count_views(out@) =~= before.subrange(0, pos as int).push(
                    (self.tag_index@[i as int].0@, c as nat),
                ) + before.subrange(pos as int, before.len() as int));
            }
            i = i + 1;
        }
        assert(tag_counts(self.tag_index@).subrange(0, self.tag_index.len() as int) =~= tag_counts(
            self.tag_index@,
        ));
        out
    }
}

/// `p` is stored under some key of `g`.
pub open spec fn in_values(g: Seq<(String, Vec<String>)>, p: Seq<char>) -> bool {
    exists|i: int, j: int| 0 <= i < g.len() && 0 <= j < g[i].1.len() && (#[trigger] g[i].1@[j])@ == p
}

/// `p` is the first path stored under the lowercased target of some link
/// (embeds included) of some note.
pub open spec fn is_link_target(notes: Seq<Note>, by_name: Seq<(String, Vec<String>)>, p: Seq<char>) -> bool {
    exists|i: int, j: int|
        0 <= i < notes.len() && 0 <= j < notes[i].wikilinks.len() && {
            let ps = lookup(by_name, lower((#[trigger] notes[i].wikilinks@[j]).target@));
            ps.len() > 0 && ps[0] == p
        }
}

pub proof fn lemma_concat_contains<A>(a: Seq<A>, b: Seq<A>, x: A)
    ensures
        (a + b).contains(x) <==> (a.contains(x) || b.contains(x)),
{
    if (a + b).contains(x) {
        let k = choose|k: int| 0 <= k < (a + b).len() && (a + b)[k] == x;
        if k < a.len() {
            assert(a[k] == x);
        } else {
            assert(b[k - a.len()] == x);
        }
    }
    if a.contains(x) {
        let k = choose|k: int| 0 <= k < a.len() && a[k] == x;
        assert((a + b)[k] == x);
    }
    if b.contains(x) {
        let k = choose|k: int| 0 <= k < b.len() && b[k] == x;
        assert((a + b)[a.len() + k] == x);
    }
}

/// All paths of `g`, entry by entry.
pub open spec fn flat(g: Seq<(String, Vec<String>)>) -> Seq<Seq<char>>
    decreases g.len(),
{
    if g.len() == 0 {
        Seq::empty()
    } else {
        flat(g.drop_last()) + str_views(g.last().1@)
    }
}

#[verifier::spinoff_prover]
#[verifier::rlimit(40)]
pub proof fn lemma_flat_contains(g: Seq<(String, Vec<String>)>, p: Seq<char>)
    ensures
        flat(g).contains(p) <==> in_values(g, p),
    decreases g.len(),
{
    if g.len() > 0 {
        let h = g.drop_last();
        lemma_flat_contains(h, p);
        let l = str_views(g.last().1@);
        if flat(g).contains(p) {
            let k = choose|k: int| 0 <= k < flat(g).len() && flat(g)[k] == p;
            if k < flat(h).len() {
                assert(flat(h)[k] == p);
                let (a, b) = choose|a: int, b: int| 0 <= a < h.len() && 0 <= b < h[a].1.len() && (#[trigger] h[a].1@[b])@ == p;
                assert(g[a] == h[a]);
            } else {
                let b = k - flat(h).len();
                assert(l[b] == p);
                assert(g[g.len() - 1].1@[b]@ == p);
            }
        }
        if in_values(g, p) {
            let (a, b) = choose|a: int, b: int| 0 <= a < g.len() && 0 <= b < g[a].1.len() && (#[trigger] g[a].1@[b])@ == p;
            if a < h.len() {
                assert(h[a] == g[a]);
                assert(in_values(h, p));
                let k = choose|k: int| 0 <= k < flat(h).len() && flat(h)[k] == p;
                assert(flat(g)[k] == p);
            } else {
                assert(l[b] == p);
                assert(flat(g)[flat(h).len() + b] == p);
            }
        }
    }
}

/// Pushes every path of `g` onto `out`.
fn push_values(g: &Vec<(String, Vec<String>)>, out: &mut Vec<String>)
    ensures
        str_views(final(out)@) == str_views(old(out)@) + flat(g@),
{
    let mut i: usize = 0;
    assert(str_views(out@) =~= str_views(old(out)@) + flat(g@.subrange(0, 0)));
    while i < g.len()
        invariant
            i <= g.len(),
            str_views(out@) == str_views(old(out)@) + flat(g@.subrange(0, i as int)),
        decreases g.len() - i,
    {
        let ghost base = str_views(out@);
        let mut j: usize = 0;
        assert(str_views(out@) =~= base + str_views(g@[i as int].1@).subrange(0, 0));
        while j < g[i].1.len()
            invariant
                i < g.len(),
                j <= g@[i as int].1.len(),
                str_views(out@) == base + str_views(g@[i as int].1@).subrange(0, j as int),
            decreases g[i as int].1.len() - j,
        {
            let s = g[i].1[j].clone();
            proof {
                lemma_str_views_push(out@, s);
            }
            out.push(s);
            assert(str_views(out@) =~= base + str_views(g@[i as int].1@).subrange(0, j + 1));
            j = j + 1;
        }
        proof {
            assert(g@.subrange(0, i + 1).drop_last() =~= g@.subrange(0, i as int));
            assert(str_views(g@[i as int].1@).subrange(0, j as int) =~= str_views(g@[i as int].1@));
            assert(str_views(out@) =~= str_views(old(out)@) + flat(g@.subrange(0, i + 1)));
        }
        i = i + 1;
    }
    assert(g@.subrange(0, g.len() as int) =~= g@);
}

/// The first path stored under the lowercased target of each link of
/// `links`, for links whose target names some entry.
pub open spec fn link_firsts(by_name: Seq<(String, Vec<String>)>, links: Seq<Wikilink>) -> Seq<Seq<char>>
    decreases links.len(),
{
    if links.len() == 0 {
        Seq::empty()
    } else {
        let ps = lookup(by_name, lower(links.last().target@));
        link_firsts(by_name, links.drop_last()) + if ps.len() > 0 {
            seq![ps[0]]
        } else {
            Seq::empty()
        }
    }
}

/// [`link_firsts`] over the links of every note.
pub open spec fn notes_link_firsts(by_name: Seq<(String, Vec<String>)>, notes: Seq<Note>) -> Seq<Seq<char>>
    decreases notes.len(),
{
    if notes.len() == 0 {
        Seq::empty()
    } else {
        notes_link_firsts(by_name, notes.drop_last()) + link_firsts(by_name, notes.last().wikilinks@)
    }
}

pub proof fn lemma_link_firsts_contains(by_name: Seq<(String, Vec<String>)>, links: Seq<Wikilink>, p: Seq<char>)
    ensures
        link_firsts(by_name, links).contains(p) <==> exists|b: int| 0 <= b < links.len() && {
            let ps = lookup(by_name, lower((#[trigger] links[b]).target@));
            ps.len() > 0 && ps[0] == p
        },
    decreases links.len(),
{
    if links.len() > 0 {
        let h = links.drop_last();
        lemma_link_firsts_contains(by_name, h, p);
        let f = link_firsts(by_name, links);
        let fh = link_firsts(by_name, h);
        let ps = lookup(by_name, lower(links.last().target@));
        if f.contains(p) {
            let k = choose|k: int| 0 <= k < f.len() && f[k] == p;
            if k < fh.len() {
                assert(fh[k] == p);
                let b = choose|b: int| 0 <= b < h.len() && {
                    let ps = lookup(by_name, lower((#[trigger] h[b]).target@));
                    ps.len() > 0 && ps[0] == p
                };
                assert(links[b] == h[b]);
            } else {
                assert(links[links.len() - 1] == links.last());
            }
        }
        if exists|b: int| 0 <= b < links.len() && {
            let ps = lookup(by_name, lower((#[trigger] links[b]).target@));
            ps.len() > 0 && ps[0] == p
        } {
            let b = choose|b: int| 0 <= b < links.len() && {
                let ps = lookup(by_name, lower((#[trigger] links[b]).target@));
                ps.len() > 0 && ps[0] == p
            };
            if b < h.len() {
                assert(h[b] == links[b]);
                let k = choose|k: int| 0 <= k < fh.len() && fh[k] == p;
                assert(f[k] == p);
            } else {
                assert(f[fh.len() as int] == p);
            }
        }
    }
}

pub proof fn lemma_notes_link_firsts_contains(by_name: Seq<(String, Vec<String>)>, notes: Seq<Note>, p: Seq<char>)
    ensures
        notes_link_firsts(by_name, notes).contains(p) <==> is_link_target(notes, by_name, p),
    decreases notes.len(),
{
    if notes.len() > 0 {
        let h = notes.drop_last();
        lemma_notes_link_firsts_contains(by_name, h, p);
        let last = notes.last();
        lemma_link_firsts_contains(by_name, last.wikilinks@, p);
        let f = notes_link_firsts(by_name, notes);
        let fh = notes_link_firsts(by_name, h);
        let fl = link_firsts(by_name, last.wikilinks@);
        if f.contains(p) {
            let k = choose|k: int| 0 <= k < f.len() && f[k] == p;
            if k < fh.len() {
                assert(fh[k] == p);
                let (a, b) = choose|a: int, b: int|
                    0 <= a < h.len() && 0 <= b < h[a].wikilinks.len() && {
                        let ps = lookup(by_name, lower((#[trigger] h[a].wikilinks@[b]).target@));
                        ps.len() > 0 && ps[0] == p
                    };
                assert(notes[a] == h[a]);
            } else {
                assert(fl[k - fh.len()] == p);
                let b = choose|b: int| 0 <= b < last.wikilinks@.len() && {
                    let ps = lookup(by_name, lower((#[trigger] last.wikilinks@[b]).target@));
                    ps.len() > 0 && ps[0] == p
                };
                assert(notes[notes.len() - 1] == last);
            }
        }
        if is_link_target(notes, by_name, p) {
            let (a, b) = choose|a: int, b: int|
                0 <= a < notes.len() && 0 <= b < notes[a].wikilinks.len() && {
                    let ps = lookup(by_name, lower((#[trigger] notes[a].wikilinks@[b]).target@));
                    ps.len() > 0 && ps[0] == p
                };
            if a < h.len() {
                assert(h[a] == notes[a]);
                assert(is_link_target(h, by_name, p));
                let k = choose|k: int| 0 <= k < fh.len() && fh[k] == p;
                assert(f[k] == p);
            } else {
                assert(notes[a] == last);
                assert(fl.contains(p));
                let k = choose|k: int| 0 <= k < fl.len() && fl[k] == p;
                assert(f[fh.len() + k] == p);
            }
        }
    }
}

impl VaultIndex {
    /// Paths that some link reaches: every backlink source, and the first
    /// note named by each link's target.
    fn linked_paths(&self, with_sources: bool) -> (r: Vec<String>)
        requires
            keys_distinct(self.by_name@),
        ensures
            forall|p: Seq<char>| str_views(r@).contains(p) <==> ((with_sources && in_values(self.backlinks@, p))
                || is_link_target(self.notes@, self.by_name@, p)),
    {
        let mut out: Vec<String> = Vec::new();
        if with_sources {
            push_values(&self.backlinks, &mut out);
        }
        let ghost base = if with_sources {
            flat(self.backlinks@)
        } else {
            Seq::<Seq<char>>::empty()
        };
        assert(str_views(out@) =~= base);
        assert(str_views(out@) =~= base + notes_link_firsts(self.by_name@, self.notes@.subrange(0, 0)));
        let mut i: usize = 0;
        while i < self.notes.len()
            invariant
                i <= self.notes.len(),
                keys_distinct(self.by_name@),
                base == (if with_sources {
                    flat(self.backlinks@)
                } else {
                    Seq::<Seq<char>>::empty()
                }),
                str_views(out@) == base + notes_link_firsts(self.by_name@, self.notes@.subrange(0, i as int)),
            decreases self.notes.len() - i,
        {
            let note = &self.notes[i];
            let ghost mid = str_views(out@);
            let mut j: usize = 0;
            assert(str_views(out@) =~= mid + link_firsts(self.by_name@, note.wikilinks@.subrange(0, 0)));
            while j < note.wikilinks.len()
                invariant
                    i < self.notes.len(),
                    note == self.notes@[i as int],
                    j <= note.wikilinks.len(),
                    keys_distinct(self.by_name@),
                    str_views(out@) == mid + link_firsts(self.by_name@, note.wikilinks@.subrange(0, j as int)),
                decreases note.wikilinks.len() - j,
            {
                let key = to_lower(note.wikilinks[j].target.as_str());
                let ps = lookup_exec(&self.by_name, key.as_str());
                proof {
                    assert(note.wikilinks@.subrange(0, j + 1).drop_last() =~= note.wikilinks@.subrange(0, j as int));
                    assert(note.wikilinks@.subrange(0, j + 1).last() == note.wikilinks@[j as int]);
                }
                if ps.len() > 0 {
                    let s = ps[0].clone();
                    assert(s@ == str_views(ps@)[0]);
                    proof {
                        lemma_str_views_push(out@, s);
                    }
                    out.push(s);
                }
                assert(str_views(out@) =~= mid + link_firsts(self.by_name@, note.wikilinks@.subrange(0, j + 1)));
                j = j + 1;
            }
            proof {
                assert(note.wikilinks@.subrange(0, j as int) =~= note.wikilinks@);
                assert(self.notes@.subrange(0, i + 1).drop_last() =~= self.notes@.subrange(0, i as int));
                assert(self.notes@.subrange(0, i + 1).last() == self.notes@[i as int]);
                assert(str_views(out@) =~= base + notes_link_firsts(self.by_name@, self.notes@.subrange(0, i + 1)));
            }
            i = i + 1;
        }
        proof {
            assert(self.notes@.subrange(0, self.notes.len() as int) =~= self.notes@);
            assert forall|p: Seq<char>| str_views(out@).contains(p) <==> ((with_sources && in_values(self.backlinks@, p))
                || is_link_target(self.notes@, self.by_name@, p)) by {
                lemma_flat_contains(self.backlinks@, p);
                lemma_notes_link_firsts_contains(self.by_name@, self.notes@, p);
                lemma_concat_contains(base, notes_link_firsts(self.by_name@, self.notes@), p);
            }
        }
        out
    }

    /// Notes with no links of their own that no link reaches.
    pub fn orphans(&self) -> (r: Vec<&Note>)
        requires
            keys_distinct(self.by_name@),
        ensures
            derefs(r@) == self.notes@.filter(
                |n: Note|
                    n.wikilinks.len() == 0 && !in_values(self.backlinks@, n.path@) && !is_link_target(
                        self.notes@,
                        self.by_name@,
                        n.path@,
                    ),
            ),
    {
        let linked = self.linked_paths(true);
        let mut out: Vec<&Note> = Vec::new();
        let mut i: usize = 0;
        while i < self.notes.len()
            invariant
                i <= self.notes.len(),
                forall|p: Seq<char>| str_views(linked@).contains(p) <==> ((true && in_values(self.backlinks@, p))
                    || is_link_target(self.notes@, self.by_name@, p)),
                derefs(out@) == self.notes@.subrange(0, i as int).filter(
                    |n: Note|
                        n.wikilinks.len() == 0 && !in_values(self.backlinks@, n.path@) && !is_link_target(
                            self.notes@,
                            self.by_name@,
                            n.path@,
                        ),
                ),
            decreases self.notes.len() - i,
        {
            proof {
                reveal_with_fuel(Seq::filter, 1);
                assert(self.notes@.subrange(0, i + 1).drop_last() =~= self.notes@.subrange(0, i as int));
            }
            let note = &self.notes[i];
            if note.wikilinks.len() == 0 && !crate::kernel::note::contains_string(&linked, note.path.as_str()) {
                out.push(note);
            }
            assert(derefs(out@) =~= self.notes@.subrange(0, i + 1).filter(
                |n: Note|
                    n.wikilinks.len() == 0 && !in_values(self.backlinks@, n.path@) && !is_link_target(
                        self.notes@,
                        self.by_name@,
                        n.path@,
                    ),
            ));
            i = i + 1;
        }
        assert(self.notes@.subrange(0, self.notes.len() as int) =~= self.notes@);
        out
    }

    /// Dead ends: notes that have links of their own but that no link
    /// reaches.
    pub fn deadends(&self) -> (r: Vec<&Note>)
        requires
            keys_distinct(self.by_name@),
        ensures
            derefs(r@) == self.notes@.filter(
                |n: Note| n.wikilinks.len() > 0 && !is_link_target(self.notes@, self.by_name@, n.path@),
            ),
    {
        let targets = self.linked_paths(false);
        let mut out: Vec<&Note> = Vec::new();
        let mut i: usize = 0;
        while i < self.notes.len()
            invariant
                i <= self.notes.len(),
                forall|p: Seq<char>| str_views(targets@).contains(p) <==> ((false && in_values(self.backlinks@, p))
                    || is_link_target(self.notes@, self.by_name@, p)),
                derefs(out@) == self.notes@.subrange(0, i as int).filter(
                    |n: Note| n.wikilinks.len() > 0 && !is_link_target(self.notes@, self.by_name@, n.path@),
                ),
            decreases self.notes.len() - i,
        {
            proof {
                reveal_with_fuel(Seq::filter, 1);
                assert(self.notes@.subrange(0, i + 1).drop_last() =~= self.notes@.subrange(0, i as int));
            }
            let note = &self.notes[i];
            if note.wikilinks.len() > 0 && !crate::kernel::note::contains_string(&targets, note.path.as_str()) {
                out.push(note);
            }
            assert(derefs(out@) =~= self.notes@.subrange(0, i + 1).filter(
                |n: Note| n.wikilinks.len() > 0 && !is_link_target(self.notes@, self.by_name@, n.path@),
            ));
            i = i + 1;
        }
        assert(self.notes@.subrange(0, self.notes.len() as int) =~= self.notes@);
        out
    }
}


// ---------------------------------------------------------------------------
// Laws
// ---------------------------------------------------------------------------

proof fn lemma_tag_paths_contains(notes: Seq<Note>, t: Seq<char>, p: Seq<char>)
    ensures
        tag_paths(notes, t).contains(p) <==> exists|i: int|
            0 <= i < notes.len() && (#[trigger] notes[i]).path@ == p && str_views(notes[i].tags@).contains(t),
    decreases notes.len(),
{
    if notes.len() > 0 {
        let d = notes.drop_last();
        lemma_tag_paths_contains(d, t, p);
        let last_part: Seq<Seq<char>> = if str_views(notes.last().tags@).contains(t) {
            seq![notes.last().path@]
        } else {
            Seq::empty()
        };
        lemma_concat_contains(tag_paths(d, t), last_part, p);
        if exists|i: int| 0 <= i < d.len() && (#[trigger] d[i]).path@ == p && str_views(d[i].tags@).contains(t) {
            let i = choose|i: int| 0 <= i < d.len() && (#[trigger] d[i]).path@ == p && str_views(d[i].tags@).contains(t);
            assert(notes[i] == d[i]);
        }
        if exists|i: int| 0 <= i < notes.len() && (#[trigger] notes[i]).path@ == p && str_views(notes[i].tags@).contains(t) {
            let i = choose|i: int| 0 <= i < notes.len() && (#[trigger] notes[i]).path@ == p && str_views(notes[i].tags@).contains(t);
            if i < d.len() {
                assert(d[i] == notes[i]);
            } else {
                assert(last_part[0] == p);
            }
        }
    }
}

proof fn lemma_name_paths_contains(notes: Seq<Note>, k: Seq<char>, p: Seq<char>)
    ensures
        name_paths(notes, k).contains(p) <==> exists|i: int|
            0 <= i < notes.len() && (#[trigger] notes[i]).path@ == p && lower(notes[i].name@) == k,
    decreases notes.len(),
{
    if notes.len() > 0 {
        let d = notes.drop_last();
        lemma_name_paths_contains(d, k, p);
        let last_part: Seq<Seq<char>> = if lower(notes.last().name@) == k {
            seq![notes.last().path@]
        } else {
            Seq::empty()
        };
        lemma_concat_contains(name_paths(d, k), last_part, p);
        if exists|i: int| 0 <= i < d.len() && (#[trigger] d[i]).path@ == p && lower(d[i].name@) == k {
            let i = choose|i: int| 0 <= i < d.len() && (#[trigger] d[i]).path@ == p && lower(d[i].name@) == k;
            assert(notes[i] == d[i]);
        }
        if exists|i: int| 0 <= i < notes.len() && (#[trigger] notes[i]).path@ == p && lower(notes[i].name@) == k {
            let i = choose|i: int| 0 <= i < notes.len() && (#[trigger] notes[i]).path@ == p && lower(notes[i].name@) == k;
            if i < d.len() {
                assert(d[i] == notes[i]);
            } else {
                assert(last_part[0] == p);
            }
        }
    }
}

/// A path is listed under a tag exactly when a note at that path has the
/// tag.
pub proof fn law_tag_index(index: VaultIndex, t: Seq<char>, p: Seq<char>)
    requires
        index.wf(),
    ensures
        lookup(index.tag_index@, t).contains(p) <==> exists|i: int|
            0 <= i < index.notes@.len() && (#[trigger] index.notes@[i]).path@ == p && str_views(
                index.notes@[i].tags@,
            ).contains(t),
{
    lemma_tag_paths_contains(index.notes@, t, p);
}

/// A path is listed under a lowercased name exactly when a note at that
/// path has that name, lowercased.
pub proof fn law_name_index(index: VaultIndex, k: Seq<char>, p: Seq<char>)
    requires
        index.wf(),
    ensures
        lookup(index.by_name@, k).contains(p) <==> exists|i: int|
            0 <= i < index.notes@.len() && (#[trigger] index.notes@[i]).path@ == p && lower(index.notes@[i].name@) == k,
{
    lemma_name_paths_contains(index.notes@, k, p);
}

proof fn lemma_link_backrefs_has(path: Seq<char>, links: Seq<LinkSpec>, all: Seq<Note>, j: int)
    requires
        0 <= j < links.len(),
        !links[j].is_embed,
        known(all, links[j].target),
    ensures
        link_backrefs(path, links, all, links[j].target).contains(path),
    decreases links.len(),
{
    let t = links[j].target;
    let d = links.drop_last();
    let l = links.last();
    let last_part: Seq<Seq<char>> = if !l.is_embed && l.target == t && known(all, l.target) {
        seq![path]
    } else {
        Seq::empty()
    };
    lemma_concat_contains(link_backrefs(path, d, all, t), last_part, path);
    if j < d.len() {
        assert(d[j] == links[j]);
        lemma_link_backrefs_has(path, d, all, j);
    } else {
        assert(last_part[0] == path);
    }
}

proof fn lemma_backlink_paths_has(notes: Seq<Note>, all: Seq<Note>, i: int, j: int)
    requires
        0 <= i < notes.len(),
        0 <= j < notes[i].wikilinks@.len(),
        !notes[i].wikilinks@[j].is_embed,
        known(all, notes[i].wikilinks@[j].target@),
    ensures
        backlink_paths(notes, all, notes[i].wikilinks@[j].target@).contains(notes[i].path@),
    decreases notes.len(),
{
    let t = notes[i].wikilinks@[j].target@;
    let d = notes.drop_last();
    let tail = link_backrefs(notes.last().path@, link_views(notes.last().wikilinks@), all, t);
    lemma_concat_contains(backlink_paths(d, all, t), tail, notes[i].path@);
    if i < d.len() {
        assert(d[i] == notes[i]);
        lemma_backlink_paths_has(d, all, i, j);
    } else {
        let lv = link_views(notes[i].wikilinks@);
        assert(lv[j] == notes[i].wikilinks@[j]@);
        lemma_link_backrefs_has(notes[i].path@, lv, all, j);
    }
}

proof fn lemma_link_unresolved_has(path: Seq<char>, links: Seq<LinkSpec>, all: Seq<Note>, j: int)
    requires
        0 <= j < links.len(),
        !links[j].is_embed,
        !known(all, links[j].target),
    ensures
        link_unresolved(path, links, all).contains((path, links[j].target)),
    decreases links.len(),
{
    let x = (path, links[j].target);
    let d = links.drop_last();
    let l = links.last();
    let last_part: Seq<(Seq<char>, Seq<char>)> = if !l.is_embed && !known(all, l.target) {
        seq![(path, l.target)]
    } else {
        Seq::empty()
    };
    lemma_concat_contains(link_unresolved(path, d, all), last_part, x);
    if j < d.len() {
        assert(d[j] == links[j]);
        lemma_link_unresolved_has(path, d, all, j);
    } else {
        assert(last_part[0] == x);
    }
}

proof fn lemma_unresolved_of_has(notes: Seq<Note>, all: Seq<Note>, i: int, j: int)
    requires
        0 <= i < notes.len(),
        0 <= j < notes[i].wikilinks@.len(),
        !notes[i].wikilinks@[j].is_embed,
        !known(all, notes[i].wikilinks@[j].target@),
    ensures
        unresolved_of(notes, all).contains((notes[i].path@, notes[i].wikilinks@[j].target@)),
    decreases notes.len(),
{
    let x = (notes[i].path@, notes[i].wikilinks@[j].target@);
    let d = notes.drop_last();
    let tail = link_unresolved(notes.last().path@, link_views(notes.last().wikilinks@), all);
    lemma_concat_contains(unresolved_of(d, all), tail, x);
    if i < d.len() {
        assert(d[i] == notes[i]);
        lemma_unresolved_of_has(d, all, i, j);
    } else {
        let lv = link_views(notes[i].wikilinks@);
        assert(lv[j] == notes[i].wikilinks@[j]@);
        lemma_link_unresolved_has(notes[i].path@, lv, all, j);
    }
}

/// Every link of a note that is not an embed either resolves (some note
/// has its target as name, compared lowercased), and the note is then
/// among the backlinks of the target, or is listed as unresolved.
pub proof fn law_links_resolved_or_unresolved(index: VaultIndex, i: int, j: int)
    requires
        index.wf(),
        0 <= i < index.notes@.len(),
        0 <= j < index.notes@[i].wikilinks@.len(),
        !index.notes@[i].wikilinks@[j].is_embed,
    ensures
        ({
            let n = index.notes@[i];
            let t = n.wikilinks@[j].target@;
            &&& known(index.notes@, t) ==> lookup(index.backlinks@, t).contains(n.path@)
            &&& !known(index.notes@, t) ==> pair_views(index.unresolved@).contains((n.path@, t))
        }),
{
    let n = index.notes@[i];
    let t = n.wikilinks@[j].target@;
    if known(index.notes@, t) {
        lemma_backlink_paths_has(index.notes@, index.notes@, i, j);
        assert(lookup(index.backlinks@, t) == backlink_paths(index.notes@, index.notes@, t));
    } else {
        lemma_unresolved_of_has(index.notes@, index.notes@, i, j);
    }
}

proof fn lemma_backrefs_known(path: Seq<char>, links: Seq<LinkSpec>, all: Seq<Note>, t: Seq<char>)
    ensures
        link_backrefs(path, links, all, t).len() > 0 ==> known(all, t),
    decreases links.len(),
{
    if links.len() > 0 {
        lemma_backrefs_known(path, links.drop_last(), all, t);
    }
}

proof fn lemma_backlinks_known(notes: Seq<Note>, all: Seq<Note>, t: Seq<char>)
    ensures
        backlink_paths(notes, all, t).len() > 0 ==> known(all, t),
    decreases notes.len(),
{
    if notes.len() > 0 {
        lemma_backlinks_known(notes.drop_last(), all, t);
        lemma_backrefs_known(notes.last().path@, link_views(notes.last().wikilinks@), all, t);
    }
}

proof fn lemma_link_unresolved_unknown(path: Seq<char>, links: Seq<LinkSpec>, all: Seq<Note>, p: Seq<char>, t: Seq<char>)
    ensures
        link_unresolved(path, links, all).contains((p, t)) ==> !known(all, t),
    decreases links.len(),
{
    if links.len() > 0 {
        lemma_link_unresolved_unknown(path, links.drop_last(), all, p, t);
        let prev = link_unresolved(path, links.drop_last(), all);
        let l = links.last();
        if link_unresolved(path, links, all).contains((p, t)) {
            let k = choose|k: int| 0 <= k < link_unresolved(path, links, all).len()
                && link_unresolved(path, links, all)[k] == (p, t);
            if k < prev.len() {
                assert(prev[k] == (p, t));
                assert(prev.contains((p, t)));
            }
        }
    }
}

proof fn lemma_unresolved_unknown(notes: Seq<Note>, all: Seq<Note>, p: Seq<char>, t: Seq<char>)
    ensures
        unresolved_of(notes, all).contains((p, t)) ==> !known(all, t),
    decreases notes.len(),
{
    if notes.len() > 0 {
        let prev = unresolved_of(notes.drop_last(), all);
        let last = link_unresolved(notes.last().path@, link_views(notes.last().wikilinks@), all);
        lemma_unresolved_unknown(notes.drop_last(), all, p, t);
        lemma_link_unresolved_unknown(notes.last().path@, link_views(notes.last().wikilinks@), all, p, t);
        if unresolved_of(notes, all).contains((p, t)) {
            let k = choose|k: int| 0 <= k < unresolved_of(notes, all).len() && unresolved_of(notes, all)[k] == (p, t);
            if k < prev.len() {
                assert(prev[k] == (p, t));
                assert(prev.contains((p, t)));
            } else {
                assert(last[k - prev.len()] == (p, t));
                assert(last.contains((p, t)));
            }
        }
    }
}

/// A backlink target resolves: some note has it as name (compared
/// lowercased); an unresolved link's target names no note.
pub proof fn law_backlinks_resolve(index: VaultIndex, t: Seq<char>, p: Seq<char>)
    requires
        index.wf(),
    ensures
        lookup(index.backlinks@, t).len() > 0 ==> lookup(index.by_name@, lower(t)).len() > 0,
        pair_views(index.unresolved@).contains((p, t)) ==> lookup(index.by_name@, lower(t)).len() == 0,
{
    assert(lookup(index.backlinks@, t) == backlink_paths(index.notes@, index.notes@, t));
    assert(lookup(index.by_name@, lower(t)) == name_paths(index.notes@, lower(t)));
    lemma_backlinks_known(index.notes@, index.notes@, t);
    lemma_unresolved_unknown(index.notes@, index.notes@, p, t);
}

/// No two notes share a path.
pub open spec fn paths_distinct(notes: Seq<Note>) -> bool {
    forall|i: int, j: int| 0 <= i < j < notes.len() ==> (#[trigger] notes[i]).path@ != (#[trigger] notes[j]).path@
}

/// Looking a name up finds a note exactly when some note has that name
/// (compared lowercased), and where paths are distinct the note found is
/// one with that name.
pub proof fn law_find_by_name(index: VaultIndex, q: Seq<char>)
    requires
        index.wf(),
        paths_distinct(index.notes@),
    ensures
        lookup(index.by_name@, lower(q)).len() > 0 <==> exists|i: int|
            0 <= i < index.notes@.len() && lower((#[trigger] index.notes@[i]).name@) == lower(q),
        lookup(index.by_name@, lower(q)).len() > 0 ==> (first_with_path(
            index.notes@,
            lookup(index.by_name@, lower(q))[0],
        ) matches Some(i) && lower(index.notes@[i].name@) == lower(q)),
{
    let notes = index.notes@;
    let k = lower(q);
    let ps = lookup(index.by_name@, k);
    if ps.len() > 0 {
        law_name_index(index, k, ps[0]);
        assert(ps.contains(ps[0]));
        let i = choose|i: int| 0 <= i < notes.len() && (#[trigger] notes[i]).path@ == ps[0] && lower(notes[i].name@) == k;
        let j = first_with_path(notes, ps[0])->0;
        assert(notes[j].path@ == ps[0]);
        if i != j {
            if i < j {
                assert(notes[i].path@ != notes[j].path@);
            } else {
                assert(notes[j].path@ != notes[i].path@);
            }
        }
    }
    if exists|i: int| 0 <= i < notes.len() && lower((#[trigger] notes[i]).name@) == k {
        let i = choose|i: int| 0 <= i < notes.len() && lower((#[trigger] notes[i]).name@) == k;
        law_name_index(index, k, notes[i].path@);
    }
}

proof fn lemma_backrefs_paths(path: Seq<char>, links: Seq<LinkSpec>, all: Seq<Note>, t: Seq<char>, p: Seq<char>)
    ensures
        link_backrefs(path, links, all, t).contains(p) ==> p == path && known(all, t) && exists|j: int|
            0 <= j < links.len() && (#[trigger] links[j]).target == t && !links[j].is_embed,
    decreases links.len(),
{
    if links.len() > 0 {
        let d = links.drop_last();
        lemma_backrefs_paths(path, d, all, t, p);
        let prev = link_backrefs(path, d, all, t);
        if link_backrefs(path, links, all, t).contains(p) {
            let k = choose|k: int| 0 <= k < link_backrefs(path, links, all, t).len()
                && link_backrefs(path, links, all, t)[k] == p;
            if k < prev.len() {
                assert(prev[k] == p);
                assert(prev.contains(p));
                let j = choose|j: int| 0 <= j < d.len() && (#[trigger] d[j]).target == t && !d[j].is_embed;
                assert(links[j] == d[j]);
            } else {
                assert(links[links.len() - 1] == links.last());
            }
        }
    }
}

proof fn lemma_backlink_sources(notes: Seq<Note>, all: Seq<Note>, t: Seq<char>, p: Seq<char>)
    ensures
        backlink_paths(notes, all, t).contains(p) ==> known(all, t) && exists|i: int, j: int|
            0 <= i < notes.len() && 0 <= j < notes[i].wikilinks@.len() && (#[trigger] notes[i]).path@ == p
                && (#[trigger] notes[i].wikilinks@[j]).target@ == t && !notes[i].wikilinks@[j].is_embed,
    decreases notes.len(),
{
    if notes.len() > 0 {
        let d = notes.drop_last();
        let prev = backlink_paths(d, all, t);
        let lv = link_views(notes.last().wikilinks@);
        let last = link_backrefs(notes.last().path@, lv, all, t);
        lemma_backlink_sources(d, all, t, p);
        lemma_backrefs_paths(notes.last().path@, lv, all, t, p);
        if backlink_paths(notes, all, t).contains(p) {
            let k = choose|k: int| 0 <= k < backlink_paths(notes, all, t).len() && backlink_paths(notes, all, t)[k] == p;
            if k < prev.len() {
                assert(prev[k] == p);
                assert(prev.contains(p));
                let (i, j) = choose|i: int, j: int|
                    0 <= i < d.len() && 0 <= j < d[i].wikilinks@.len() && (#[trigger] d[i]).path@ == p
                        && (#[trigger] d[i].wikilinks@[j]).target@ == t && !d[i].wikilinks@[j].is_embed;
                assert(notes[i] == d[i]);
            } else {
                assert(last[k - prev.len()] == p);
                assert(last.contains(p));
                let i = notes.len() - 1;
                assert(notes[i] == notes.last());
                let j = choose|j: int| 0 <= j < lv.len() && (#[trigger] lv[j]).target == t && !lv[j].is_embed;
                assert(lv[j] == notes[i].wikilinks@[j]@);
                assert(notes[i].wikilinks@[j].target@ == t);
            }
        }
    }
}

proof fn lemma_unresolved_paths(path: Seq<char>, links: Seq<LinkSpec>, all: Seq<Note>, p: Seq<char>, t: Seq<char>)
    ensures
        link_unresolved(path, links, all).contains((p, t)) ==> p == path && !known(all, t) && exists|j: int|
            0 <= j < links.len() && (#[trigger] links[j]).target == t && !links[j].is_embed,
    decreases links.len(),
{
    if links.len() > 0 {
        let d = links.drop_last();
        lemma_unresolved_paths(path, d, all, p, t);
        let prev = link_unresolved(path, d, all);
        if link_unresolved(path, links, all).contains((p, t)) {
            let k = choose|k: int| 0 <= k < link_unresolved(path, links, all).len()
                && link_unresolved(path, links, all)[k] == (p, t);
            if k < prev.len() {
                assert(prev[k] == (p, t));
                assert(prev.contains((p, t)));
                let j = choose|j: int| 0 <= j < d.len() && (#[trigger] d[j]).target == t && !d[j].is_embed;
                assert(links[j] == d[j]);
            } else {
                assert(links[links.len() - 1] == links.last());
            }
        }
    }
}

proof fn lemma_unresolved_sources(notes: Seq<Note>, all: Seq<Note>, p: Seq<char>, t: Seq<char>)
    ensures
        unresolved_of(notes, all).contains((p, t)) ==> !known(all, t) && exists|i: int, j: int|
            0 <= i < notes.len() && 0 <= j < notes[i].wikilinks@.len() && (#[trigger] notes[i]).path@ == p
                && (#[trigger] notes[i].wikilinks@[j]).target@ == t && !notes[i].wikilinks@[j].is_embed,
    decreases notes.len(),
{
    if notes.len() > 0 {
        let d = notes.drop_last();
        let prev = unresolved_of(d, all);
        let lv = link_views(notes.last().wikilinks@);
        let last = link_unresolved(notes.last().path@, lv, all);
        lemma_unresolved_sources(d, all, p, t);
        lemma_unresolved_paths(notes.last().path@, lv, all, p, t);
        if unresolved_of(notes, all).contains((p, t)) {
            let k = choose|k: int| 0 <= k < unresolved_of(notes, all).len() && unresolved_of(notes, all)[k] == (p, t);
            if k < prev.len() {
                assert(prev[k] == (p, t));
                assert(prev.contains((p, t)));
                let (i, j) = choose|i: int, j: int|
                    0 <= i < d.len() && 0 <= j < d[i].wikilinks@.len() && (#[trigger] d[i]).path@ == p
                        && (#[trigger] d[i].wikilinks@[j]).target@ == t && !d[i].wikilinks@[j].is_embed;
                assert(notes[i] == d[i]);
            } else {
                assert(last[k - prev.len()] == (p, t));
                assert(last.contains((p, t)));
                let i = notes.len() - 1;
                assert(notes[i] == notes.last());
                let j = choose|j: int| 0 <= j < lv.len() && (#[trigger] lv[j]).target == t && !lv[j].is_embed;
                assert(lv[j] == notes[i].wikilinks@[j]@);
                assert(notes[i].wikilinks@[j].target@ == t);
            }
        }
    }
}

/// Every path the index lists as a backlink source or as the source of an
/// unresolved link is the path of one of its notes.
pub proof fn law_index_sources_are_notes(index: VaultIndex, t: Seq<char>, p: Seq<char>)
    requires
        index.wf(),
    ensures
        lookup(index.backlinks@, t).contains(p) ==> exists|i: int|
            0 <= i < index.notes@.len() && (#[trigger] index.notes@[i]).path@ == p,
        pair_views(index.unresolved@).contains((p, t)) ==> exists|i: int|
            0 <= i < index.notes@.len() && (#[trigger] index.notes@[i]).path@ == p,
{
    assert(lookup(index.backlinks@, t) == backlink_paths(index.notes@, index.notes@, t));
    lemma_backlink_sources(index.notes@, index.notes@, t, p);
    lemma_unresolved_sources(index.notes@, index.notes@, p, t);
}

/// Every entry of the index comes from a link that is not an embed: a
/// backlink source `p` of `t` is a note with a non-embed link to `t` that
/// resolves, and an unresolved pair `(p, t)` is a note at `p` with a
/// non-embed link to `t` that names no note. Embedded files are never
/// counted as backlinks nor reported as unresolved.
pub proof fn law_index_entries_are_links(index: VaultIndex, t: Seq<char>, p: Seq<char>)
    requires
        index.wf(),
    ensures
        lookup(index.backlinks@, t).contains(p) ==> known(index.notes@, t) && exists|i: int, j: int|
            0 <= i < index.notes@.len() && 0 <= j < index.notes@[i].wikilinks@.len()
                && (#[trigger] index.notes@[i]).path@ == p
                && (#[trigger] index.notes@[i].wikilinks@[j]).target@ == t
                && !index.notes@[i].wikilinks@[j].is_embed,
        pair_views(index.unresolved@).contains((p, t)) ==> !known(index.notes@, t) && exists|i: int, j: int|
            0 <= i < index.notes@.len() && 0 <= j < index.notes@[i].wikilinks@.len()
                && (#[trigger] index.notes@[i]).path@ == p
                && (#[trigger] index.notes@[i].wikilinks@[j]).target@ == t
                && !index.notes@[i].wikilinks@[j].is_embed,
{
    assert(lookup(index.backlinks@, t) == backlink_paths(index.notes@, index.notes@, t));
    lemma_backlink_sources(index.notes@, index.notes@, t, p);
    lemma_unresolved_sources(index.notes@, index.notes@, p, t);
}

/// No note is both an orphan and a dead end, and neither is reached by
/// any link.
pub proof fn law_orphans_and_deadends(index: VaultIndex, n: Note)
    ensures
        ({
            let orph = index.notes@.filter(
                |m: Note|
                    m.wikilinks.len() == 0 && !in_values(index.backlinks@, m.path@) && !is_link_target(
                        index.notes@,
                        index.by_name@,
                        m.path@,
                    ),
            );
            let dead = index.notes@.filter(
                |m: Note| m.wikilinks.len() > 0 && !is_link_target(index.notes@, index.by_name@, m.path@),
            );
            &&& !(orph.contains(n) && dead.contains(n))
            &&& (orph.contains(n) || dead.contains(n)) ==> !is_link_target(index.notes@, index.by_name@, n.path@)
        }),
{
    let fo = |m: Note|
        m.wikilinks.len() == 0 && !in_values(index.backlinks@, m.path@) && !is_link_target(
            index.notes@,
            index.by_name@,
            m.path@,
        );
    let fd = |m: Note| m.wikilinks.len() > 0 && !is_link_target(index.notes@, index.by_name@, m.path@);
    let orph = index.notes@.filter(fo);
    let dead = index.notes@.filter(fd);
    if orph.contains(n) {
        let k = choose|k: int| 0 <= k < orph.len() && orph[k] == n;
        index.notes@.lemma_filter_pred(fo, k);
    }
    if dead.contains(n) {
        let k = choose|k: int| 0 <= k < dead.len() && dead[k] == n;
        index.notes@.lemma_filter_pred(fd, k);
    }
}

/// Most used first (as `all_tags` orders).
pub open spec fn count_before() -> spec_fn((Seq<char>, nat), (Seq<char>, nat)) -> bool {
    |a: (Seq<char>, nat), b: (Seq<char>, nat)| a.1 > b.1
}

proof fn lemma_insert_by_count_is(s: Seq<(Seq<char>, nat)>, x: (Seq<char>, nat))
    ensures
        insert_by_count(s, x) == insert_by(s, x, count_before()),
    decreases s.len(),
{
    if s.len() > 0 && s.last().1 < x.1 {
        lemma_insert_by_count_is(s.drop_last(), x);
    }
}

proof fn lemma_sort_by_count_is(s: Seq<(Seq<char>, nat)>)
    ensures
        sort_by_count(s) == sort_by(s, count_before()),
    decreases s.len(),
{
    if s.len() > 0 {
        lemma_sort_by_count_is(s.drop_last());
        lemma_insert_by_count_is(sort_by_count(s.drop_last()), s.last());
    }
}

/// The tag list comes most used first and holds every tag of the index
/// with its number of notes.
pub proof fn law_all_tags(g: Seq<(String, Vec<String>)>)
    ensures
        counts_descending(sort_by_count(tag_counts(g))),
        forall|e: (Seq<char>, nat)| #[trigger] sort_by_count(tag_counts(g)).contains(e) <==> tag_counts(g).contains(e),
{
    let s = tag_counts(g);
    lemma_sort_by_count_is(s);
    assert(weak_order(count_before()));
    lemma_sort_by_sorted(s, count_before());
    let r = sort_by_count(s);
    assert forall|i: int, j: int| 0 <= i < j < r.len() implies (#[trigger] r[i]).1 >= (#[trigger] r[j]).1 by {
        assert(!count_before()(r[j], r[i]));
    }
    assert forall|e: (Seq<char>, nat)| #[trigger] sort_by_count(s).contains(e) <==> s.contains(e) by {
        lemma_sort_by_contains(s, count_before(), e);
    }
}

} // verus!
