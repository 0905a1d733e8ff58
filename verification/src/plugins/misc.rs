//! Vault-level helpers: repairing broken links with stub notes, ranking
//! notes by words, recent notes, and the list of named vaults.

use vstd::prelude::*;
use crate::kernel::config::Config;
use crate::kernel::note::contains_string;
use crate::kernel::vault::exists_in;
use crate::kernel::index::pair_views;
use crate::kernel::note::{lemma_str_views_push, str_views, Note};
use crate::kernel::order::{lemma_insert_by_at, lemma_sort_by_contains, lemma_sort_by_sorted, sort_by, sorted_by, weak_order};
use crate::kernel::paths::{extension, extension_of, join, path_join, path_starts_with, starts_with_path};
use crate::kernel::text::{chars_of, eq_exec, lex_lt, lex_lt_exec, push_all, string_of};
use crate::plugins::files::{lit_dot_md, lit_dot_md_exec, lit_md, lit_md_exec};

verus! {

/// `\n\n> Auto-created by vault repair.\n`.
pub open spec fn lit_stub_tail() -> Seq<char> {
    seq!['\n', '\n', '>', ' ', 'A', 'u', 't', 'o', '-', 'c', 'r', 'e', 'a', 't', 'e', 'd', ' ', 'b', 'y', ' ', 'v', 'a', 'u', 'l', 't', ' ', 'r', 'e', 'p', 'a', 'i', 'r', '.', '\n']
}

pub(crate) fn lit_stub_tail_exec() -> (r: Vec<char>)
    ensures
        r@ == lit_stub_tail(),
{
    let v = vec!['\n', '\n', '>', ' ', 'A', 'u', 't', 'o', '-', 'c', 'r', 'e', 'a', 't', 'e', 'd', ' ', 'b', 'y', ' ', 'v', 'a', 'u', 'l', 't', ' ', 'r', 'e', 'p', 'a', 'i', 'r', '.', '\n'];
    assert(v@ =~= lit_stub_tail());
    v
}

/// `.obsidian`.
pub open spec fn lit_obsidian() -> Seq<char> {
    seq!['.', 'o', 'b', 's', 'i', 'd', 'i', 'a', 'n']
}

pub(crate) fn lit_obsidian_exec() -> (r: Vec<char>)
    ensures
        r@ == lit_obsidian(),
{
    let v = vec!['.', 'o', 'b', 's', 'i', 'd', 'i', 'a', 'n'];
    assert(v@ =~= lit_obsidian());
    v
}


// ---------------------------------------------------------------------------
// Which files are notes
// ---------------------------------------------------------------------------

/// A directory entry the vault walk skips: a name starting with `.`,
/// except the `.obsidian` folder.
pub open spec fn hidden_name(name: Seq<char>) -> bool {
    name.len() > 0 && name[0] == '.' && name != lit_obsidian()
}

/// Whether the walk skips an entry of this name.
pub fn is_hidden(name: &str) -> (r: bool)
    ensures
        r == hidden_name(name@),
{
    let c = chars_of(name);
    c.len() > 0 && c[0] == '.' && !eq_exec(&c, &lit_obsidian_exec())
}

/// A file of the walk that is a note: a `.md` file outside the vault's
/// `.obsidian` folder.
pub open spec fn note_file(root: Seq<char>, path: Seq<char>) -> bool {
    extension_of(path) == Some(lit_md()) && !path_starts_with(path, path_join(root, lit_obsidian()))
}

/// Whether a file of the walk is a note.
pub fn is_note_file(root: &str, path: &str) -> (r: bool)
    ensures
        r == note_file(root@, path@),
{
    let is_md = match extension(path) {
        Some(e) => eq_exec(&chars_of(e.as_str()), &lit_md_exec()),
        None => false,
    };
    if !is_md {
        return false;
    }
    let ob = join(root, string_of(&lit_obsidian_exec()).as_str());
    !starts_with_path(path, ob.as_str())
}

// ---------------------------------------------------------------------------
// Repair
// ---------------------------------------------------------------------------

/// The stub note created for an unresolved link target: its path
/// (`<target>.md` under the root) and text.
pub open spec fn stub_for(root: Seq<char>, target: Seq<char>) -> (Seq<char>, Seq<char>) {
    (path_join(root, target + lit_dot_md()), seq!['#', ' '] + target + lit_stub_tail())
}

/// The stub note for an unresolved link target.
pub fn repair_stub(root: &str, target: &str) -> (r: (String, String))
    ensures
        (r.0@, r.1@) == stub_for(root@, target@),
{
    let mut f = chars_of(target);
    push_all(&mut f, &lit_dot_md_exec());
    let path = join(root, string_of(&f).as_str());
    let mut c = vec!['#', ' '];
    assert(c@ =~= seq!['#', ' ']);
    push_all(&mut c, &chars_of(target));
    push_all(&mut c, &lit_stub_tail_exec());
    (path, string_of(&c))
}

/// A stub for this path is already in the plan.
pub open spec fn planned(plan: Seq<(Seq<char>, Seq<char>)>, p: Seq<char>) -> bool {
    exists|k: int| 0 <= k < plan.len() && (#[trigger] plan[k]).0 == p
}

/// The stubs a repair writes, in the order of the unresolved links
/// `(source, target)`: one per target whose stub path neither exists nor
/// was planned before.
pub open spec fn repair_plan_spec(root: Seq<char>, unresolved: Seq<(Seq<char>, Seq<char>)>, existing: Seq<String>) -> Seq<(Seq<char>, Seq<char>)>
    decreases unresolved.len(),
{
    if unresolved.len() == 0 {
        Seq::empty()
    } else {
        let prev = repair_plan_spec(root, unresolved.drop_last(), existing);
        let st = stub_for(root, unresolved.last().1);
        if exists_in(existing, st.0) || planned(prev, st.0) {
            prev
        } else {
            prev.push(st)
        }
    }
}

fn planned_exec(plan: &Vec<(String, String)>, p: &str) -> (r: bool)
    ensures
        r == planned(pair_views(plan@), p@),
{
    let pc = chars_of(p);
    let mut i: usize = 0;
    while i < plan.len()
        invariant
            i <= plan.len(),
            pc@ == p@,
            forall|k: int| 0 <= k < i ==> (#[trigger] pair_views(plan@)[k]).0 != p@,
        decreases plan.len() - i,
    {
        assert(pair_views(plan@)[i as int].0 == plan@[i as int].0@);
        if eq_exec(&chars_of(plan[i].0.as_str()), &pc) {
            assert(pair_views(plan@)[i as int].0 == p@);
            return true;
        }
        i = i + 1;
    }
    false
}

/// The stubs a repair writes for the unresolved links, given the paths
/// that exist: (path, text) for each target whose stub path neither
/// exists nor was planned for an earlier link.
pub fn repair_plan(root: &str, unresolved: &Vec<(String, String)>, existing: &Vec<String>) -> (r: Vec<(String, String)>)
    ensures
        pair_views(r@) == repair_plan_spec(root@, pair_views(unresolved@), existing@),
{
    let ghost uv = pair_views(unresolved@);
    let mut out: Vec<(String, String)> = Vec::new();
    let mut i: usize = 0;
    while i < unresolved.len()
        invariant
            i <= unresolved.len(),
            uv == pair_views(unresolved@),
            pair_views(out@) == repair_plan_spec(root@, uv.subrange(0, i as int), existing@),
        decreases unresolved.len() - i,
    {
        proof {
            assert(uv.subrange(0, i + 1).drop_last() =~= uv.subrange(0, i as int));
            assert(uv.subrange(0, i + 1).last() == uv[i as int]);
        }
        let st = repair_stub(root, unresolved[i].1.as_str());
        if !contains_string(existing, st.0.as_str()) && !planned_exec(&out, st.0.as_str()) {
            out.push(st);
            assert(pair_views(out@) =~= repair_plan_spec(root@, uv.subrange(0, i + 1), existing@));
        }
        i = i + 1;
    }
    assert(uv.subrange(0, unresolved.len() as int) =~= uv);
    out
}

// ---------------------------------------------------------------------------
// Word count ranking
// ---------------------------------------------------------------------------

/// More words first.
pub open spec fn words_before() -> spec_fn(Note, Note) -> bool {
    |a: Note, b: Note| a.word_count > b.word_count
}

/// At most the first `n` of `s`.
pub open spec fn first_n<T>(s: Seq<T>, n: nat) -> Seq<T> {
    if s.len() <= n {
        s
    } else {
        s.subrange(0, n as int)
    }
}

/// The notes with the most words, at most twenty, most first (ties in
/// note order).
pub fn wordcount_ranking(notes: &[Note]) -> (r: Vec<&Note>)
    ensures
        r@.map_values(|n: &Note| *n) == first_n(sort_by(notes@, words_before()), 20),
{
    let ghost nv = notes@;
    let mut out: Vec<&Note> = Vec::new();
    let mut i: usize = 0;
    while i < notes.len()
        invariant
            i <= notes.len(),
            nv == notes@,
            out@.map_values(|n: &Note| *n) == sort_by(nv.subrange(0, i as int), words_before()),
        decreases notes.len() - i,
    {
        let n = &notes[i];
        let mut pos = out.len();
        while pos > 0 && out[pos - 1].word_count < n.word_count
            invariant
                pos <= out.len(),
                forall|j: int| pos <= j < out.len() ==> (#[trigger] out@[j]).word_count < n.word_count,
            decreases pos,
        {
            pos = pos - 1;
        }
        let ghost before = out@.map_values(|x: &Note| *x);
        proof {
            lemma_insert_by_at(before, *n, words_before(), pos as int);
            assert(nv.subrange(0, i + 1).drop_last() =~= nv.subrange(0, i as int));
            assert(nv.subrange(0, i + 1).last() == *n);
        }
        out.insert(pos, n);
        assert(out@.map_values(|x: &Note| *x) =~= before.subrange(0, pos as int).push(*n) + before.subrange(
            pos as int,
            before.len() as int,
        ));
        assert(sort_by(nv.subrange(0, i + 1), words_before()) == crate::kernel::order::insert_by(
            sort_by(nv.subrange(0, i as int), words_before()),
            *n,
            words_before(),
        ));
        i = i + 1;
    }
    assert(nv.subrange(0, notes.len() as int) =~= nv);
    if out.len() > 20 {
        out.truncate(20);
    }
    assert(out@.map_values(|x: &Note| *x) =~= first_n(sort_by(nv, words_before()), 20));
    out
}

// ---------------------------------------------------------------------------
// Recent notes
// ---------------------------------------------------------------------------

/// More recent first.
pub open spec fn time_before() -> spec_fn((Seq<char>, int), (Seq<char>, int)) -> bool {
    |a: (Seq<char>, int), b: (Seq<char>, int)| a.1 > b.1
}

/// Files with their modification time (nanoseconds from the Unix epoch).
pub open spec fn timed_views(v: Seq<(String, i128)>) -> Seq<(Seq<char>, int)> {
    v.map_values(|e: (String, i128)| (e.0@, e.1 as int))
}

/// The `count` most recently modified notes, most recent first.
pub open spec fn recent_spec(root: Seq<char>, files: Seq<(Seq<char>, int)>, count: nat) -> Seq<(Seq<char>, int)> {
    first_n(sort_by(files.filter(|e: (Seq<char>, int)| note_file(root, e.0)), time_before()), count)
}

/// The most recently modified notes among the walked files.
pub fn recent_notes(root: &str, files: &Vec<(String, i128)>, count: usize) -> (r: Vec<(String, i128)>)
    ensures
        timed_views(r@) == recent_spec(root@, timed_views(files@), count as nat),
{
    let ghost fv = timed_views(files@);
    let ghost keep = |e: (Seq<char>, int)| note_file(root@, e.0);
    let mut out: Vec<(String, i128)> = Vec::new();
    let mut i: usize = 0;
    while i < files.len()
        invariant
            i <= files.len(),
            fv == timed_views(files@),
            keep == (|e: (Seq<char>, int)| note_file(root@, e.0)),
            timed_views(out@) == sort_by(fv.subrange(0, i as int).filter(keep), time_before()),
        decreases files.len() - i,
    {
        proof {
            reveal_with_fuel(Seq::filter, 1);
            assert(fv.subrange(0, i + 1).drop_last() =~= fv.subrange(0, i as int));
        }
        if is_note_file(root, files[i].0.as_str()) {
            let t = files[i].1;
            let mut pos = out.len();
            while pos > 0 && out[pos - 1].1 < t
                invariant
                    pos <= out.len(),
                    forall|j: int| pos <= j < out.len() ==> (#[trigger] out@[j]).1 < t,
                decreases pos,
            {
                pos = pos - 1;
            }
            let ghost before = timed_views(out@);
            let ghost x = (files@[i as int].0@, t as int);
            proof {
                lemma_insert_by_at(before, x, time_before(), pos as int);
                assert(fv.subrange(0, i + 1).last() == x);
                assert(fv.subrange(0, i + 1).filter(keep) == fv.subrange(0, i as int).filter(keep).push(x));
                let fnew = fv.subrange(0, i + 1).filter(keep);
                assert(fnew.drop_last() =~= fv.subrange(0, i as int).filter(keep));
                assert(fnew.last() == x);
            }
            out.insert(pos, (files[i].0.clone(), t));
            assert(timed_views(out@) =~= before.subrange(0, pos as int).push(x) + before.subrange(
                pos as int,
                before.len() as int,
            ));
        } else {
            assert(fv.subrange(0, i + 1).last() == (files@[i as int].0@, files@[i as int].1 as int));
            assert(fv.subrange(0, i + 1).filter(keep) == fv.subrange(0, i as int).filter(keep));
        }
        i = i + 1;
    }
    assert(fv.subrange(0, files.len() as int) =~= fv);
    if out.len() > count {
        out.truncate(count);
    }
    assert(timed_views(out@) =~= recent_spec(root@, fv, count as nat));
    out
}

// ---------------------------------------------------------------------------
// Named vaults
// ---------------------------------------------------------------------------

/// By name.
pub open spec fn name_before() -> spec_fn((Seq<char>, Seq<char>), (Seq<char>, Seq<char>)) -> bool {
    |a: (Seq<char>, Seq<char>), b: (Seq<char>, Seq<char>)| lex_lt(a.0, b.0)
}

/// The named vaults sorted by name.
pub fn sorted_vaults(config: &Config) -> (r: Vec<(String, String)>)
    ensures
        pair_views(r@) == sort_by(pair_views(config.vaults@), name_before()),
{
    let v = &config.vaults;
    let ghost pv = pair_views(v@);
    let mut out: Vec<(String, String)> = Vec::new();
    let mut i: usize = 0;
    while i < v.len()
        invariant
            i <= v.len(),
            pv == pair_views(v@),
            pair_views(out@) == sort_by(pv.subrange(0, i as int), name_before()),
        decreases v.len() - i,
    {
        let x = chars_of(v[i].0.as_str());
        let mut pos = out.len();
        while pos > 0 && lex_lt_exec(&x, &chars_of(out[pos - 1].0.as_str()))
            invariant
                pos <= out.len(),
                x@ == v@[i as int].0@,
                forall|j: int| pos <= j < out.len() ==> lex_lt(x@, (#[trigger] out@[j]).0@),
            decreases pos,
        {
            pos = pos - 1;
        }
        let ghost before = pair_views(out@);
        let ghost e = (v@[i as int].0@, v@[i as int].1@);
        proof {
            lemma_insert_by_at(before, e, name_before(), pos as int);
            assert(pv.subrange(0, i + 1).drop_last() =~= pv.subrange(0, i as int));
        }
        out.insert(pos, (v[i].0.clone(), v[i].1.clone()));
        assert(pair_views(out@) =~= before.subrange(0, pos as int).push(e) + before.subrange(
            pos as int,
            before.len() as int,
        ));
        i = i + 1;
    }
    assert(pv.subrange(0, v.len() as int) =~= pv);
    out
}


// ---------------------------------------------------------------------------
// Laws
// ---------------------------------------------------------------------------

/// The word count ranking and the recent notes come in order: most words
/// first, most recent first.
pub proof fn law_rankings_sorted(notes: Seq<Note>, files: Seq<(Seq<char>, int)>)
    ensures
        sorted_by(sort_by(notes, words_before()), words_before()),
        sorted_by(sort_by(files, time_before()), time_before()),
        forall|i: int, j: int|
            0 <= i < j < sort_by(notes, words_before()).len() ==> (#[trigger] sort_by(notes, words_before())[i]).word_count
                >= (#[trigger] sort_by(notes, words_before())[j]).word_count,
        forall|i: int, j: int|
            0 <= i < j < sort_by(files, time_before()).len() ==> (#[trigger] sort_by(files, time_before())[i]).1
                >= (#[trigger] sort_by(files, time_before())[j]).1,
        forall|n: Note| #[trigger] sort_by(notes, words_before()).contains(n) <==> notes.contains(n),
        forall|f: (Seq<char>, int)| #[trigger] sort_by(files, time_before()).contains(f) <==> files.contains(f),
{
    assert(weak_order(words_before()));
    assert(weak_order(time_before()));
    lemma_sort_by_sorted(notes, words_before());
    lemma_sort_by_sorted(files, time_before());
    let a = sort_by(notes, words_before());
    let b = sort_by(files, time_before());
    assert forall|i: int, j: int| 0 <= i < j < a.len() implies (#[trigger] a[i]).word_count >= (#[trigger] a[j]).word_count by {
        assert(!words_before()(a[j], a[i]));
    }
    assert forall|i: int, j: int| 0 <= i < j < b.len() implies (#[trigger] b[i]).1 >= (#[trigger] b[j]).1 by {
        assert(!time_before()(b[j], b[i]));
    }
    assert forall|n: Note| #[trigger] a.contains(n) <==> notes.contains(n) by {
        lemma_sort_by_contains(notes, words_before(), n);
    }
    assert forall|f: (Seq<char>, int)| #[trigger] b.contains(f) <==> files.contains(f) by {
        lemma_sort_by_contains(files, time_before(), f);
    }
}

/// The recent-notes listing: at most `count` entries, each a note file of
/// the walk, most recent first, and no note file left out is more recent
/// than one listed. The word-count ranking likewise lists at most twenty
/// notes, most words first, and no note left out has more words than one
/// listed.
pub proof fn law_top_lists(root: Seq<char>, files: Seq<(Seq<char>, int)>, count: nat, notes: Seq<Note>)
    ensures
        recent_spec(root, files, count).len() <= count,
        forall|i: int|
            0 <= i < recent_spec(root, files, count).len() ==> note_file(
                root,
                (#[trigger] recent_spec(root, files, count)[i]).0,
            ) && files.contains(recent_spec(root, files, count)[i]),
        forall|i: int, j: int|
            0 <= i < j < recent_spec(root, files, count).len() ==> (#[trigger] recent_spec(root, files, count)[i]).1
                >= (#[trigger] recent_spec(root, files, count)[j]).1,
        forall|f: (Seq<char>, int), i: int|
            files.contains(f) && note_file(root, f.0) && !recent_spec(root, files, count).contains(f) && 0 <= i
                < recent_spec(root, files, count).len() ==> (#[trigger] recent_spec(root, files, count)[i]).1
                >= #[trigger] f.1,
        first_n(sort_by(notes, words_before()), 20).len() <= 20,
        forall|n: Note, i: int|
            notes.contains(n) && !first_n(sort_by(notes, words_before()), 20).contains(n) && 0 <= i
                < first_n(sort_by(notes, words_before()), 20).len() ==> (#[trigger] first_n(
                sort_by(notes, words_before()),
                20,
            )[i]).word_count >= (#[trigger] n.word_count),
{
    let pred = |e: (Seq<char>, int)| note_file(root, e.0);
    let nf = files.filter(pred);
    assert(recent_spec(root, files, count) == first_n(sort_by(nf, time_before()), count));
    let srt = sort_by(nf, time_before());
    let r = first_n(srt, count);
    law_rankings_sorted(notes, nf);
    files.filter_lemma(pred);
    assert forall|i: int| 0 <= i < r.len() implies note_file(root, (#[trigger] r[i]).0) && files.contains(r[i]) by {
        assert(r[i] == srt[i]);
        assert(srt.contains(srt[i]));
        assert(nf.contains(srt[i]));
        let k = choose|k: int| 0 <= k < nf.len() && nf[k] == srt[i];
        assert(pred(nf[k]));
        files.lemma_filter_contains_rev(pred, srt[i]);
    }
    assert forall|i: int, j: int| 0 <= i < j < r.len() implies (#[trigger] r[i]).1 >= (#[trigger] r[j]).1 by {
        assert(r[i] == srt[i] && r[j] == srt[j]);
    }
    assert forall|f: (Seq<char>, int), i: int|
        files.contains(f) && note_file(root, f.0) && !r.contains(f) && 0 <= i < r.len() implies (#[trigger] r[i]).1
            >= #[trigger] f.1 by {
        let k = choose|k: int| 0 <= k < files.len() && files[k] == f;
        assert(pred(files[k]));
        assert(nf.contains(f));
        assert(srt.contains(f));
        let p = choose|p: int| 0 <= p < srt.len() && srt[p] == f;
        if p < r.len() {
            assert(r[p] == srt[p]);
            assert(r.contains(f));
        }
        assert(r[i] == srt[i]);
    }
    let ws = sort_by(notes, words_before());
    let w = first_n(ws, 20);
    assert forall|n: Note, i: int|
        notes.contains(n) && !w.contains(n) && 0 <= i < w.len() implies (#[trigger] w[i]).word_count >= (#[trigger] n.word_count) by {
        assert(ws.contains(n));
        let p = choose|p: int| 0 <= p < ws.len() && ws[p] == n;
        if p < w.len() {
            assert(w[p] == ws[p]);
            assert(w.contains(n));
        }
        assert(w[i] == ws[i]);
    }
}

} // verus!
