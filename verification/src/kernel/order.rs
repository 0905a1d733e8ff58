//! Stable insertion sorting, and the order of file paths.

use vstd::prelude::*;
use crate::kernel::note::{lemma_str_views_push, str_views};
use crate::kernel::text::{chars_of, lemma_lex_irrefl, lemma_lex_total, lemma_lex_trans, lex_lt, lex_lt_exec};

verus! {

/// Inserts `x` after the trailing elements that `x` does not go before.
pub open spec fn insert_by<T>(s: Seq<T>, x: T, before: spec_fn(T, T) -> bool) -> Seq<T>
    decreases s.len(),
{
    if s.len() == 0 {
        seq![x]
    } else if !before(x, s.last()) {
        s.push(x)
    } else {
        insert_by(s.drop_last(), x, before).push(s.last())
    }
}

/// Stable insertion sort: each element in turn is inserted after the
/// elements it does not go before.
pub open spec fn sort_by<T>(s: Seq<T>, before: spec_fn(T, T) -> bool) -> Seq<T>
    decreases s.len(),
{
    if s.len() == 0 {
        s
    } else {
        insert_by(sort_by(s.drop_last(), before), s.last(), before)
    }
}

/// Where `insert_by` puts `x`: after the prefix up to `r`, when `x` goes
/// before every later element and not before the one at `r - 1`.
pub proof fn lemma_insert_by_at<T>(s: Seq<T>, x: T, before: spec_fn(T, T) -> bool, r: int)
    requires
        0 <= r <= s.len(),
        forall|j: int| r <= j < s.len() ==> before(x, #[trigger] s[j]),
        r > 0 ==> !before(x, s[r - 1]),
    ensures
        insert_by(s, x, before) == s.subrange(0, r).push(x) + s.subrange(r, s.len() as int),
    decreases s.len(),
{
    if s.len() == r {
        assert(s.subrange(0, r) =~= s);
        assert(s.subrange(r, s.len() as int) =~= Seq::<T>::empty());
        if s.len() > 0 {
            assert(s.last() == s[r - 1]);
        }
        assert(s.push(x) + Seq::<T>::empty() =~= s.push(x));
    } else {
        let d = s.drop_last();
        assert(before(x, s[s.len() - 1]));
        assert forall|j: int| r <= j < d.len() implies before(x, #[trigger] d[j]) by {
            assert(d[j] == s[j]);
        }
        if r > 0 {
            assert(d[r - 1] == s[r - 1]);
        }
        lemma_insert_by_at(d, x, before, r);
        assert(d.subrange(0, r) =~= s.subrange(0, r));
        assert(d.subrange(r, d.len() as int).push(s.last()) =~= s.subrange(r, s.len() as int));
        assert((s.subrange(0, r).push(x) + d.subrange(r, d.len() as int)).push(s.last())
            =~= s.subrange(0, r).push(x) + s.subrange(r, s.len() as int));
    }
}

pub proof fn lemma_insert_by_len<T>(s: Seq<T>, x: T, before: spec_fn(T, T) -> bool)
    ensures
        insert_by(s, x, before).len() == s.len() + 1,
    decreases s.len(),
{
    if s.len() > 0 && before(x, s.last()) {
        lemma_insert_by_len(s.drop_last(), x, before);
    }
}

pub proof fn lemma_sort_by_len<T>(s: Seq<T>, before: spec_fn(T, T) -> bool)
    ensures
        sort_by(s, before).len() == s.len(),
    decreases s.len(),
{
    if s.len() > 0 {
        lemma_sort_by_len(s.drop_last(), before);
        lemma_insert_by_len(sort_by(s.drop_last(), before), s.last(), before);
    }
}

// ---------------------------------------------------------------------------
// Paths
// ---------------------------------------------------------------------------

/// The rank of a character when comparing paths: the separator `/` below
/// every other character, the rest by code point (the order of their
/// UTF-8 bytes).
pub open spec fn path_rank(c: char) -> int {
    if c == '/' {
        -1
    } else {
        c as int
    }
}

/// Path order: character by character, `/` lowest, a proper prefix first.
/// For paths without repeated or trailing separators (as a directory walk
/// gives them) this is the component-by-component order of `Path`.
pub open spec fn path_lt(a: Seq<char>, b: Seq<char>) -> bool
    decreases a.len(),
{
    if a.len() == 0 {
        b.len() > 0
    } else if b.len() == 0 {
        false
    } else if a[0] != b[0] {
        path_rank(a[0]) < path_rank(b[0])
    } else {
        path_lt(a.drop_first(), b.drop_first())
    }
}

/// The comparison used to sort paths.
pub open spec fn path_before() -> spec_fn(Seq<char>, Seq<char>) -> bool {
    |a: Seq<char>, b: Seq<char>| path_lt(a, b)
}

fn path_rank_lt(a: char, b: char) -> (r: bool)
    ensures
        r == (path_rank(a) < path_rank(b)),
{
    if a == '/' {
        b != '/'
    } else if b == '/' {
        false
    } else {
        a < b
    }
}

/// Exec form of [`path_lt`].
pub fn path_lt_exec(a: &[char], b: &[char]) -> (r: bool)
    ensures
        r == path_lt(a@, b@),
{
    let mut i: usize = 0;
    assert(a@.subrange(0, a.len() as int) =~= a@);
    assert(b@.subrange(0, b.len() as int) =~= b@);
    while i < a.len() && i < b.len() && a[i] == b[i]
        invariant
            i <= a.len(),
            i <= b.len(),
            path_lt(a@, b@) == path_lt(a@.subrange(i as int, a.len() as int), b@.subrange(i as int, b.len() as int)),
        decreases a.len() - i,
    {
        let ghost sa = a@.subrange(i as int, a.len() as int);
        let ghost sb = b@.subrange(i as int, b.len() as int);
        assert(sa.drop_first() =~= a@.subrange(i + 1, a.len() as int));
        assert(sb.drop_first() =~= b@.subrange(i + 1, b.len() as int));
        i = i + 1;
    }
    let ghost sa = a@.subrange(i as int, a.len() as int);
    let ghost sb = b@.subrange(i as int, b.len() as int);
    if i == a.len() {
        i < b.len()
    } else if i == b.len() {
        false
    } else {
        assert(sa[0] == a@[i as int] && sb[0] == b@[i as int]);
        path_rank_lt(a[i], b[i])
    }
}

/// The paths sorted by [`path_lt`] (a stable insertion sort).
pub fn sort_paths(v: &Vec<String>) -> (r: Vec<String>)
    ensures
        str_views(r@) == sort_by(str_views(v@), path_before()),
{
    let ghost sv = str_views(v@);
    let mut out: Vec<String> = Vec::new();
    let mut i: usize = 0;
    while i < v.len()
        invariant
            i <= v.len(),
            sv == str_views(v@),
            str_views(out@) == sort_by(sv.subrange(0, i as int), path_before()),
        decreases v.len() - i,
    {
        let x = chars_of(v[i].as_str());
        let mut pos = out.len();
        while pos > 0 && path_lt_exec(&x, &chars_of(out[pos - 1].as_str()))
            invariant
                pos <= out.len(),
                x@ == v@[i as int]@,
                forall|j: int| pos <= j < out.len() ==> path_lt(x@, #[trigger] str_views(out@)[j]),
            decreases pos,
        {
            pos = pos - 1;
        }
        let ghost before = str_views(out@);
        proof {
            lemma_insert_by_at(before, x@, path_before(), pos as int);
            assert(sv.subrange(0, i + 1).drop_last() =~= sv.subrange(0, i as int));
            assert(sv.subrange(0, i + 1).last() == x@);
        }
        out.insert(pos, v[i].clone());
        assert(str_views(out@) =~= before.subrange(0, pos as int).push(x@) + before.subrange(
            pos as int,
            before.len() as int,
        ));
        i = i + 1;
    }
    assert(sv.subrange(0, v.len() as int) =~= sv);
    out
}


/// String order (`Ord for String`), used to sort names.
pub open spec fn text_before() -> spec_fn(Seq<char>, Seq<char>) -> bool {
    |a: Seq<char>, b: Seq<char>| lex_lt(a, b)
}

/// The strings sorted by [`lex_lt`] (a stable insertion sort).
pub fn sort_strings(v: &Vec<String>) -> (r: Vec<String>)
    ensures
        str_views(r@) == sort_by(str_views(v@), text_before()),
{
    let ghost sv = str_views(v@);
    let mut out: Vec<String> = Vec::new();
    let mut i: usize = 0;
    while i < v.len()
        invariant
            i <= v.len(),
            sv == str_views(v@),
            str_views(out@) == sort_by(sv.subrange(0, i as int), text_before()),
        decreases v.len() - i,
    {
        let x = chars_of(v[i].as_str());
        let mut pos = out.len();
        while pos > 0 && lex_lt_exec(&x, &chars_of(out[pos - 1].as_str()))
            invariant
                pos <= out.len(),
                x@ == v@[i as int]@,
                forall|j: int| pos <= j < out.len() ==> lex_lt(x@, #[trigger] str_views(out@)[j]),
            decreases pos,
        {
            pos = pos - 1;
        }
        let ghost before = str_views(out@);
        proof {
            lemma_insert_by_at(before, x@, text_before(), pos as int);
            assert(sv.subrange(0, i + 1).drop_last() =~= sv.subrange(0, i as int));
            assert(sv.subrange(0, i + 1).last() == x@);
        }
        out.insert(pos, v[i].clone());
        assert(str_views(out@) =~= before.subrange(0, pos as int).push(x@) + before.subrange(
            pos as int,
            before.len() as int,
        ));
        i = i + 1;
    }
    assert(sv.subrange(0, v.len() as int) =~= sv);
    out
}


// ---------------------------------------------------------------------------
// What sorting gives
// ---------------------------------------------------------------------------

/// No element goes before an earlier one.
pub open spec fn sorted_by<T>(s: Seq<T>, before: spec_fn(T, T) -> bool) -> bool {
    forall|i: int, j: int| 0 <= i < j < s.len() ==> !before(#[trigger] s[j], #[trigger] s[i])
}

/// The comparison is a strict weak order: asymmetric, and "not before" is
/// transitive.
pub open spec fn weak_order<T>(before: spec_fn(T, T) -> bool) -> bool {
    &&& forall|a: T, b: T| #[trigger] before(a, b) ==> !before(b, a)
    &&& forall|a: T, b: T, c: T|
        #![trigger before(a, b), before(b, c)]
        !before(a, b) && !before(b, c) ==> !before(a, c)
}

/// Inserting keeps every element and adds `x`.
pub proof fn lemma_insert_by_contains<T>(s: Seq<T>, x: T, before: spec_fn(T, T) -> bool, y: T)
    ensures
        insert_by(s, x, before).contains(y) <==> (s.contains(y) || y == x),
    decreases s.len(),
{
    if s.len() == 0 {
        assert(insert_by(s, x, before) =~= seq![x]);
        if s.contains(y) {
            let k = choose|k: int| 0 <= k < s.len() && s[k] == y;
        }
        if y == x {
            assert(seq![x][0] == y);
        }
    } else if !before(x, s.last()) {
        let r = s.push(x);
        if r.contains(y) {
            let k = choose|k: int| 0 <= k < r.len() && r[k] == y;
            if k < s.len() {
                assert(s[k] == y);
            }
        }
        if s.contains(y) {
            let k = choose|k: int| 0 <= k < s.len() && s[k] == y;
            assert(r[k] == y);
        }
        if y == x {
            assert(r[s.len() as int] == y);
        }
    } else {
        let d = s.drop_last();
        lemma_insert_by_contains(d, x, before, y);
        let p = insert_by(d, x, before);
        let r = p.push(s.last());
        if r.contains(y) {
            let k = choose|k: int| 0 <= k < r.len() && r[k] == y;
            if k < p.len() {
                assert(p[k] == y);
                if d.contains(y) {
                    let m = choose|m: int| 0 <= m < d.len() && d[m] == y;
                    assert(s[m] == y);
                }
            } else {
                assert(s[s.len() - 1] == y);
            }
        }
        if s.contains(y) {
            let k = choose|k: int| 0 <= k < s.len() && s[k] == y;
            if k < d.len() {
                assert(d[k] == y);
                let m = choose|m: int| 0 <= m < p.len() && p[m] == y;
                assert(r[m] == y);
            } else {
                assert(r[p.len() as int] == y);
            }
        }
        if y == x {
            let m = choose|m: int| 0 <= m < p.len() && p[m] == y;
            assert(r[m] == y);
        }
    }
}

/// Sorting keeps exactly the elements.
pub proof fn lemma_sort_by_contains<T>(s: Seq<T>, before: spec_fn(T, T) -> bool, y: T)
    ensures
        sort_by(s, before).contains(y) <==> s.contains(y),
    decreases s.len(),
{
    if s.len() > 0 {
        let d = s.drop_last();
        lemma_sort_by_contains(d, before, y);
        lemma_insert_by_contains(sort_by(d, before), s.last(), before, y);
        if s.contains(y) {
            let k = choose|k: int| 0 <= k < s.len() && s[k] == y;
            if k < d.len() {
                assert(d[k] == y);
            }
        }
        if d.contains(y) {
            let k = choose|k: int| 0 <= k < d.len() && d[k] == y;
            assert(s[k] == y);
        }
    }
}

/// Inserting into a sorted sequence keeps it sorted.
pub proof fn lemma_insert_by_sorted<T>(s: Seq<T>, x: T, before: spec_fn(T, T) -> bool)
    requires
        weak_order(before),
        sorted_by(s, before),
    ensures
        sorted_by(insert_by(s, x, before), before),
    decreases s.len(),
{
    if s.len() == 0 {
    } else if !before(x, s.last()) {
        let r = s.push(x);
        assert forall|i: int, j: int| 0 <= i < j < r.len() implies !before(#[trigger] r[j], #[trigger] r[i]) by {
            if j == s.len() {
                if i < s.len() - 1 {
                    assert(!before(s[s.len() - 1], s[i]));
                    assert(!before(x, s.last()) && !before(s.last(), s[i]) ==> !before(x, s[i]));
                }
            } else {
                assert(r[i] == s[i] && r[j] == s[j]);
            }
        }
    } else {
        let d = s.drop_last();
        assert(sorted_by(d, before)) by {
            assert forall|i: int, j: int| 0 <= i < j < d.len() implies !before(#[trigger] d[j], #[trigger] d[i]) by {
                assert(d[i] == s[i] && d[j] == s[j]);
            }
        }
        lemma_insert_by_sorted(d, x, before);
        let p = insert_by(d, x, before);
        lemma_insert_by_len(d, x, before);
        let r = p.push(s.last());
        assert forall|i: int, j: int| 0 <= i < j < r.len() implies !before(#[trigger] r[j], #[trigger] r[i]) by {
            if j == p.len() {
                let y = p[i];
                assert(p.contains(y));
                lemma_insert_by_contains(d, x, before, y);
                if y == x {
                    assert(before(x, s.last()));
                } else {
                    let k = choose|k: int| 0 <= k < d.len() && d[k] == y;
                    assert(s[k] == y);
                    assert(!before(s[s.len() - 1], s[k]));
                }
            } else {
                assert(r[i] == p[i] && r[j] == p[j]);
            }
        }
    }
}

/// What sorting gives is sorted.
pub proof fn lemma_sort_by_sorted<T>(s: Seq<T>, before: spec_fn(T, T) -> bool)
    requires
        weak_order(before),
    ensures
        sorted_by(sort_by(s, before), before),
    decreases s.len(),
{
    if s.len() > 0 {
        lemma_sort_by_sorted(s.drop_last(), before);
        lemma_insert_by_sorted(sort_by(s.drop_last(), before), s.last(), before);
    }
}

/// String order is a strict weak order.
pub proof fn lemma_text_weak_order()
    ensures
        weak_order(text_before()),
{
    assert forall|a: Seq<char>, b: Seq<char>| #[trigger] text_before()(a, b) implies !text_before()(b, a) by {
        if lex_lt(b, a) {
            lemma_lex_trans(a, b, a);
            lemma_lex_irrefl(a);
        }
    }
    assert forall|a: Seq<char>, b: Seq<char>, c: Seq<char>|
        #![trigger text_before()(a, b), text_before()(b, c)]
        !text_before()(a, b) && !text_before()(b, c) implies !text_before()(a, c) by {
        lemma_lex_total(a, b);
        lemma_lex_total(b, c);
        if lex_lt(a, c) {
            if lex_lt(b, a) {
                lemma_lex_trans(b, a, c);
            }
            if lex_lt(c, b) && a == b {
                lemma_lex_trans(a, c, b);
                lemma_lex_irrefl(a);
            }
            if lex_lt(c, b) && lex_lt(b, a) {
                lemma_lex_trans(c, b, a);
                lemma_lex_trans(a, c, a);
                lemma_lex_irrefl(a);
            }
        }
    }
}

/// Sorted names come out in string order, each name kept.
pub proof fn law_sorted_strings(s: Seq<Seq<char>>)
    ensures
        sorted_by(sort_by(s, text_before()), text_before()),
        forall|x: Seq<char>| sort_by(s, text_before()).contains(x) <==> s.contains(x),
{
    lemma_text_weak_order();
    lemma_sort_by_sorted(s, text_before());
    assert forall|x: Seq<char>| sort_by(s, text_before()).contains(x) <==> s.contains(x) by {
        lemma_sort_by_contains(s, text_before(), x);
    }
}


proof fn lemma_path_irrefl(a: Seq<char>)
    ensures
        !path_lt(a, a),
    decreases a.len(),
{
    if a.len() > 0 {
        lemma_path_irrefl(a.drop_first());
    }
}

proof fn lemma_path_trans(a: Seq<char>, b: Seq<char>, c: Seq<char>)
    requires
        path_lt(a, b),
        path_lt(b, c),
    ensures
        path_lt(a, c),
    decreases a.len(),
{
    if a.len() > 0 && b.len() > 0 && c.len() > 0 && a[0] == b[0] && b[0] == c[0] {
        lemma_path_trans(a.drop_first(), b.drop_first(), c.drop_first());
    }
}

proof fn lemma_path_rank_injective(x: char, y: char)
    requires
        x != y,
    ensures
        path_rank(x) != path_rank(y),
{
    if x != '/' && y != '/' {
        assert((x as int) != (y as int));
    }
}

proof fn lemma_path_total(a: Seq<char>, b: Seq<char>)
    ensures
        path_lt(a, b) || path_lt(b, a) || a == b,
    decreases a.len(),
{
    if a.len() > 0 && b.len() > 0 && a[0] == b[0] {
        lemma_path_total(a.drop_first(), b.drop_first());
        if a.drop_first() == b.drop_first() {
            assert(a =~= seq![a[0]] + a.drop_first());
            assert(b =~= seq![b[0]] + b.drop_first());
        }
    } else if a.len() == 0 && b.len() == 0 {
        assert(a =~= b);
    } else if a.len() > 0 && b.len() > 0 {
        lemma_path_rank_injective(a[0], b[0]);
    }
}

/// Path order is a strict weak order.
pub proof fn lemma_path_weak_order()
    ensures
        weak_order(path_before()),
{
    assert forall|a: Seq<char>, b: Seq<char>| #[trigger] path_before()(a, b) implies !path_before()(b, a) by {
        if path_lt(b, a) {
            lemma_path_trans(a, b, a);
            lemma_path_irrefl(a);
        }
    }
    assert forall|a: Seq<char>, b: Seq<char>, c: Seq<char>|
        #![trigger path_before()(a, b), path_before()(b, c)]
        !path_before()(a, b) && !path_before()(b, c) implies !path_before()(a, c) by {
        lemma_path_total(a, b);
        lemma_path_total(b, c);
        if path_lt(a, c) {
            if path_lt(b, a) {
                lemma_path_trans(b, a, c);
            }
            if path_lt(c, b) && a == b {
                lemma_path_trans(a, c, b);
                lemma_path_irrefl(a);
            }
            if path_lt(c, b) && path_lt(b, a) {
                lemma_path_trans(c, b, a);
                lemma_path_trans(a, c, a);
                lemma_path_irrefl(a);
            }
        }
    }
}

/// Sorted paths come out in path order, each path kept.
pub proof fn law_sorted_paths(s: Seq<Seq<char>>)
    ensures
        sorted_by(sort_by(s, path_before()), path_before()),
        forall|x: Seq<char>| sort_by(s, path_before()).contains(x) <==> s.contains(x),
{
    lemma_path_weak_order();
    lemma_sort_by_sorted(s, path_before());
    assert forall|x: Seq<char>| sort_by(s, path_before()).contains(x) <==> s.contains(x) by {
        lemma_sort_by_contains(s, path_before(), x);
    }
}

} // verus!
