//! Templates: listing them, and filling one with variables to make a note.

use vstd::prelude::*;
use crate::kernel::clock::{now_minutes, today};
use crate::kernel::index::pair_views;
use crate::kernel::note::{lemma_str_views_push, str_views};
use crate::kernel::order::{sort_by, sort_strings, text_before};
use crate::kernel::paths::{extension, extension_of, file_stem, file_stem_of, note_name_of, opt_str_view};
use crate::kernel::text::{chars_of, contains, contains_exec, eq_exec, find, find_from_exec, lemma_find_char, lemma_find_from, slice, string_of};
use crate::kernel::vault::Vault;
use crate::plugins::files::{lit_md, lit_md_exec, substitute, substituted};

verus! {

/// `k=v` split at the first `=`.
pub open spec fn split_eq(v: Seq<char>) -> Option<(Seq<char>, Seq<char>)> {
    match find(v, seq!['=']) {
        Some(k) => Some((v.subrange(0, k as int), v.subrange(k + 1int, v.len() as int))),
        None => None,
    }
}

/// The first index at or after `i` holding key `k`.
pub open spec fn key_pos(m: Seq<(Seq<char>, Seq<char>)>, k: Seq<char>, i: nat) -> Option<nat>
    decreases m.len() - i,
{
    if i >= m.len() {
        None
    } else if m[i as int].0 == k {
        Some(i)
    } else {
        key_pos(m, k, i + 1)
    }
}

/// The map with `k` set to `v`: in place when `k` is there, else added.
pub open spec fn map_set(m: Seq<(Seq<char>, Seq<char>)>, k: Seq<char>, v: Seq<char>) -> Seq<(Seq<char>, Seq<char>)> {
    match key_pos(m, k, 0) {
        Some(i) => m.update(i as int, (k, v)),
        None => m.push((k, v)),
    }
}

/// The map with `k` set to `v` unless `k` is there already.
pub open spec fn with_default(m: Seq<(Seq<char>, Seq<char>)>, k: Seq<char>, v: Seq<char>) -> Seq<(Seq<char>, Seq<char>)> {
    if key_pos(m, k, 0) is Some {
        m
    } else {
        m.push((k, v))
    }
}

/// The value stored for `k`, if any.
pub open spec fn value_of(m: Seq<(Seq<char>, Seq<char>)>, k: Seq<char>) -> Option<Seq<char>> {
    match key_pos(m, k, 0) {
        Some(i) => Some(m[i as int].1),
        None => None,
    }
}

/// No key occurs twice.
pub open spec fn distinct_keys(m: Seq<(Seq<char>, Seq<char>)>) -> bool {
    forall|i: int, j: int| 0 <= i < j < m.len() ==> #[trigger] m[i].0 != #[trigger] m[j].0
}

pub proof fn lemma_key_pos(m: Seq<(Seq<char>, Seq<char>)>, k: Seq<char>, i: nat)
    ensures
        match key_pos(m, k, i) {
            Some(p) => i <= p < m.len() && m[p as int].0 == k && forall|q: int| i <= q < p ==> m[q].0 != k,
            None => forall|q: int| i <= q < m.len() ==> m[q].0 != k,
        },
    decreases m.len() - i,
{
    if i < m.len() && m[i as int].0 != k {
        lemma_key_pos(m, k, i + 1);
    }
}

/// Setting `k` to `v` in a map: afterwards `k` holds `v`, every other key
/// holds what it held, and keys stay distinct.
pub proof fn law_map_set(m: Seq<(Seq<char>, Seq<char>)>, k: Seq<char>, v: Seq<char>, k2: Seq<char>)
    ensures
        value_of(map_set(m, k, v), k) == Some(v),
        k2 != k ==> value_of(map_set(m, k, v), k2) == value_of(m, k2),
        distinct_keys(m) ==> distinct_keys(map_set(m, k, v)),
{
    let r = map_set(m, k, v);
    lemma_key_pos(m, k, 0);
    lemma_key_pos(m, k2, 0);
    lemma_key_pos(r, k, 0);
    lemma_key_pos(r, k2, 0);
    match key_pos(m, k, 0) {
        Some(p) => {
            assert(r.len() == m.len());
            assert(forall|q: int| 0 <= q < m.len() && q != p ==> #[trigger] r[q] == m[q]);
            assert(r[p as int] == (k, v));
            match key_pos(r, k, 0) {
                Some(p2) => {
                    if p2 < p {
                        assert(r[p2 as int] == m[p2 as int]);
                    }
                },
                None => {},
            }
            if k2 != k {
                match key_pos(m, k2, 0) {
                    Some(a) => {
                        assert(r[a as int] == m[a as int]);
                        match key_pos(r, k2, 0) {
                            Some(b) => {
                                if b != p {
                                    assert(r[b as int] == m[b as int]);
                                }
                            },
                            None => {},
                        }
                    },
                    None => {
                        match key_pos(r, k2, 0) {
                            Some(b) => {
                                if b != p {
                                    assert(r[b as int] == m[b as int]);
                                }
                            },
                            None => {},
                        }
                    },
                }
            }
            if distinct_keys(m) {
                assert forall|i: int, j: int| 0 <= i < j < r.len() implies #[trigger] r[i].0 != #[trigger] r[j].0 by {
                    if i != p as int {
                        assert(r[i] == m[i]);
                    }
                    if j != p as int {
                        assert(r[j] == m[j]);
                    }
                    if i == p as int {
                        assert(m[i].0 != m[j].0);
                    }
                    if j == p as int {
                        assert(m[i].0 != m[j].0);
                    }
                }
            }
        },
        None => {
            assert(r == m.push((k, v)));
            assert(forall|q: int| 0 <= q < m.len() ==> #[trigger] r[q] == m[q]);
            assert(r[m.len() as int] == (k, v));
            if k2 != k {
                match key_pos(m, k2, 0) {
                    Some(a) => {
                        assert(r[a as int] == m[a as int]);
                        match key_pos(r, k2, 0) {
                            Some(b) => {
                                assert(b < m.len());
                                assert(r[b as int] == m[b as int]);
                            },
                            None => {},
                        }
                    },
                    None => {
                        match key_pos(r, k2, 0) {
                            Some(b) => {
                                assert(b < m.len());
                                assert(r[b as int] == m[b as int]);
                            },
                            None => {},
                        }
                    },
                }
            }
        },
    }
}

/// A `key=value` argument splits at its first `=`: with a key free of `=`,
/// `k=v` gives `(k, v)` (the value may hold further `=`); an argument
/// without `=` gives nothing.
pub proof fn law_split_eq(k: Seq<char>, v: Seq<char>, a: Seq<char>)
    ensures
        (forall|i: int| 0 <= i < k.len() ==> #[trigger] k[i] != '=') ==> split_eq(k + seq!['='] + v) == Some((k, v)),
        (forall|i: int| 0 <= i < a.len() ==> #[trigger] a[i] != '=') ==> split_eq(a) is None,
{
    let s = k + seq!['='] + v;
    lemma_find_char(s, '=', 0);
    lemma_find_char(a, '=', 0);
    if forall|i: int| 0 <= i < k.len() ==> #[trigger] k[i] != '=' {
        assert(s[k.len() as int] == '=');
        assert forall|q: int| 0 <= q < k.len() implies s[q] != '=' by {
            assert(s[q] == k[q]);
        }
        assert(find(s, seq!['=']) == Some(k.len()));
        assert(s.subrange(0, k.len() as int) =~= k);
        assert(s.subrange(k.len() + 1int, s.len() as int) =~= v);
    }
    if forall|i: int| 0 <= i < a.len() ==> #[trigger] a[i] != '=' {
        assert(find(a, seq!['=']) is None);
    }
}

/// The `key=value` arguments as a map (later values win; arguments without
/// `=` are skipped).
pub open spec fn var_map(vars: Seq<Seq<char>>) -> Seq<(Seq<char>, Seq<char>)>
    decreases vars.len(),
{
    if vars.len() == 0 {
        Seq::empty()
    } else {
        let prev = var_map(vars.drop_last());
        match split_eq(vars.last()) {
            Some(kv) => map_set(prev, kv.0, kv.1),
            None => prev,
        }
    }
}

/// The variables of a template application: the arguments, then `title`
/// and `name` (the note's name), `date` and `datetime` where not given.
/// They are substituted in this order (any order of the keys would do;
/// this is the order of first mention).
pub open spec fn template_vars(vars: Seq<Seq<char>>, name: Seq<char>, date: Seq<char>, datetime: Seq<char>) -> Seq<(Seq<char>, Seq<char>)> {
    with_default(
        with_default(
            with_default(with_default(var_map(vars), seq!['t', 'i', 't', 'l', 'e'], name), seq!['n', 'a', 'm', 'e'], name),
            seq!['d', 'a', 't', 'e'],
            date,
        ),
        seq!['d', 'a', 't', 'e', 't', 'i', 'm', 'e'],
        datetime,
    )
}

/// The name a note made from a template gets: the file stem of a path
/// with `/`, else the argument itself; nothing where a path with `/` has
/// no file stem.
pub open spec fn template_note_name(note: Seq<char>) -> Option<Seq<char>> {
    if contains(note, seq!['/']) {
        file_stem_of(note)
    } else {
        Some(note)
    }
}

fn key_pos_exec(m: &Vec<(String, String)>, k: &[char]) -> (r: Option<usize>)
    ensures
        match r {
            Some(i) => key_pos(pair_views(m@), k@, 0) == Some(i as nat),
            None => key_pos(pair_views(m@), k@, 0) is None,
        },
{
    let ghost mv = pair_views(m@);
    let mut i: usize = 0;
    while i < m.len()
        invariant
            i <= m.len(),
            mv == pair_views(m@),
            key_pos(mv, k@, 0) == key_pos(mv, k@, i as nat),
        decreases m.len() - i,
    {
        assert(mv[i as int].0 == m@[i as int].0@);
        if eq_exec(&chars_of(m[i].0.as_str()), k) {
            return Some(i);
        }
        i = i + 1;
    }
    None
}

pub(crate) fn map_set_exec(m: &mut Vec<(String, String)>, k: Vec<char>, v: Vec<char>)
    ensures
        pair_views(final(m)@) == map_set(pair_views(old(m)@), k@, v@),
{
    let e = (string_of(&k), string_of(&v));
    proof {
        lemma_key_pos(pair_views(m@), k@, 0);
    }
    match key_pos_exec(m, &k) {
        Some(i) => {
            m.set(i, e);
            assert(pair_views(m@) =~= map_set(pair_views(old(m)@), k@, v@));
        },
        None => {
            m.push(e);
            assert(pair_views(m@) =~= map_set(pair_views(old(m)@), k@, v@));
        },
    }
}

fn with_default_exec(m: &mut Vec<(String, String)>, k: Vec<char>, v: &str)
    ensures
        pair_views(final(m)@) == with_default(pair_views(old(m)@), k@, v@),
{
    match key_pos_exec(m, &k) {
        Some(_) => {},
        None => {
            m.push((string_of(&k), string_of(&chars_of(v))));
            assert(pair_views(m@) =~= with_default(pair_views(old(m)@), k@, v@));
        },
    }
}

/// The variables of a template application, in substitution order.
pub fn template_vars_exec(vars: &[String], name: &str, date: &str, datetime: &str) -> (r: Vec<(String, String)>)
    ensures
        pair_views(r@) == template_vars(str_views(vars@), name@, date@, datetime@),
{
    let ghost vv = str_views(vars@);
    let mut m: Vec<(String, String)> = Vec::new();
    let mut i: usize = 0;
    assert(pair_views(m@) =~= var_map(vv.subrange(0, 0)));
    while i < vars.len()
        invariant
            i <= vars.len(),
            vv == str_views(vars@),
            pair_views(m@) == var_map(vv.subrange(0, i as int)),
        decreases vars.len() - i,
    {
        proof {
            assert(vv.subrange(0, i + 1).drop_last() =~= vv.subrange(0, i as int));
        }
        let c = chars_of(vars[i].as_str());
        let eq = vec!['='];
        assert(eq@ =~= seq!['=']);
        match find_from_exec(&c, &eq, 0) {
            Some(k) => {
                proof {
                    lemma_find_from(c@, eq@, 0);
                    assert(c@.len() == c.len());
                }
                map_set_exec(&mut m, slice(&c, 0, k), slice(&c, k + 1, c.len()));
            },
            None => {},
        }
        i = i + 1;
    }
    assert(vv.subrange(0, vars.len() as int) =~= vv);
    let k1 = vec!['t', 'i', 't', 'l', 'e'];
    let k2 = vec!['n', 'a', 'm', 'e'];
    let k3 = vec!['d', 'a', 't', 'e'];
    let k4 = vec!['d', 'a', 't', 'e', 't', 'i', 'm', 'e'];
    assert(k1@ =~= seq!['t', 'i', 't', 'l', 'e']);
    assert(k2@ =~= seq!['n', 'a', 'm', 'e']);
    assert(k3@ =~= seq!['d', 'a', 't', 'e']);
    assert(k4@ =~= seq!['d', 'a', 't', 'e', 't', 'i', 'm', 'e']);
    with_default_exec(&mut m, k1, name);
    with_default_exec(&mut m, k2, name);
    with_default_exec(&mut m, k3, date);
    with_default_exec(&mut m, k4, datetime);
    m
}

/// The name a note made from a template gets, where it has one.
pub fn template_note_name_exec(note: &str) -> (r: Option<String>)
    ensures
        opt_str_view(r) == template_note_name(note@),
{
    let slash = vec!['/'];
    assert(slash@ =~= seq!['/']);
    if contains_exec(&chars_of(note), &slash) {
        file_stem(note)
    } else {
        Some(string_of(&chars_of(note)))
    }
}

/// A template filled with the variables of [`template_vars`].
pub fn apply_template_with(content: &str, vars: &[String], name: &str, date: &str, datetime: &str) -> (r: String)
    ensures
        r@ == substituted(content@, template_vars(str_views(vars@), name@, date@, datetime@)),
{
    let m = template_vars_exec(vars, name, date, datetime);
    substitute(content, &m)
}

/// The template filled with the variables for these values.
pub open spec fn filled(content: Seq<char>, vars: Seq<Seq<char>>, name: Seq<char>, date: Seq<char>, datetime: Seq<char>) -> Seq<char> {
    substituted(content, template_vars(vars, name, date, datetime))
}

/// A template filled for note `note`, with today's date and the current
/// time; nothing where the note's name cannot be taken.
pub fn apply_template(content: &str, note: &str, vars: &[String]) -> (r: Option<String>)
    ensures
        r is Some <==> template_note_name(note@) is Some,
        r is Some ==> exists|date: Seq<char>, datetime: Seq<char>|
            r->0@ == #[trigger] filled(content@, str_views(vars@), template_note_name(note@)->0, date, datetime),
{
    let tn = template_note_name_exec(note);
    if tn.is_none() {
        return None;
    }
    let name = tn.unwrap();
    let date = today();
    let datetime = now_minutes();
    let s = apply_template_with(content, vars, name.as_str(), date.as_str(), datetime.as_str());
    assert(template_note_name(note@)->0 == name@);
    assert(s@ == filled(content@, str_views(vars@), template_note_name(note@)->0, date@, datetime@));
    Some(s)
}

/// The template names: the stems of the `.md` files, sorted.
pub open spec fn template_names(paths: Seq<Seq<char>>) -> Seq<Seq<char>> {
    sort_by(
        paths.filter(|p: Seq<char>| extension_of(p) == Some(lit_md())).map_values(|p: Seq<char>| note_name_of(p)),
        text_before(),
    )
}

/// The template names among the templates folder's entries.
pub fn template_listing(paths: &Vec<String>) -> (r: Vec<String>)
    ensures
        str_views(r@) == template_names(str_views(paths@)),
{
    let ghost pv = str_views(paths@);
    let md = lit_md_exec();
    let mut names: Vec<String> = Vec::new();
    let mut i: usize = 0;
    while i < paths.len()
        invariant
            i <= paths.len(),
            pv == str_views(paths@),
            md@ == lit_md(),
            str_views(names@) == pv.subrange(0, i as int).filter(|p: Seq<char>| extension_of(p) == Some(lit_md())).map_values(
                |p: Seq<char>| note_name_of(p),
            ),
        decreases paths.len() - i,
    {
        proof {
            reveal_with_fuel(Seq::filter, 1);
            assert(pv.subrange(0, i + 1).drop_last() =~= pv.subrange(0, i as int));
        }
        let keep = match extension(paths[i].as_str()) {
            Some(e) => eq_exec(&chars_of(e.as_str()), &md),
            None => false,
        };
        if keep {
            let n = Vault::note_name(paths[i].as_str());
            proof {
                lemma_str_views_push(names@, n);
            }
            names.push(n);
        }
        assert(str_views(names@) =~= pv.subrange(0, i + 1).filter(|p: Seq<char>| extension_of(p) == Some(lit_md())).map_values(
            |p: Seq<char>| note_name_of(p),
        ));
        i = i + 1;
    }
    assert(pv.subrange(0, paths.len() as int) =~= pv);
    sort_strings(&names)
}

} // verus!
