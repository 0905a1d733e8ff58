//! Batch edits: which notes a pattern selects, and what renaming,
//! replacing and setting frontmatter properties does to each.

use vstd::prelude::*;
use crate::kernel::error::Error;
use crate::kernel::index::pair_views;
use crate::kernel::note::{dashes, fm_end, fm_end_exec, lemma_fm_end, lemma_str_views_push, str_views};
use crate::kernel::order::{path_before, sort_by, sort_paths};
use crate::kernel::paths::{join, note_name_of, parent, path_join, path_parent, path_strip_prefix, strip_prefix};
use crate::kernel::pattern::{
    literal_replacement, literal_replacement_exec,
    compile, count_matches, escape, is_match, regex_count, regex_error, regex_escape, regex_is_match,
    regex_replace_all, regex_replace_first, regex_valid, replace_all as regex_replace_all_exec,
    replace_first, Pattern,
};
use crate::kernel::search::search_pattern;
use crate::kernel::text::{
    chars_of, contains, contains_exec, copy_chars, eq_exec, find_from_exec, lemma_find_from, push_all, replace_all, replace_all_exec, slice,
    starts_with, starts_with_exec, string_of,
};
use crate::kernel::vault::Vault;
use crate::plugins::files::{lit_dot_md, lit_dot_md_exec};
use crate::plugins::frontmatter::{
    key_line, key_line_exec, key_pattern, lit_close_blank, lit_close_blank_exec, lit_colon_any_exec,
    lit_dashes_nl, lit_dashes_nl_exec, lit_multiline_anchor_exec,
};
use crate::plugins::misc::{is_note_file, note_file};
use crate::plugins::templates::{distinct_keys, law_map_set, map_set, map_set_exec, split_eq, value_of};

verus! {

// ---------------------------------------------------------------------------
// Selecting notes
// ---------------------------------------------------------------------------

/// The glob searched for a pattern: under the root as given when it holds
/// `/`, else at any depth (`**`).
pub open spec fn glob_for(root: Seq<char>, pattern: Seq<char>) -> Seq<char> {
    if contains(pattern, seq!['/']) {
        path_join(root, pattern)
    } else {
        path_join(path_join(root, seq!['*', '*']), pattern)
    }
}

/// The glob searched for a pattern.
pub fn glob_pattern(root: &str, pattern: &str) -> (r: String)
    ensures
        r@ == glob_for(root@, pattern@),
{
    let slash = vec!['/'];
    assert(slash@ =~= seq!['/']);
    if contains_exec(&chars_of(pattern), &slash) {
        join(root, pattern)
    } else {
        let stars = vec!['*', '*'];
        assert(stars@ =~= seq!['*', '*']);
        join(join(root, string_of(&stars).as_str()).as_str(), pattern)
    }
}

/// The vault-relative form of a path.
pub open spec fn relative(root: Seq<char>, p: Seq<char>) -> Seq<char> {
    match path_strip_prefix(p, root) {
        Some(rel) => rel,
        None => p,
    }
}

/// A file is selected: a note file, and with a regular expression one
/// whose vault-relative path matches it.
pub open spec fn selected(root: Seq<char>, p: Seq<char>, re: Option<Seq<char>>) -> bool {
    note_file(root, p) && match re {
        Some(r) => regex_is_match(r, relative(root, p)),
        None => true,
    }
}

/// The selected files in path order.
pub open spec fn selection(root: Seq<char>, paths: Seq<Seq<char>>, re: Option<Seq<char>>) -> Seq<Seq<char>> {
    sort_by(paths.filter(|p: Seq<char>| selected(root, p, re)), path_before())
}

fn select_with(vault: &Vault, paths: &Vec<String>, re: Option<&Pattern>) -> (r: Vec<String>)
    ensures
        str_views(r@) == selection(
            vault.root@,
            str_views(paths@),
            match re {
                Some(p) => Some(p@),
                None => None,
            },
        ),
{
    let ghost pv = str_views(paths@);
    let ghost rv: Option<Seq<char>> = match re {
        Some(p) => Some(p@),
        None => None,
    };
    let mut kept: Vec<String> = Vec::new();
    let mut i: usize = 0;
    while i < paths.len()
        invariant
            i <= paths.len(),
            pv == str_views(paths@),
            rv == (match re {
                Some(p) => Some(p@),
                None => None::<Seq<char>>,
            }),
            str_views(kept@) == pv.subrange(0, i as int).filter(|p: Seq<char>| selected(vault.root@, p, rv)),
        decreases paths.len() - i,
    {
        proof {
            reveal_with_fuel(Seq::filter, 1);
            assert(pv.subrange(0, i + 1).drop_last() =~= pv.subrange(0, i as int));
        }
        let p = paths[i].as_str();
        let mut keep = is_note_file(vault.root.as_str(), p);
        if keep {
            match re {
                Some(r) => {
                    let rel = vault.relative_path(p);
                    keep = is_match(r, rel.as_str());
                },
                None => {},
            }
        }
        if keep {
            let s = paths[i].clone();
            proof {
                lemma_str_views_push(kept@, s);
            }
            kept.push(s);
        }
        assert(str_views(kept@) =~= pv.subrange(0, i + 1).filter(|p: Seq<char>| selected(vault.root@, p, rv)));
        i = i + 1;
    }
    assert(pv.subrange(0, paths.len() as int) =~= pv);
    sort_paths(&kept)
}

// ---------------------------------------------------------------------------
// Renaming
// ---------------------------------------------------------------------------

/// A note's new name: the first match of the pattern replaced (regex), or
/// every occurrence of the pattern text replaced.
pub open spec fn renamed(name: Seq<char>, pattern: Seq<char>, replacement: Seq<char>, re: Option<Seq<char>>) -> Seq<char> {
    match re {
        Some(r) => regex_replace_first(r, name, replacement),
        None => replace_all(name, pattern, replacement),
    }
}

/// One planned rename: old path, new path, old name, new name.
pub open spec fn rename_item(p: Seq<char>, pattern: Seq<char>, replacement: Seq<char>, re: Option<Seq<char>>) -> Option<(Seq<char>, Seq<char>, Seq<char>, Seq<char>)> {
    let name = note_name_of(p);
    let new = renamed(name, pattern, replacement, re);
    if new == name {
        None
    } else {
        Some((p, path_join(path_parent(p)->0, new + lit_dot_md()), name, new))
    }
}

/// The renames of a batch: the notes whose name changes, in order.
pub open spec fn rename_items(paths: Seq<Seq<char>>, pattern: Seq<char>, replacement: Seq<char>, re: Option<Seq<char>>) -> Seq<(Seq<char>, Seq<char>, Seq<char>, Seq<char>)>
    decreases paths.len(),
{
    if paths.len() == 0 {
        Seq::empty()
    } else {
        let prev = rename_items(paths.drop_last(), pattern, replacement, re);
        match rename_item(paths.last(), pattern, replacement, re) {
            Some(it) => prev.push(it),
            None => prev,
        }
    }
}

/// Every path has a parent (the folder the renamed note stays in).
pub open spec fn all_have_parents(paths: Seq<Seq<char>>) -> bool {
    forall|i: int| 0 <= i < paths.len() ==> path_parent(#[trigger] paths[i]) is Some
}

pub open spec fn quad_views(v: Seq<(String, String, String, String)>) -> Seq<(Seq<char>, Seq<char>, Seq<char>, Seq<char>)> {
    v.map_values(|e: (String, String, String, String)| (e.0@, e.1@, e.2@, e.3@))
}

pub open spec fn opt_pat(re: Option<&Pattern>) -> Option<Seq<char>> {
    match re {
        Some(p) => Some(p@),
        None => None,
    }
}

fn renames_with(paths: &Vec<String>, pattern: &str, replacement: &str, re: Option<&Pattern>) -> (r: Vec<(String, String, String, String)>)
    requires
        all_have_parents(str_views(paths@)),
    ensures
        quad_views(r@) == rename_items(str_views(paths@), pattern@, replacement@, opt_pat(re)),
{
    let ghost pv = str_views(paths@);
    let mut out: Vec<(String, String, String, String)> = Vec::new();
    let mut i: usize = 0;
    while i < paths.len()
        invariant
            i <= paths.len(),
            pv == str_views(paths@),
            all_have_parents(pv),
            quad_views(out@) == rename_items(pv.subrange(0, i as int), pattern@, replacement@, opt_pat(re)),
        decreases paths.len() - i,
    {
        proof {
            assert(pv.subrange(0, i + 1).drop_last() =~= pv.subrange(0, i as int));
            assert(pv.subrange(0, i + 1).last() == paths@[i as int]@);
            assert(path_parent(pv[i as int]) is Some);
        }
        let p = paths[i].as_str();
        let name = Vault::note_name(p);
        let new = match re {
            Some(r) => replace_first(r, name.as_str(), replacement),
            None => string_of(&replace_all_exec(&chars_of(name.as_str()), &chars_of(pattern), &chars_of(replacement))),
        };
        if !eq_exec(&chars_of(new.as_str()), &chars_of(name.as_str())) {
            let par = parent(p).unwrap();
            let mut f = chars_of(new.as_str());
            push_all(&mut f, &lit_dot_md_exec());
            let np = join(par.as_str(), string_of(&f).as_str());
            out.push((paths[i].clone(), np, name, new));
        }
        assert(quad_views(out@) =~= rename_items(pv.subrange(0, i + 1), pattern@, replacement@, opt_pat(re)));
        i = i + 1;
    }
    assert(pv.subrange(0, paths.len() as int) =~= pv);
    out
}

/// Whether every path has a parent.
pub fn have_parents(paths: &Vec<String>) -> (r: bool)
    ensures
        r == all_have_parents(str_views(paths@)),
{
    let mut i: usize = 0;
    while i < paths.len()
        invariant
            i <= paths.len(),
            forall|k: int| 0 <= k < i ==> path_parent(#[trigger] str_views(paths@)[k]) is Some,
        decreases paths.len() - i,
    {
        assert(str_views(paths@)[i as int] == paths@[i as int]@);
        if parent(paths[i].as_str()).is_none() {
            return false;
        }
        i = i + 1;
    }
    true
}

/// The regular expression of a batch pattern, when it is one.
pub open spec fn regex_opt(pattern: Seq<char>, use_regex: bool) -> Option<Seq<char>> {
    if use_regex {
        Some(pattern)
    } else {
        None
    }
}

/// The notes a batch pattern selects among the files found (walked, or
/// matched by the glob); with `use_regex` the pattern is a regular
/// expression on the vault-relative path, and an error when it does not
/// compile.
pub fn select_notes(vault: &Vault, paths: &Vec<String>, pattern: &str, use_regex: bool) -> (r: Result<Vec<String>, Error>)
    ensures
        if use_regex && !regex_valid(pattern@) {
            r matches Err(e) && (e matches Error::InvalidPattern(m) && m@ == regex_error(pattern@))
        } else {
            r matches Ok(v) && str_views(v@) == selection(vault.root@, str_views(paths@), regex_opt(pattern@, use_regex))
        },
{
    if use_regex {
        match compile(pattern) {
            Ok(pt) => Ok(select_with(vault, paths, Some(&pt))),
            Err(e) => Err(e),
        }
    } else {
        Ok(select_with(vault, paths, None))
    }
}

/// The renames of a batch rename: with `use_regex` the first match of the
/// pattern in each name is replaced, else every occurrence of its text; an
/// error when the regular expression does not compile.
pub fn plan_renames(paths: &Vec<String>, pattern: &str, replacement: &str, use_regex: bool) -> (r: Result<Vec<(String, String, String, String)>, Error>)
    requires
        all_have_parents(str_views(paths@)),
    ensures
        if use_regex && !regex_valid(pattern@) {
            r matches Err(e) && (e matches Error::InvalidPattern(m) && m@ == regex_error(pattern@))
        } else {
            r matches Ok(v) && quad_views(v@) == rename_items(
                str_views(paths@),
                pattern@,
                replacement@,
                regex_opt(pattern@, use_regex),
            )
        },
{
    if use_regex {
        match compile(pattern) {
            Ok(pt) => Ok(renames_with(paths, pattern, replacement, Some(&pt))),
            Err(e) => Err(e),
        }
    } else {
        Ok(renames_with(paths, pattern, replacement, None))
    }
}

/// The renames of a batch rename where every path has a parent; nothing
/// otherwise (there is no folder to rename in).
pub fn try_plan_renames(paths: &Vec<String>, pattern: &str, replacement: &str, use_regex: bool) -> (r: Option<Result<Vec<(String, String, String, String)>, Error>>)
    ensures
        match r {
            Some(res) => all_have_parents(str_views(paths@)) && if use_regex && !regex_valid(pattern@) {
                res matches Err(e) && (e matches Error::InvalidPattern(m) && m@ == regex_error(pattern@))
            } else {
                res matches Ok(v) && quad_views(v@) == rename_items(
                    str_views(paths@),
                    pattern@,
                    replacement@,
                    regex_opt(pattern@, use_regex),
                )
            },
            None => !all_have_parents(str_views(paths@)),
        },
{
    if !have_parents(paths) {
        return None;
    }
    Some(plan_renames(paths, pattern, replacement, use_regex))
}

// ---------------------------------------------------------------------------
// Find and replace
// ---------------------------------------------------------------------------

/// What replacing does to one note: nothing without a match, else the new
/// text with the number of matches.
pub open spec fn replace_one(p: Seq<char>, content: Seq<char>, rep: Seq<char>) -> Option<(Seq<char>, nat)> {
    if regex_count(p, content) > 0 {
        Some((regex_replace_all(p, content, rep), regex_count(p, content)))
    } else {
        None
    }
}

/// The notes a find-and-replace changes: path, new text, matches.
pub open spec fn replace_items(files: Seq<(Seq<char>, Seq<char>)>, p: Seq<char>, rep: Seq<char>) -> Seq<(Seq<char>, Seq<char>, nat)>
    decreases files.len(),
{
    if files.len() == 0 {
        Seq::empty()
    } else {
        let prev = replace_items(files.drop_last(), p, rep);
        match replace_one(p, files.last().1, rep) {
            Some(x) => prev.push((files.last().0, x.0, x.1)),
            None => prev,
        }
    }
}

pub open spec fn triple_views(v: Seq<(String, String, usize)>) -> Seq<(Seq<char>, Seq<char>, nat)> {
    v.map_values(|e: (String, String, usize)| (e.0@, e.1@, e.2 as nat))
}

/// The replacement handed to the regex: as given in regex mode (`$`
/// references expand), else the literal form of the text.
pub open spec fn replacement_text(rep: Seq<char>, regex: bool) -> Seq<char> {
    if regex {
        rep
    } else {
        literal_replacement(rep)
    }
}

/// Works out a find-and-replace over the given files (path, text). The
/// pattern is the text to find (escaped unless `regex`), case-insensitive
/// unless `case_sensitive`; the replacement is inserted literally unless
/// `regex`.
pub fn plan_replace(files: &Vec<(String, String)>, find: &str, replace: &str, regex: bool, case_sensitive: bool) -> (r: Result<Vec<(String, String, usize)>, Error>)
    ensures
        ({
            let p = search_pattern(find@, regex, case_sensitive);
            if regex_valid(p) {
                r matches Ok(v) && triple_views(v@) == replace_items(
                    pair_views(files@),
                    p,
                    replacement_text(replace@, regex),
                )
            } else {
                r matches Err(e) && (e matches Error::InvalidPattern(m) && m@ == regex_error(p))
            }
        }),
{
    let mut pat: Vec<char> = if case_sensitive {
        Vec::new()
    } else {
        let f = vec!['(', '?', 'i', ')'];
        assert(f@ =~= crate::kernel::search::ignore_case_flag());
        f
    };
    if regex {
        push_all(&mut pat, &chars_of(find));
    } else {
        push_all(&mut pat, &chars_of(escape(find).as_str()));
    }
    let ghost p = search_pattern(find@, regex, case_sensitive);
    assert(pat@ =~= p);
    let pt = match compile(string_of(&pat).as_str()) {
        Ok(pt) => pt,
        Err(e) => return Err(e),
    };
    let rep = if regex {
        string_of(&chars_of(replace))
    } else {
        literal_replacement_exec(replace)
    };
    let ghost fv = pair_views(files@);
    let mut out: Vec<(String, String, usize)> = Vec::new();
    let mut i: usize = 0;
    while i < files.len()
        invariant
            i <= files.len(),
            fv == pair_views(files@),
            pt@ == p,
            rep@ == replacement_text(replace@, regex),
            triple_views(out@) == replace_items(fv.subrange(0, i as int), p, rep@),
        decreases files.len() - i,
    {
        proof {
            assert(fv.subrange(0, i + 1).drop_last() =~= fv.subrange(0, i as int));
            assert(fv.subrange(0, i + 1).last() == (files@[i as int].0@, files@[i as int].1@));
        }
        let n = count_matches(&pt, files[i].1.as_str());
        if n > 0 {
            let t = regex_replace_all_exec(&pt, files[i].1.as_str(), rep.as_str());
            out.push((files[i].0.clone(), t, n));
        }
        assert(triple_views(out@) =~= replace_items(fv.subrange(0, i + 1), p, rep@));
        i = i + 1;
    }
    assert(fv.subrange(0, files.len() as int) =~= fv);
    Ok(out)
}

// ---------------------------------------------------------------------------
// Frontmatter properties
// ---------------------------------------------------------------------------

/// `key=value` arguments as a map (later values win, first position
/// kept); the first argument without `=` is the error. (Any order of the
/// keys would do; this is the order of first mention.)
pub open spec fn parsed_props(props: Seq<Seq<char>>) -> Result<Seq<(Seq<char>, Seq<char>)>, Seq<char>>
    decreases props.len(),
{
    if props.len() == 0 {
        Ok(Seq::empty())
    } else {
        match parsed_props(props.drop_last()) {
            Err(e) => Err(e),
            Ok(m) => match split_eq(props.last()) {
                Some(kv) => Ok(map_set(m, kv.0, kv.1)),
                None => Err(props.last()),
            },
        }
    }
}

proof fn lemma_parsed_err_stays(pv: Seq<Seq<char>>, n: int, bad: Seq<char>)
    requires
        0 < n <= pv.len(),
        parsed_props(pv.subrange(0, n)) == Err::<Seq<(Seq<char>, Seq<char>)>, Seq<char>>(bad),
    ensures
        parsed_props(pv) == Err::<Seq<(Seq<char>, Seq<char>)>, Seq<char>>(bad),
    decreases pv.len() - n,
{
    if n < pv.len() {
        assert(pv.subrange(0, n + 1).drop_last() =~= pv.subrange(0, n));
        lemma_parsed_err_stays(pv, n + 1, bad);
    } else {
        assert(pv.subrange(0, n) =~= pv);
    }
}

/// Property arguments: they parse exactly when each holds a `=`; the first
/// one without is the error. Parsed, no key occurs twice and the last
/// argument's value is the one its key holds (a later value wins).
pub proof fn law_parsed_props(props: Seq<Seq<char>>)
    ensures
        (forall|j: int| 0 <= j < props.len() ==> split_eq(#[trigger] props[j]) is Some) <==> parsed_props(props) is Ok,
        parsed_props(props) matches Ok(m) ==> distinct_keys(m),
        parsed_props(props) matches Ok(m) ==> props.len() == 0 || value_of(m, (split_eq(props.last())->0).0) == Some(
            (split_eq(props.last())->0).1,
        ),
        parsed_props(props) matches Err(bad) ==> split_eq(bad) is None && exists|j: int|
            0 <= j < props.len() && #[trigger] props[j] == bad && forall|i: int| 0 <= i < j ==> split_eq(
                #[trigger] props[i],
            ) is Some,
    decreases props.len(),
{
    if props.len() > 0 {
        let d = props.drop_last();
        let n = props.len() - 1;
        law_parsed_props(d);
        assert forall|j: int| 0 <= j < d.len() implies #[trigger] d[j] == props[j] by {}
        assert(props[n] == props.last());
        match parsed_props(d) {
            Ok(m) => {
                assert forall|j: int| 0 <= j < d.len() implies split_eq(#[trigger] props[j]) is Some by {
                    assert(split_eq(d[j]) is Some);
                }
                match split_eq(props.last()) {
                    Some(kv) => {
                        law_map_set(m, kv.0, kv.1, kv.0);
                        assert forall|j: int| 0 <= j < props.len() implies split_eq(#[trigger] props[j]) is Some by {
                            if j < d.len() {
                                assert(split_eq(d[j]) is Some);
                            }
                        }
                    },
                    None => {
                        assert(forall|i: int| 0 <= i < n ==> split_eq(#[trigger] props[i]) is Some);
                    },
                }
            },
            Err(bad) => {
                let j = choose|j: int|
                    0 <= j < d.len() && #[trigger] d[j] == bad && forall|i: int| 0 <= i < j ==> split_eq(
                        #[trigger] d[i],
                    ) is Some;
                assert(props[j] == bad);
                assert forall|i: int| 0 <= i < j implies split_eq(#[trigger] props[i]) is Some by {
                    assert(split_eq(d[i]) is Some);
                }
                assert(!(forall|j: int| 0 <= j < d.len() ==> split_eq(#[trigger] d[j]) is Some));
                let k = choose|k: int| 0 <= k < d.len() && !(split_eq(#[trigger] d[k]) is Some);
                assert(!(split_eq(props[k]) is Some));
            },
        }
    }
}

/// Parses `key=value` property arguments.
pub fn parse_properties(props: &[String]) -> (r: Result<Vec<(String, String)>, Error>)
    ensures
        match parsed_props(str_views(props@)) {
            Ok(m) => r matches Ok(v) && pair_views(v@) == m,
            Err(bad) => r matches Err(e) && (e matches Error::InvalidProperty(s) && s@ == bad),
        },
{
    let ghost pv = str_views(props@);
    let mut m: Vec<(String, String)> = Vec::new();
    let mut i: usize = 0;
    assert(pv.subrange(0, 0) =~= Seq::<Seq<char>>::empty());
    assert(pair_views(m@) =~= Seq::<(Seq<char>, Seq<char>)>::empty());
    while i < props.len()
        invariant
            i <= props.len(),
            pv == str_views(props@),
            parsed_props(pv.subrange(0, i as int)) == Ok::<Seq<(Seq<char>, Seq<char>)>, Seq<char>>(pair_views(m@)),
        decreases props.len() - i,
    {
        proof {
            assert(pv.subrange(0, i + 1).drop_last() =~= pv.subrange(0, i as int));
            assert(pv.subrange(0, i + 1).last() == props@[i as int]@);
        }
        let c = chars_of(props[i].as_str());
        let eq = vec!['='];
        assert(eq@ =~= seq!['=']);
        match find_from_exec(&c, &eq, 0) {
            Some(k) => {
                proof {
                    lemma_find_from(c@, eq@, 0);
                    assert(c@.len() == c.len());
                }
                map_set_exec(&mut m, slice(&c, 0, k), slice(&c, k + 1, c.len()));
            },
            None => {
                proof {
                    lemma_parsed_err_stays(pv, i + 1, props@[i as int]@);
                }
                return Err(Error::InvalidProperty(props[i].clone()));
            },
        }
        i = i + 1;
    }
    assert(pv.subrange(0, props.len() as int) =~= pv);
    Ok(m)
}


/// The frontmatter text after setting each property in turn: a key that
/// has a line starting `key:` in the text so far (a match of
/// [`key_pattern`]) has the first such line replaced (the new line inserted
/// literally); any other key gets a line added at the end. `Err` holds the
/// error text of a pattern that does not compile.
pub open spec fn fm_with_props(fm: Seq<char>, props: Seq<(Seq<char>, Seq<char>)>) -> Result<Seq<char>, Seq<char>>
    decreases props.len(),
{
    if props.len() == 0 {
        Ok(fm)
    } else {
        match fm_with_props(fm, props.drop_last()) {
            Err(e) => Err(e),
            Ok(cur) => {
                let k = props.last().0;
                let v = props.last().1;
                let p = key_pattern(k);
                if !regex_valid(p) {
                    Err(regex_error(p))
                } else if regex_is_match(p, cur) {
                    Ok(regex_replace_first(p, cur, literal_replacement(key_line(k, v))))
                } else {
                    Ok(cur + seq!['\n'] + key_line(k, v))
                }
            },
        }
    }
}

/// `key: value\n` for each property.
pub open spec fn prop_lines(props: Seq<(Seq<char>, Seq<char>)>) -> Seq<char>
    decreases props.len(),
{
    if props.len() == 0 {
        Seq::empty()
    } else {
        prop_lines(props.drop_last()) + key_line(props.last().0, props.last().1) + seq!['\n']
    }
}

/// A note's text with the properties set: inside its frontmatter block
/// per [`fm_with_props`]; a text starting with `---` but without a closing
/// `\n---` unchanged; a text without frontmatter given a new block.
pub open spec fn props_applied(content: Seq<char>, props: Seq<(Seq<char>, Seq<char>)>) -> Result<Seq<char>, Seq<char>> {
    if starts_with(content, dashes()) {
        match fm_end(content) {
            Some(e) => {
                let fm = content.subrange(3, e as int);
                match fm_with_props(fm, props) {
                    Ok(nf) => Ok(lit_dashes_nl() + nf + content.subrange(e as int, content.len() as int)),
                    Err(x) => Err(x),
                }
            },
            None => Ok(content),
        }
    } else {
        Ok(lit_dashes_nl() + prop_lines(props) + lit_close_blank() + content)
    }
}

proof fn lemma_fm_props_err(fm: Seq<char>, props: Seq<(Seq<char>, Seq<char>)>, n: int, x: Seq<char>)
    requires
        0 < n <= props.len(),
        fm_with_props(fm, props.subrange(0, n)) == Err::<Seq<char>, Seq<char>>(x),
    ensures
        fm_with_props(fm, props) == Err::<Seq<char>, Seq<char>>(x),
    decreases props.len() - n,
{
    if n < props.len() {
        assert(props.subrange(0, n + 1).drop_last() =~= props.subrange(0, n));
        lemma_fm_props_err(fm, props, n + 1, x);
    } else {
        assert(props.subrange(0, n) =~= props);
    }
}

/// Sets the properties in a note's text.
pub fn apply_properties(content: &str, props: &Vec<(String, String)>) -> (r: Result<String, Error>)
    ensures
        match props_applied(content@, pair_views(props@)) {
            Ok(c) => r matches Ok(s) && s@ == c,
            Err(m) => r matches Err(e) && (e matches Error::InvalidPattern(t) && t@ == m),
        },
{
    let ghost pv = pair_views(props@);
    let c = chars_of(content);
    let d = vec!['-', '-', '-'];
    assert(d@ =~= dashes());
    proof {
        lemma_fm_end(c@);
    }
    if !starts_with_exec(&c, &d) {
        let mut out = lit_dashes_nl_exec();
        let ghost head = out@;
        let mut i: usize = 0;
        assert(pv.subrange(0, 0) =~= Seq::<(Seq<char>, Seq<char>)>::empty());
        while i < props.len()
            invariant
                i <= props.len(),
                pv == pair_views(props@),
                out@ == head + prop_lines(pv.subrange(0, i as int)),
            decreases props.len() - i,
        {
            proof {
                assert(pv.subrange(0, i + 1).drop_last() =~= pv.subrange(0, i as int));
                assert(pv.subrange(0, i + 1).last() == (props@[i as int].0@, props@[i as int].1@));
            }
            push_all(&mut out, &key_line_exec(&chars_of(props[i].0.as_str()), &chars_of(props[i].1.as_str())));
            out.push('\n');
            assert(out@ =~= head + prop_lines(pv.subrange(0, i + 1)));
            i = i + 1;
        }
        assert(pv.subrange(0, props.len() as int) =~= pv);
        push_all(&mut out, &lit_close_blank_exec());
        push_all(&mut out, &c);
        return Ok(string_of(&out));
    }
    let e = match fm_end_exec(&c) {
        None => return Ok(string_of(&c)),
        Some(e) => e,
    };
    let fm0 = slice(&c, 3, e);
    let mut cur = copy_chars(&fm0);
    let mut i: usize = 0;
    assert(pv.subrange(0, 0) =~= Seq::<(Seq<char>, Seq<char>)>::empty());
    while i < props.len()
        invariant
            i <= props.len(),
            pv == pair_views(props@),
            fm_with_props(fm0@, pv.subrange(0, i as int)) == Ok::<Seq<char>, Seq<char>>(cur@),
            c@ == content@,
            starts_with(c@, dashes()),
            fm_end(c@) == Some(e as nat),
            3 <= e <= c.len(),
            fm0@ == c@.subrange(3, e as int),
        decreases props.len() - i,
    {
        proof {
            assert(pv.subrange(0, i + 1).drop_last() =~= pv.subrange(0, i as int));
            assert(pv.subrange(0, i + 1).last() == (props@[i as int].0@, props@[i as int].1@));
        }
        let k = chars_of(props[i].0.as_str());
        let v = chars_of(props[i].1.as_str());
        let ghost prev = cur@;
        let ghost sub1 = pv.subrange(0, i + 1);
        assert(fm_with_props(fm0@, sub1.drop_last()) == Ok::<Seq<char>, Seq<char>>(prev));
        assert(sub1.last().0 == k@ && sub1.last().1 == v@);
        let mut p = lit_multiline_anchor_exec();
        push_all(&mut p, &chars_of(escape(props[i].0.as_str()).as_str()));
        push_all(&mut p, &lit_colon_any_exec());
        assert(p@ =~= key_pattern(k@));
        let pt = match compile(string_of(&p).as_str()) {
            Ok(pt) => pt,
            Err(err) => {
                proof {
                    assert(fm_with_props(fm0@, sub1) == Err::<Seq<char>, Seq<char>>(regex_error(p@)));
                    lemma_fm_props_err(fm0@, pv, i + 1, regex_error(p@));
                    assert(fm0@ == content@.subrange(3, e as int));
                    assert(props_applied(content@, pv) == Err::<Seq<char>, Seq<char>>(regex_error(p@)));
                }
                return Err(err);
            },
        };
        let cur_text = string_of(&cur);
        if is_match(&pt, cur_text.as_str()) {
            let line = literal_replacement_exec(string_of(&key_line_exec(&k, &v)).as_str());
            cur = chars_of(replace_first(&pt, cur_text.as_str(), line.as_str()).as_str());
            assert(cur@ == regex_replace_first(key_pattern(k@), prev, literal_replacement(key_line(k@, v@))));
        } else {
            cur.push('\n');
            push_all(&mut cur, &key_line_exec(&k, &v));
            assert(cur@ =~= prev + seq!['\n'] + key_line(k@, v@));
        }
        assert(fm_with_props(fm0@, sub1) == Ok::<Seq<char>, Seq<char>>(cur@));
        i = i + 1;
    }
    assert(pv.subrange(0, props.len() as int) =~= pv);
    let mut out = lit_dashes_nl_exec();
    push_all(&mut out, &cur);
    push_all(&mut out, &slice(&c, e, c.len()));
    Ok(string_of(&out))
}

} // verus!
