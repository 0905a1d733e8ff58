//! Note files as text: where a new note goes and what it starts with,
//! appending and prepending, merging, splitting by headings, listings and
//! vault totals.

use vstd::prelude::*;
use crate::kernel::clock::{now_minutes, today};
use crate::kernel::index::pair_views;
use crate::kernel::note::{dashes, fm_end, fm_end_exec, lemma_fm_end, lemma_str_views_push, str_views, Note};
use crate::kernel::order::{path_before, sort_by, sort_paths};
use crate::kernel::output::{repeat, repeat_exec};
use crate::kernel::paths::{
    extension, extension_of, is_absolute, is_absolute_exec, join, opt_str_view, path_join,
    path_with_extension, with_extension,
};
use crate::kernel::text::{
    no_char,
    chars_of, contains, contains_exec, copy_chars, ends_with, ends_with_exec, eq_exec, find,
    find_from_exec, occurs_at, join as join_text, join_exec, lemma_find_from, lemma_views_push, lines,
    lines_exec, push_all, lemma_replace_absent, lemma_replace_once, replace_all, replace_all_exec, slice, starts_with, starts_with_exec,
    string_of, trim, trim_exec, views,
};
use crate::plugins::frontmatter::{lit_fm_close_blank, lit_fm_close_blank_exec, lit_item, lit_item_exec, tag_items};

verus! {

/// `{{title}}`.
pub open spec fn lit_title_var() -> Seq<char> {
    seq!['{', '{', 't', 'i', 't', 'l', 'e', '}', '}']
}

pub(crate) fn lit_title_var_exec() -> (r: Vec<char>)
    ensures
        r@ == lit_title_var(),
{
    let v = vec!['{', '{', 't', 'i', 't', 'l', 'e', '}', '}'];
    assert(v@ =~= lit_title_var());
    v
}

/// `{{date}}`.
pub open spec fn lit_date_var() -> Seq<char> {
    seq!['{', '{', 'd', 'a', 't', 'e', '}', '}']
}

pub(crate) fn lit_date_var_exec() -> (r: Vec<char>)
    ensures
        r@ == lit_date_var(),
{
    let v = vec!['{', '{', 'd', 'a', 't', 'e', '}', '}'];
    assert(v@ =~= lit_date_var());
    v
}

/// `{{datetime}}`.
pub open spec fn lit_datetime_var() -> Seq<char> {
    seq!['{', '{', 'd', 'a', 't', 'e', 't', 'i', 'm', 'e', '}', '}']
}

pub(crate) fn lit_datetime_var_exec() -> (r: Vec<char>)
    ensures
        r@ == lit_datetime_var(),
{
    let v = vec!['{', '{', 'd', 'a', 't', 'e', 't', 'i', 'm', 'e', '}', '}'];
    assert(v@ =~= lit_datetime_var());
    v
}

/// `{{name}}`.
pub open spec fn lit_name_var() -> Seq<char> {
    seq!['{', '{', 'n', 'a', 'm', 'e', '}', '}']
}

pub(crate) fn lit_name_var_exec() -> (r: Vec<char>)
    ensures
        r@ == lit_name_var(),
{
    let v = vec!['{', '{', 'n', 'a', 'm', 'e', '}', '}'];
    assert(v@ =~= lit_name_var());
    v
}

/// `{{`.
pub open spec fn lit_open_braces() -> Seq<char> {
    seq!['{', '{']
}

pub(crate) fn lit_open_braces_exec() -> (r: Vec<char>)
    ensures
        r@ == lit_open_braces(),
{
    let v = vec!['{', '{'];
    assert(v@ =~= lit_open_braces());
    v
}

/// `}}`.
pub open spec fn lit_close_braces() -> Seq<char> {
    seq!['}', '}']
}

pub(crate) fn lit_close_braces_exec() -> (r: Vec<char>)
    ensures
        r@ == lit_close_braces(),
{
    let v = vec!['}', '}'];
    assert(v@ =~= lit_close_braces());
    v
}

/// `---\ntags:\n`.
pub open spec fn lit_tags_head() -> Seq<char> {
    seq!['-', '-', '-', '\n', 't', 'a', 'g', 's', ':', '\n']
}

pub(crate) fn lit_tags_head_exec() -> (r: Vec<char>)
    ensures
        r@ == lit_tags_head(),
{
    let v = vec!['-', '-', '-', '\n', 't', 'a', 'g', 's', ':', '\n'];
    assert(v@ =~= lit_tags_head());
    v
}

/// `\ncreated: `.
pub open spec fn lit_created_prefix() -> Seq<char> {
    seq!['\n', 'c', 'r', 'e', 'a', 't', 'e', 'd', ':', ' ']
}

pub(crate) fn lit_created_prefix_exec() -> (r: Vec<char>)
    ensures
        r@ == lit_created_prefix(),
{
    let v = vec!['\n', 'c', 'r', 'e', 'a', 't', 'e', 'd', ':', ' '];
    assert(v@ =~= lit_created_prefix());
    v
}

/// `untitled`.
pub open spec fn lit_untitled() -> Seq<char> {
    seq!['u', 'n', 't', 'i', 't', 'l', 'e', 'd']
}

pub(crate) fn lit_untitled_exec() -> (r: Vec<char>)
    ensures
        r@ == lit_untitled(),
{
    let v = vec!['u', 'n', 't', 'i', 't', 'l', 'e', 'd'];
    assert(v@ =~= lit_untitled());
    v
}

/// `md`.
pub open spec fn lit_md() -> Seq<char> {
    seq!['m', 'd']
}

pub(crate) fn lit_md_exec() -> (r: Vec<char>)
    ensures
        r@ == lit_md(),
{
    let v = vec!['m', 'd'];
    assert(v@ =~= lit_md());
    v
}

/// `.md`.
pub open spec fn lit_dot_md() -> Seq<char> {
    seq!['.', 'm', 'd']
}

pub(crate) fn lit_dot_md_exec() -> (r: Vec<char>)
    ensures
        r@ == lit_dot_md(),
{
    let v = vec!['.', 'm', 'd'];
    assert(v@ =~= lit_dot_md());
    v
}

/// `Vault Statistics:`.
pub open spec fn lit_stats_title() -> Seq<char> {
    seq!['V', 'a', 'u', 'l', 't', ' ', 'S', 't', 'a', 't', 'i', 's', 't', 'i', 'c', 's', ':']
}

pub(crate) fn lit_stats_title_exec() -> (r: Vec<char>)
    ensures
        r@ == lit_stats_title(),
{
    let v = vec!['V', 'a', 'u', 'l', 't', ' ', 'S', 't', 'a', 't', 'i', 's', 't', 'i', 'c', 's', ':'];
    assert(v@ =~= lit_stats_title());
    v
}

/// `Notes:`.
pub open spec fn lit_notes_label() -> Seq<char> {
    seq!['N', 'o', 't', 'e', 's', ':']
}

pub(crate) fn lit_notes_label_exec() -> (r: Vec<char>)
    ensures
        r@ == lit_notes_label(),
{
    let v = vec!['N', 'o', 't', 'e', 's', ':'];
    assert(v@ =~= lit_notes_label());
    v
}

/// `Words:`.
pub open spec fn lit_words_label() -> Seq<char> {
    seq!['W', 'o', 'r', 'd', 's', ':']
}

pub(crate) fn lit_words_label_exec() -> (r: Vec<char>)
    ensures
        r@ == lit_words_label(),
{
    let v = vec!['W', 'o', 'r', 'd', 's', ':'];
    assert(v@ =~= lit_words_label());
    v
}

/// `Links:`.
pub open spec fn lit_links_label2() -> Seq<char> {
    seq!['L', 'i', 'n', 'k', 's', ':']
}

pub(crate) fn lit_links_label2_exec() -> (r: Vec<char>)
    ensures
        r@ == lit_links_label2(),
{
    let v = vec!['L', 'i', 'n', 'k', 's', ':'];
    assert(v@ =~= lit_links_label2());
    v
}

/// `Tags:`.
pub open spec fn lit_tags_label2() -> Seq<char> {
    seq!['T', 'a', 'g', 's', ':']
}

pub(crate) fn lit_tags_label2_exec() -> (r: Vec<char>)
    ensures
        r@ == lit_tags_label2(),
{
    let v = vec!['T', 'a', 'g', 's', ':'];
    assert(v@ =~= lit_tags_label2());
    v
}

/// `Tasks:`.
pub open spec fn lit_tasks_label2() -> Seq<char> {
    seq!['T', 'a', 's', 'k', 's', ':']
}

pub(crate) fn lit_tasks_label2_exec() -> (r: Vec<char>)
    ensures
        r@ == lit_tasks_label2(),
{
    let v = vec!['T', 'a', 's', 'k', 's', ':'];
    assert(v@ =~= lit_tasks_label2());
    v
}


// ---------------------------------------------------------------------------
// Where notes go
// ---------------------------------------------------------------------------

/// The path with extension `md` when it has none.
pub open spec fn with_md(p: Seq<char>) -> Seq<char> {
    if extension_of(p) is None {
        path_with_extension(p, lit_md())
    } else {
        p
    }
}

pub(crate) fn with_md_exec(p: String) -> (r: String)
    ensures
        r@ == with_md(p@),
{
    assert(no_char(lit_md(), '/')) by {
        assert forall|i: int| 0 <= i < lit_md().len() implies lit_md()[i] != '/' by {}
    }
    match extension(p.as_str()) {
        None => with_extension(p.as_str(), string_of(&lit_md_exec()).as_str()),
        Some(_) => p,
    }
}

/// Where a new note named `note_path` goes: an absolute path as given,
/// else under the vault root with `.md` added when it has no extension.
pub open spec fn new_note_path(root: Seq<char>, note_path: Seq<char>) -> Seq<char> {
    if is_absolute(note_path) {
        note_path
    } else {
        with_md(path_join(root, note_path))
    }
}

/// Where a new note named `note_path` goes.
pub fn note_path_in(root: &str, note_path: &str) -> (r: String)
    ensures
        r@ == new_note_path(root@, note_path@),
{
    if is_absolute_exec(note_path) {
        let s = note_path.to_string();
        proof {
            vstd::string::to_string_from_display_ensures_for_str(note_path, s);
        }
        s
    } else {
        with_md_exec(join(root, note_path))
    }
}

/// Where a note moved or copied to `dest` goes: `dest` (under the vault
/// root unless absolute), with `.md` added when it has no extension.
pub open spec fn destination(root: Seq<char>, dest: Seq<char>) -> Seq<char> {
    with_md(if is_absolute(dest) {
        dest
    } else {
        path_join(root, dest)
    })
}

/// Where a note moved or copied to `dest` goes.
pub fn destination_path(root: &str, dest: &str) -> (r: String)
    ensures
        r@ == destination(root@, dest@),
{
    let p = if is_absolute_exec(dest) {
        let s = dest.to_string();
        proof {
            vstd::string::to_string_from_display_ensures_for_str(dest, s);
        }
        s
    } else {
        join(root, dest)
    };
    with_md_exec(p)
}

// ---------------------------------------------------------------------------
// Template variables
// ---------------------------------------------------------------------------

/// `{{key}}`.
pub open spec fn var_token(k: Seq<char>) -> Seq<char> {
    lit_open_braces() + k + lit_close_braces()
}

/// `content` with each `{{key}}` replaced by its value, pair by pair in
/// order.
pub open spec fn substituted(content: Seq<char>, pairs: Seq<(Seq<char>, Seq<char>)>) -> Seq<char>
    decreases pairs.len(),
{
    if pairs.len() == 0 {
        content
    } else {
        replace_all(substituted(content, pairs.drop_last()), var_token(pairs.last().0), pairs.last().1)
    }
}

/// Replaces each `{{key}}` of `content` by its value, pair by pair.
pub fn substitute(content: &str, pairs: &Vec<(String, String)>) -> (r: String)
    ensures
        r@ == substituted(content@, pair_views(pairs@)),
{
    let ghost pv = pair_views(pairs@);
    let mut c = chars_of(content);
    let mut i: usize = 0;
    while i < pairs.len()
        invariant
            i <= pairs.len(),
            pv == pair_views(pairs@),
            c@ == substituted(content@, pv.subrange(0, i as int)),
        decreases pairs.len() - i,
    {
        let mut tok = lit_open_braces_exec();
        push_all(&mut tok, &chars_of(pairs[i].0.as_str()));
        push_all(&mut tok, &lit_close_braces_exec());
        c = replace_all_exec(&c, &tok, &chars_of(pairs[i].1.as_str()));
        proof {
            assert(pv.subrange(0, i + 1).drop_last() =~= pv.subrange(0, i as int));
            assert(pv[i as int] == (pairs@[i as int].0@, pairs@[i as int].1@));
        }
        i = i + 1;
    }
    assert(pv.subrange(0, pairs.len() as int) =~= pv);
    string_of(&c)
}

fn pair_of(k: Vec<char>, v: &str) -> (r: (String, String))
    ensures
        r.0@ == k@,
        r.1@ == v@,
{
    let s = v.to_string();
    proof {
        vstd::string::to_string_from_display_ensures_for_str(v, s);
    }
    (string_of(&k), s)
}

// ---------------------------------------------------------------------------
// A new note's content
// ---------------------------------------------------------------------------

/// The first occurrence of `from` replaced by `to` (`replacen(.., 1)`).
pub open spec fn replace_first_text(s: Seq<char>, from: Seq<char>, to: Seq<char>) -> Seq<char> {
    match find(s, from) {
        Some(k) => s.subrange(0, k as int) + to + s.subrange(k + from.len() as int, s.len() as int),
        None => s,
    }
}

/// The `tags` list lines joined by newlines.
pub open spec fn tag_lines(tags: Seq<Seq<char>>) -> Seq<char> {
    join_text(tag_items(tags), seq!['\n'])
}

/// The content with a tags list added: none without tags; inserted after
/// the first `---` when there is one; else a new frontmatter block with
/// the tags and the creation time `now`.
pub open spec fn with_tags_block(content: Seq<char>, tags: Seq<Seq<char>>, now: Seq<char>) -> Seq<char> {
    if tags.len() == 0 {
        content
    } else if contains(content, dashes()) {
        replace_first_text(content, dashes(), lit_tags_head() + tag_lines(tags) + seq!['\n'])
    } else {
        lit_tags_head() + tag_lines(tags) + lit_created_prefix() + now + lit_fm_close_blank() + content
    }
}

/// The content with the given text appended, or else (when the content is
/// still empty) what was piped in; then ending with a newline.
pub open spec fn finished(nc: Seq<char>, content: Option<Seq<char>>, piped: Option<Seq<char>>) -> Seq<char> {
    let c = match content {
        Some(x) => nc + x,
        None => if nc.len() == 0 {
            match piped {
                Some(p) => p,
                None => nc,
            }
        } else {
            nc
        },
    };
    if ends_with(c, seq!['\n']) {
        c
    } else {
        c.push('\n')
    }
}

/// The builtin variables of a new note from a template, in the order they
/// are substituted.
pub open spec fn create_vars(name: Seq<char>, date: Seq<char>, datetime: Seq<char>) -> Seq<(Seq<char>, Seq<char>)> {
    seq![
        (seq!['t', 'i', 't', 'l', 'e'], name),
        (seq!['d', 'a', 't', 'e'], date),
        (seq!['d', 'a', 't', 'e', 't', 'i', 'm', 'e'], datetime),
        (seq!['n', 'a', 'm', 'e'], name),
    ]
}

/// A new note's text: the template with its variables filled (or
/// nothing), the tags list, then the given or piped text.
pub open spec fn new_note_text(
    template: Option<Seq<char>>,
    name: Seq<char>,
    date: Seq<char>,
    datetime: Seq<char>,
    tags: Seq<Seq<char>>,
    now: Seq<char>,
    content: Option<Seq<char>>,
    piped: Option<Seq<char>>,
) -> Seq<char> {
    let base = match template {
        Some(t) => substituted(t, create_vars(name, date, datetime)),
        None => Seq::empty(),
    };
    finished(with_tags_block(base, tags, now), content, piped)
}

pub open spec fn opt_s(o: Option<&str>) -> Option<Seq<char>> {
    match o {
        Some(s) => Some(s@),
        None => None,
    }
}

fn tag_lines_exec(tags: &[String]) -> (r: Vec<char>)
    ensures
        r@ == tag_lines(str_views(tags@)),
{
    let ghost tv = str_views(tags@);
    let mut items: Vec<Vec<char>> = Vec::new();
    let mut i: usize = 0;
    assert(views(items@) =~= tag_items(tv.subrange(0, 0)));
    while i < tags.len()
        invariant
            i <= tags.len(),
            tv == str_views(tags@),
            views(items@) == tag_items(tv.subrange(0, i as int)),
        decreases tags.len() - i,
    {
        let mut it = lit_item_exec();
        push_all(&mut it, &chars_of(tags[i].as_str()));
        proof {
            lemma_views_push(items@, it);
            assert(tv.subrange(0, i + 1).drop_last() =~= tv.subrange(0, i as int));
        }
        items.push(it);
        assert(views(items@) =~= tag_items(tv.subrange(0, i + 1)));
        i = i + 1;
    }
    assert(tv.subrange(0, tags.len() as int) =~= tv);
    let nl = vec!['\n'];
    assert(nl@ =~= seq!['\n']);
    join_exec(&items, &nl)
}

fn with_tags_block_exec(content: Vec<char>, tags: &[String], now: &str) -> (r: Vec<char>)
    ensures
        r@ == with_tags_block(content@, str_views(tags@), now@),
{
    if tags.len() == 0 {
        return content;
    }
    let d = vec!['-', '-', '-'];
    assert(d@ =~= dashes());
    let tl = tag_lines_exec(tags);
    match find_from_exec(&content, &d, 0) {
        Some(k) => {
            proof {
                lemma_find_from(content@, d@, 0);
                assert(d@.len() == 3);
                assert(occurs_at(content@, d@, k as int));
            }
            let mut out = slice(&content, 0, k);
            push_all(&mut out, &lit_tags_head_exec());
            push_all(&mut out, &tl);
            out.push('\n');
            assert(k + 3 <= content@.len());
            assert(content@.len() == content.len());
            push_all(&mut out, &slice(&content, k + 3, content.len()));
            proof {
                crate::kernel::text::lemma_find_contains(content@, d@, 0);
            }
            assert(out@ =~= replace_first_text(content@, dashes(), lit_tags_head() + tag_lines(str_views(tags@)) + seq!['\n']));
            out
        },
        None => {
            proof {
                crate::kernel::text::lemma_find_contains(content@, d@, 0);
            }
            let mut out = lit_tags_head_exec();
            push_all(&mut out, &tl);
            push_all(&mut out, &lit_created_prefix_exec());
            push_all(&mut out, &chars_of(now));
            push_all(&mut out, &lit_fm_close_blank_exec());
            push_all(&mut out, &content);
            out
        },
    }
}

/// A new note's text from the given date and time texts.
pub fn note_content_with(
    template: Option<&str>,
    name: &str,
    date: &str,
    datetime: &str,
    tags: &[String],
    now: &str,
    content: Option<&str>,
    piped: Option<&str>,
) -> (r: String)
    ensures
        r@ == new_note_text(
            opt_s(template),
            name@,
            date@,
            datetime@,
            str_views(tags@),
            now@,
            opt_s(content),
            opt_s(piped),
        ),
{
    let base: Vec<char> = match template {
        Some(t) => {
            let mut pairs: Vec<(String, String)> = Vec::new();
            let p0 = pair_of(vec!['t', 'i', 't', 'l', 'e'], name);
            let p1 = pair_of(vec!['d', 'a', 't', 'e'], date);
            let p2 = pair_of(vec!['d', 'a', 't', 'e', 't', 'i', 'm', 'e'], datetime);
            let p3 = pair_of(vec!['n', 'a', 'm', 'e'], name);
            pairs.push(p0);
            pairs.push(p1);
            pairs.push(p2);
            pairs.push(p3);
            assert(pair_views(pairs@) =~= create_vars(name@, date@, datetime@));
            chars_of(substitute(t, &pairs).as_str())
        },
        None => Vec::new(),
    };
    let mut c = with_tags_block_exec(base, tags, now);
    match content {
        Some(x) => push_all(&mut c, &chars_of(x)),
        None => {
            if c.len() == 0 {
                match piped {
                    Some(p) => {
                        c = chars_of(p);
                    },
                    None => {},
                }
            }
        },
    }
    let nl = vec!['\n'];
    assert(nl@ =~= seq!['\n']);
    if !ends_with_exec(&c, &nl) {
        c.push('\n');
    }
    string_of(&c)
}

/// A new note's text, with today's date and the current time.
pub fn note_content(template: Option<&str>, name: &str, tags: &[String], content: Option<&str>, piped: Option<&str>) -> (r: String)
    ensures
        exists|date: Seq<char>, datetime: Seq<char>, now: Seq<char>|
            r@ == #[trigger] new_note_text(
                opt_s(template),
                name@,
                date,
                datetime,
                str_views(tags@),
                now,
                opt_s(content),
                opt_s(piped),
            ),
{
    let date = today();
    let datetime = now_minutes();
    let now = now_minutes();
    note_content_with(template, name, date.as_str(), datetime.as_str(), tags, now.as_str(), content, piped)
}

// ---------------------------------------------------------------------------
// Appending, prepending, merging
// ---------------------------------------------------------------------------

/// The note with `content` appended on a new line, ending with a newline.
pub open spec fn appended_text(file: Seq<char>, content: Seq<char>) -> Seq<char> {
    let a = if ends_with(file, seq!['\n']) {
        file
    } else {
        file.push('\n')
    };
    let b = a + content;
    if ends_with(content, seq!['\n']) {
        b
    } else {
        b.push('\n')
    }
}

/// Appends `content` to a note's text.
pub fn append_text(file: &str, content: &str) -> (r: String)
    ensures
        r@ == appended_text(file@, content@),
{
    let mut f = chars_of(file);
    let c = chars_of(content);
    let nl = vec!['\n'];
    assert(nl@ =~= seq!['\n']);
    if !ends_with_exec(&f, &nl) {
        f.push('\n');
    }
    push_all(&mut f, &c);
    if !ends_with_exec(&c, &nl) {
        f.push('\n');
    }
    string_of(&f)
}

/// The note with `content` put first: right after the frontmatter block's
/// closing `\n---` when there is one, else at the very start.
pub open spec fn prepended_text(file: Seq<char>, content: Seq<char>) -> Seq<char> {
    match fm_end(file) {
        Some(e) => file.subrange(0, e + 4int) + seq!['\n'] + content + seq!['\n'] + file.subrange(e + 4int, file.len() as int),
        None => content + seq!['\n'] + file,
    }
}

/// Prepends `content` to a note's text.
pub fn prepend_text(file: &str, content: &str) -> (r: String)
    ensures
        r@ == prepended_text(file@, content@),
{
    let f = chars_of(file);
    let c = chars_of(content);
    proof {
        lemma_fm_end(f@);
    }
    let mut out: Vec<char>;
    match fm_end_exec(&f) {
        Some(e) => {
            assert(e + 4 <= f@.len());
            assert(f@.len() == f.len());
            out = slice(&f, 0, e + 4);
            out.push('\n');
            push_all(&mut out, &c);
            out.push('\n');
            push_all(&mut out, &slice(&f, e + 4, f.len()));
        },
        None => {
            out = copy_chars(&c);
            out.push('\n');
            push_all(&mut out, &f);
        },
    }
    string_of(&out)
}

/// The texts joined with `separator` between them.
pub fn merge_texts(texts: &Vec<String>, separator: &str) -> (r: String)
    ensures
        r@ == join_text(str_views(texts@), separator@),
{
    let mut parts: Vec<Vec<char>> = Vec::new();
    let mut i: usize = 0;
    while i < texts.len()
        invariant
            i <= texts.len(),
            views(parts@) == str_views(texts@).subrange(0, i as int),
        decreases texts.len() - i,
    {
        let c = chars_of(texts[i].as_str());
        proof {
            lemma_views_push(parts@, c);
        }
        parts.push(c);
        assert(views(parts@) =~= str_views(texts@).subrange(0, i + 1));
        i = i + 1;
    }
    assert(str_views(texts@).subrange(0, texts.len() as int) =~= str_views(texts@));
    string_of(&join_exec(&parts, &chars_of(separator)))
}


// ---------------------------------------------------------------------------
// Splitting a note by headings
// ---------------------------------------------------------------------------

/// A heading of the splitting level: the level's `#`s then a space.
pub open spec fn is_section_heading(line: Seq<char>, level: nat) -> bool {
    starts_with(line, repeat(seq!['#'], level)) && line.len() > level && line[level as int] == ' '
}

/// A section is kept when it has text beyond whitespace or a title.
pub open spec fn section_kept(title: Seq<char>, content: Seq<char>) -> bool {
    trim(content).len() > 0 || title != lit_untitled()
}

/// What each section after a heading starts with: the frontmatter block
/// (through its closing `---`) and a newline, when the note has one.
pub open spec fn section_start(content: Seq<char>) -> Seq<char> {
    match fm_end(content) {
        Some(e) => content.subrange(0, e + 4int).push('\n'),
        None => Seq::empty(),
    }
}

/// The split so far: the current title and text, and the sections done.
pub struct SplitState {
    pub title: Seq<char>,
    pub content: Seq<char>,
    pub sections: Seq<(Seq<char>, Seq<char>)>,
}

/// The state after the first `n` lines: a heading closes the current
/// section (kept per [`section_kept`]) and opens one titled by the rest of
/// the heading, trimmed; any other line is added to the current section.
pub open spec fn split_scan(ls: Seq<Seq<char>>, n: nat, level: nat, start: Seq<char>) -> SplitState
    decreases n,
{
    if n == 0 || n > ls.len() {
        SplitState { title: lit_untitled(), content: Seq::empty(), sections: Seq::empty() }
    } else {
        let st = split_scan(ls, (n - 1) as nat, level, start);
        let line = ls[n - 1];
        if is_section_heading(line, level) {
            SplitState {
                title: trim(line.subrange(level + 1int, line.len() as int)),
                content: start,
                sections: if section_kept(st.title, st.content) {
                    st.sections.push((st.title, st.content))
                } else {
                    st.sections
                },
            }
        } else {
            SplitState { title: st.title, content: st.content + line.push('\n'), sections: st.sections }
        }
    }
}

/// The sections of `content` split at headings of `level`, as (title,
/// text) pairs.
pub open spec fn split_spec(content: Seq<char>, level: nat) -> Seq<(Seq<char>, Seq<char>)> {
    let ls = lines(content);
    let st = split_scan(ls, ls.len(), level, section_start(content));
    if section_kept(st.title, st.content) {
        st.sections.push((st.title, st.content))
    } else {
        st.sections
    }
}

/// The title a heading line of the splitting level gives.
pub open spec fn heading_title(line: Seq<char>, level: nat) -> Seq<char> {
    trim(line.subrange(level + 1int, line.len() as int))
}

/// Some section is titled `t`.
pub open spec fn has_title(secs: Seq<(Seq<char>, Seq<char>)>, t: Seq<char>) -> bool {
    exists|i: int| 0 <= i < secs.len() && (#[trigger] secs[i]).0 == t
}

/// `t` is the title of one of the first `n` lines, a heading of `level`.
pub open spec fn titled_by_heading(ls: Seq<Seq<char>>, n: nat, level: nat, t: Seq<char>) -> bool {
    exists|k: int| 0 <= k < n && is_section_heading(#[trigger] ls[k], level) && heading_title(ls[k], level) == t
}

proof fn lemma_split_scan_titles(ls: Seq<Seq<char>>, n: nat, level: nat, start: Seq<char>)
    requires
        n <= ls.len(),
    ensures
        ({
            let st = split_scan(ls, n, level, start);
            &&& st.title == lit_untitled() || titled_by_heading(ls, n, level, st.title)
            &&& forall|i: int|
                0 <= i < st.sections.len() ==> (#[trigger] st.sections[i]).0 == lit_untitled()
                    || titled_by_heading(ls, n, level, st.sections[i].0)
            &&& forall|k: int|
                0 <= k < n && is_section_heading(#[trigger] ls[k], level) && heading_title(ls[k], level)
                    != lit_untitled() ==> has_title(st.sections, heading_title(ls[k], level))
                    || st.title == heading_title(ls[k], level)
        }),
    decreases n,
{
    if n > 0 {
        let m = (n - 1) as nat;
        lemma_split_scan_titles(ls, m, level, start);
        let prev = split_scan(ls, m, level, start);
        let st = split_scan(ls, n, level, start);
        let line = ls[m as int];
        assert forall|t: Seq<char>| titled_by_heading(ls, m, level, t) implies titled_by_heading(ls, n, level, t) by {
            let k = choose|k: int| 0 <= k < m && is_section_heading(#[trigger] ls[k], level) && heading_title(ls[k], level) == t;
        }
        if is_section_heading(line, level) {
            assert(titled_by_heading(ls, n, level, heading_title(line, level)));
            assert forall|i: int| 0 <= i < st.sections.len() implies (#[trigger] st.sections[i]).0 == lit_untitled()
                || titled_by_heading(ls, n, level, st.sections[i].0) by {
                if i < prev.sections.len() {
                    assert(st.sections[i] == prev.sections[i]);
                }
            }
            assert forall|k: int|
                0 <= k < n && is_section_heading(#[trigger] ls[k], level) && heading_title(ls[k], level)
                    != lit_untitled() implies has_title(st.sections, heading_title(ls[k], level))
                    || st.title == heading_title(ls[k], level) by {
                if k < m {
                    let t = heading_title(ls[k], level);
                    if has_title(prev.sections, t) {
                        let i = choose|i: int| 0 <= i < prev.sections.len() && (#[trigger] prev.sections[i]).0 == t;
                        assert(st.sections[i] == prev.sections[i]);
                    } else {
                        assert(prev.title == t);
                        assert(section_kept(prev.title, prev.content));
                        assert(st.sections[prev.sections.len() as int].0 == t);
                    }
                }
            }
        }
    }
}

/// Splitting at headings of `level`: every section is titled by a heading
/// line of that level (its text after the `#`s, trimmed) or is the leading
/// `untitled` section, and every heading line of that level whose title is
/// not `untitled` starts a section with that title.
pub proof fn law_split_titles(content: Seq<char>, level: nat)
    ensures
        forall|i: int|
            0 <= i < split_spec(content, level).len() ==> (#[trigger] split_spec(content, level)[i]).0
                == lit_untitled() || titled_by_heading(lines(content), lines(content).len(), level, split_spec(
                content,
                level,
            )[i].0),
        forall|k: int|
            0 <= k < lines(content).len() && is_section_heading(#[trigger] lines(content)[k], level)
                && heading_title(lines(content)[k], level) != lit_untitled() ==> has_title(
                split_spec(content, level),
                heading_title(lines(content)[k], level),
            ),
{
    let ls = lines(content);
    let st = split_scan(ls, ls.len(), level, section_start(content));
    lemma_split_scan_titles(ls, ls.len(), level, section_start(content));
    let r = split_spec(content, level);
    assert forall|i: int| 0 <= i < r.len() implies (#[trigger] r[i]).0 == lit_untitled() || titled_by_heading(
        ls,
        ls.len(),
        level,
        r[i].0,
    ) by {
        if i < st.sections.len() {
            assert(r[i] == st.sections[i]);
        }
    }
    assert forall|k: int|
        0 <= k < ls.len() && is_section_heading(#[trigger] ls[k], level) && heading_title(ls[k], level)
            != lit_untitled() implies has_title(r, heading_title(ls[k], level)) by {
        let t = heading_title(ls[k], level);
        if has_title(st.sections, t) {
            let i = choose|i: int| 0 <= i < st.sections.len() && (#[trigger] st.sections[i]).0 == t;
            assert(r[i] == st.sections[i]);
        } else {
            assert(st.title == t);
            assert(r[st.sections.len() as int].0 == t);
        }
    }
}

/// Splits a note's text into sections at headings of `level`.
pub fn split_sections(content: &str, level: usize) -> (r: Vec<(String, String)>)
    ensures
        pair_views(r@) == split_spec(content@, level as nat),
{
    let c = chars_of(content);
    proof {
        lemma_fm_end(c@);
    }
    let start: Vec<char> = match fm_end_exec(&c) {
        Some(e) => {
            assert(e + 4 <= c@.len());
            assert(c@.len() == c.len());
            let mut s = slice(&c, 0, e + 4);
            s.push('\n');
            s
        },
        None => Vec::new(),
    };
    assert(start@ == section_start(content@));
    let ls = lines_exec(&c);
    let ghost lv = views(ls@);
    let hash = vec!['#'];
    assert(hash@ =~= seq!['#']);
    let prefix = repeat_exec(&hash, level);
    let mut title = lit_untitled_exec();
    let mut cur: Vec<char> = Vec::new();
    let mut sections: Vec<(String, String)> = Vec::new();
    let mut i: usize = 0;
    while i < ls.len()
        invariant
            i <= ls.len(),
            lv == views(ls@),
            lv == lines(content@),
            prefix@ == repeat(seq!['#'], level as nat),
            start@ == section_start(content@),
            ({
                let st = split_scan(lv, i as nat, level as nat, start@);
                &&& title@ == st.title
                &&& cur@ == st.content
                &&& pair_views(sections@) == st.sections
            }),
        decreases ls.len() - i,
    {
        let line = &ls[i];
        assert(lv[i as int] == line@);
        let ghost st = split_scan(lv, i as nat, level as nat, start@);
        if starts_with_exec(line, &prefix) && line.len() > level && line[level] == ' ' {
            if trim_exec(&cur).len() > 0 || !eq_exec(&title, &lit_untitled_exec()) {
                let e = (string_of(&title), string_of(&cur));
                sections.push(e);
            }
            title = trim_exec(&slice(line, level + 1, line.len()));
            cur = copy_chars(&start);
        } else {
            push_all(&mut cur, line);
            cur.push('\n');
        }
        assert(pair_views(sections@) =~= split_scan(lv, (i + 1) as nat, level as nat, start@).sections);
        assert(cur@ =~= split_scan(lv, (i + 1) as nat, level as nat, start@).content);
        i = i + 1;
    }
    if trim_exec(&cur).len() > 0 || !eq_exec(&title, &lit_untitled_exec()) {
        sections.push((string_of(&title), string_of(&cur)));
    }
    assert(pair_views(sections@) =~= split_spec(content@, level as nat));
    sections
}

/// What `char::is_alphanumeric` returns: whether the character is
/// alphabetic or numeric in Unicode.
pub uninterp spec fn alphanumeric(c: char) -> bool;

/// `char::is_alphanumeric`. Claimed: the result is [`alphanumeric`]; on
/// ASCII it holds exactly of letters and digits.
#[verifier::external_body]
fn is_alphanumeric(c: char) -> (r: bool)
    ensures
        r == alphanumeric(c),
        (c as u32) < 0x80 ==> (r <==> (('a' <= c && c <= 'z') || ('A' <= c && c <= 'Z') || ('0' <= c && c <= '9'))),
{
    c.is_alphanumeric()
}

/// A title character kept in a file name, or `_` in its place.
pub open spec fn safe_char(c: char) -> char {
    if alphanumeric(c) || c == '-' || c == '_' || c == ' ' {
        c
    } else {
        '_'
    }
}

/// A file name for a section title: letters, digits, `-`, `_` kept, other
/// characters `_`, spaces `-`.
pub open spec fn safe_name(title: Seq<char>) -> Seq<char> {
    replace_all(title.map_values(|c: char| safe_char(c)), seq![' '], seq!['-'])
}

/// The file name for a section title.
pub fn safe_name_exec(title: &str) -> (r: String)
    ensures
        r@ == safe_name(title@),
{
    let t = chars_of(title);
    let mut out: Vec<char> = Vec::new();
    let mut i: usize = 0;
    while i < t.len()
        invariant
            i <= t.len(),
            out@ == t@.subrange(0, i as int).map_values(|c: char| safe_char(c)),
        decreases t.len() - i,
    {
        let c = t[i];
        let k = if is_alphanumeric(c) || c == '-' || c == '_' || c == ' ' {
            c
        } else {
            '_'
        };
        out.push(k);
        assert(out@ =~= t@.subrange(0, i + 1).map_values(|c: char| safe_char(c)));
        i = i + 1;
    }
    assert(t@.subrange(0, t.len() as int) =~= t@);
    let sp = vec![' '];
    let dash = vec!['-'];
    assert(sp@ =~= seq![' ']);
    assert(dash@ =~= seq!['-']);
    string_of(&replace_all_exec(&out, &sp, &dash))
}

/// Where a section is written: `<safe name>.md` in `dir`.
pub open spec fn section_path(dir: Seq<char>, title: Seq<char>) -> Seq<char> {
    path_join(dir, safe_name(title) + lit_dot_md())
}

/// Where a section is written.
pub fn section_path_exec(dir: &str, title: &str) -> (r: String)
    ensures
        r@ == section_path(dir@, title@),
{
    let mut n = chars_of(safe_name_exec(title).as_str());
    push_all(&mut n, &lit_dot_md_exec());
    join(dir, string_of(&n).as_str())
}

// ---------------------------------------------------------------------------
// Listings and totals
// ---------------------------------------------------------------------------

/// The paths whose extension is `ext`, in path order.
pub open spec fn listed(paths: Seq<Seq<char>>, ext: Seq<char>) -> Seq<Seq<char>> {
    sort_by(paths.filter(|p: Seq<char>| extension_of(p) == Some(ext)), path_before())
}

/// The files of a listing: those with extension `ext`, sorted.
pub fn list_files(paths: &Vec<String>, ext: &str) -> (r: Vec<String>)
    ensures
        str_views(r@) == listed(str_views(paths@), ext@),
{
    let ghost pv = str_views(paths@);
    let mut kept: Vec<String> = Vec::new();
    let mut i: usize = 0;
    let ec = chars_of(ext);
    while i < paths.len()
        invariant
            i <= paths.len(),
            pv == str_views(paths@),
            ec@ == ext@,
            str_views(kept@) == pv.subrange(0, i as int).filter(|p: Seq<char>| extension_of(p) == Some(ext@)),
        decreases paths.len() - i,
    {
        proof {
            reveal_with_fuel(Seq::filter, 1);
            assert(pv.subrange(0, i + 1).drop_last() =~= pv.subrange(0, i as int));
        }
        let keep = match extension(paths[i].as_str()) {
            Some(e) => eq_exec(&chars_of(e.as_str()), &ec),
            None => false,
        };
        if keep {
            let s = paths[i].clone();
            proof {
                lemma_str_views_push(kept@, s);
            }
            kept.push(s);
        }
        assert(str_views(kept@) =~= pv.subrange(0, i + 1).filter(|p: Seq<char>| extension_of(p) == Some(ext@)));
        i = i + 1;
    }
    assert(pv.subrange(0, paths.len() as int) =~= pv);
    sort_paths(&kept)
}

/// Vault totals: notes, words, links, tasks.
pub open spec fn total_words(ns: Seq<Note>) -> int
    decreases ns.len(),
{
    if ns.len() == 0 {
        0
    } else {
        total_words(ns.drop_last()) + ns.last().word_count
    }
}

pub open spec fn total_links(ns: Seq<Note>) -> int
    decreases ns.len(),
{
    if ns.len() == 0 {
        0
    } else {
        total_links(ns.drop_last()) + ns.last().wikilinks@.len()
    }
}

pub open spec fn total_tasks(ns: Seq<Note>) -> int
    decreases ns.len(),
{
    if ns.len() == 0 {
        0
    } else {
        total_tasks(ns.drop_last()) + ns.last().tasks@.len()
    }
}

/// The totals fit in a `usize`.
pub open spec fn totals_fit(ns: Seq<Note>) -> bool {
    total_words(ns) <= usize::MAX && total_links(ns) <= usize::MAX && total_tasks(ns) <= usize::MAX
}

proof fn lemma_totals_mono(ns: Seq<Note>, i: int)
    requires
        0 <= i <= ns.len(),
    ensures
        total_words(ns.subrange(0, i)) <= total_words(ns),
        total_links(ns.subrange(0, i)) <= total_links(ns),
        total_tasks(ns.subrange(0, i)) <= total_tasks(ns),
    decreases ns.len() - i,
{
    if i < ns.len() {
        lemma_totals_mono(ns, i + 1);
        assert(ns.subrange(0, i + 1).drop_last() =~= ns.subrange(0, i));
    } else {
        assert(ns.subrange(0, i) =~= ns);
    }
}

/// The number of words, links and tasks over all notes.
pub fn vault_totals(notes: &Vec<Note>) -> (r: (usize, usize, usize))
    requires
        totals_fit(notes@),
    ensures
        r.0 == total_words(notes@),
        r.1 == total_links(notes@),
        r.2 == total_tasks(notes@),
{
    let mut w: usize = 0;
    let mut l: usize = 0;
    let mut t: usize = 0;
    let mut i: usize = 0;
    while i < notes.len()
        invariant
            i <= notes.len(),
            totals_fit(notes@),
            w == total_words(notes@.subrange(0, i as int)),
            l == total_links(notes@.subrange(0, i as int)),
            t == total_tasks(notes@.subrange(0, i as int)),
        decreases notes.len() - i,
    {
        proof {
            assert(notes@.subrange(0, i + 1).drop_last() =~= notes@.subrange(0, i as int));
            lemma_totals_mono(notes@, i + 1);
        }
        w = w + notes[i].word_count;
        l = l + notes[i].wikilinks.len();
        t = t + notes[i].tasks.len();
        i = i + 1;
    }
    assert(notes@.subrange(0, notes.len() as int) =~= notes@);
    (w, l, t)
}


// ---------------------------------------------------------------------------
// Laws
// ---------------------------------------------------------------------------

/// Appending keeps the note's text as its beginning, and the result ends
/// with a newline.
pub proof fn law_append_keeps_text(file: Seq<char>, content: Seq<char>)
    ensures
        appended_text(file, content).subrange(0, file.len() as int) == file,
        ends_with(appended_text(file, content), seq!['\n']),
{
    let r = appended_text(file, content);
    assert(r.subrange(0, file.len() as int) =~= file);
    assert(r.subrange(r.len() - 1, r.len() as int) =~= seq!['\n']);
}

/// Prepending keeps the note's text after the insertion point: all of it
/// without frontmatter, the rest after the block's closing `\n---` with it.
pub proof fn law_prepend_keeps_text(file: Seq<char>, content: Seq<char>)
    ensures
        match fm_end(file) {
            Some(e) => ends_with(prepended_text(file, content), file.subrange(e + 4int, file.len() as int))
                && prepended_text(file, content).subrange(0, e + 4int) == file.subrange(0, e + 4int),
            None => ends_with(prepended_text(file, content), file),
        },
{
    lemma_fm_end(file);
    let r = prepended_text(file, content);
    match fm_end(file) {
        Some(e) => {
            let rest = file.subrange(e + 4int, file.len() as int);
            assert(r.subrange(r.len() - rest.len(), r.len() as int) =~= rest);
            assert(r.subrange(0, e + 4int) =~= file.subrange(0, e + 4int));
        },
        None => {
            assert(r.subrange(r.len() - file.len(), r.len() as int) =~= file);
        },
    }
}

proof fn lemma_token_has_braces(c: Seq<char>, k: Seq<char>)
    requires
        contains(c, var_token(k)),
    ensures
        contains(c, lit_open_braces()),
{
    let i = choose|i: int| occurs_at(c, var_token(k), i);
    let t = var_token(k);
    assert(t.subrange(0, 2) =~= lit_open_braces());
    assert(c.subrange(i, i + t.len()) == t);
    assert(c.subrange(i, i + 2) =~= c.subrange(i, i + t.len()).subrange(0, 2));
    assert(occurs_at(c, lit_open_braces(), i));
}

proof fn lemma_substituted_append(c: Seq<char>, p: Seq<(Seq<char>, Seq<char>)>, q: Seq<(Seq<char>, Seq<char>)>)
    ensures
        substituted(c, p + q) == substituted(substituted(c, p), q),
    decreases q.len(),
{
    if q.len() == 0 {
        assert(p + q =~= p);
    } else {
        assert((p + q).drop_last() =~= p + q.drop_last());
        assert((p + q).last() == q.last());
        lemma_substituted_append(c, p, q.drop_last());
    }
}

/// Filling a template: a text with one `{{key}}` and no other `{` gets that
/// token replaced by the key's value, the text around it kept as it was;
/// when the value has no `{`, the pairs filled after it change nothing more.
pub proof fn law_fill_variable(
    a: Seq<char>,
    k: Seq<char>,
    b: Seq<char>,
    v: Seq<char>,
    rest: Seq<(Seq<char>, Seq<char>)>,
)
    requires
        no_char(a, '{'),
        no_char(b, '{'),
        no_char(v, '{'),
    ensures
        substituted(a + var_token(k) + b, seq![(k, v)] + rest) == a + v + b,
{
    let c = a + var_token(k) + b;
    let t = var_token(k);
    let j = a.len();
    assert(c.subrange(j as int, (j + t.len()) as int) =~= t);
    assert forall|x: int| 0 <= x < j implies !occurs_at(c, t, x) by {
        if occurs_at(c, t, x) {
            assert(c.subrange(x, x + t.len())[0] == c[x]);
            assert(c[x] == a[x]);
        }
    }
    assert forall|x: int| j + t.len() <= x implies !occurs_at(c, t, x) by {
        if occurs_at(c, t, x) {
            assert(c.subrange(x, x + t.len())[0] == c[x]);
            assert(c[x] == b[x - j - t.len()]);
        }
    }
    lemma_replace_once(c, t, v, j);
    assert(c.subrange(0, j as int) =~= a);
    assert(c.subrange((j + t.len()) as int, c.len() as int) =~= b);
    assert(substituted(c, seq![(k, v)]) == replace_all(c, t, v)) by {
        reveal_with_fuel(substituted, 2);
        assert(seq![(k, v)].drop_last() =~= Seq::<(Seq<char>, Seq<char>)>::empty());
        assert(seq![(k, v)].last() == (k, v));
    }
    let r = a + v + b;
    assert(!contains(r, lit_open_braces())) by {
        if contains(r, lit_open_braces()) {
            let x = choose|x: int| occurs_at(r, lit_open_braces(), x);
            assert(r.subrange(x, x + 2)[0] == r[x]);
            if x < a.len() {
                assert(r[x] == a[x]);
            } else if x < a.len() + v.len() {
                assert(r[x] == v[x - a.len()]);
            } else {
                assert(r[x] == b[x - a.len() - v.len()]);
            }
        }
    }
    lemma_substituted_append(c, seq![(k, v)], rest);
    law_no_variables(r, rest);
}

/// A text without `{{` has no variables: filling it changes nothing.
pub proof fn law_no_variables(c: Seq<char>, pairs: Seq<(Seq<char>, Seq<char>)>)
    requires
        !contains(c, lit_open_braces()),
    ensures
        substituted(c, pairs) == c,
    decreases pairs.len(),
{
    if pairs.len() > 0 {
        law_no_variables(c, pairs.drop_last());
        let k = pairs.last().0;
        if contains(c, var_token(k)) {
            lemma_token_has_braces(c, k);
        }
        lemma_replace_absent(c, var_token(k), pairs.last().1);
    }
}

} // verus!
