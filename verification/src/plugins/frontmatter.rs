//! Editing the frontmatter block of a note: properties and the tags list.

use vstd::prelude::*;
use crate::kernel::error::Error;
use crate::kernel::note::{
    dashes, fm_display, fm_end, fm_end_exec, fm_get, lemma_fm_end, Note, FrontmatterValue,
};
use crate::kernel::pattern::{
    compile, escape, is_match, literal_replacement, literal_replacement_exec, regex_error, regex_escape,
    regex_is_match, regex_replace_first, regex_valid, replace_first,
};
use crate::kernel::text::{
    ends_with,
    chars_of, contains, contains_exec, join, join_exec, lines, lines_exec, push_all, slice,
    starts_with, starts_with_exec, string_of, trim, trim_exec, eq_exec, views, lemma_views_push,
    copy_chars,
};

verus! {

/// `---\n`.
pub open spec fn lit_dashes_nl() -> Seq<char> {
    seq!['-', '-', '-', '\n']
}

pub(crate) fn lit_dashes_nl_exec() -> (r: Vec<char>)
    ensures
        r@ == lit_dashes_nl(),
{
    let v = vec!['-', '-', '-', '\n'];
    assert(v@ =~= lit_dashes_nl());
    v
}

/// `: `.
pub open spec fn lit_colon_sp() -> Seq<char> {
    seq![':', ' ']
}

pub(crate) fn lit_colon_sp_exec() -> (r: Vec<char>)
    ensures
        r@ == lit_colon_sp(),
{
    let v = vec![':', ' '];
    assert(v@ =~= lit_colon_sp());
    v
}

/// `\n---\n\n`.
pub open spec fn lit_fm_close_blank() -> Seq<char> {
    seq!['\n', '-', '-', '-', '\n', '\n']
}

pub(crate) fn lit_fm_close_blank_exec() -> (r: Vec<char>)
    ensures
        r@ == lit_fm_close_blank(),
{
    let v = vec!['\n', '-', '-', '-', '\n', '\n'];
    assert(v@ =~= lit_fm_close_blank());
    v
}

/// `---\n\n`.
pub open spec fn lit_close_blank() -> Seq<char> {
    seq!['-', '-', '-', '\n', '\n']
}

pub(crate) fn lit_close_blank_exec() -> (r: Vec<char>)
    ensures
        r@ == lit_close_blank(),
{
    let v = vec!['-', '-', '-', '\n', '\n'];
    assert(v@ =~= lit_close_blank());
    v
}

/// `(?m)^`.
pub open spec fn lit_multiline_anchor() -> Seq<char> {
    seq!['(', '?', 'm', ')', '^']
}

pub(crate) fn lit_multiline_anchor_exec() -> (r: Vec<char>)
    ensures
        r@ == lit_multiline_anchor(),
{
    let v = vec!['(', '?', 'm', ')', '^'];
    assert(v@ =~= lit_multiline_anchor());
    v
}

/// `:.*$`.
pub open spec fn lit_colon_any() -> Seq<char> {
    seq![':', '.', '*', '$']
}

pub(crate) fn lit_colon_any_exec() -> (r: Vec<char>)
    ensures
        r@ == lit_colon_any(),
{
    let v = vec![':', '.', '*', '$'];
    assert(v@ =~= lit_colon_any());
    v
}

/// `tags:`.
pub open spec fn lit_tags_colon() -> Seq<char> {
    seq!['t', 'a', 'g', 's', ':']
}

pub(crate) fn lit_tags_colon_exec() -> (r: Vec<char>)
    ensures
        r@ == lit_tags_colon(),
{
    let v = vec!['t', 'a', 'g', 's', ':'];
    assert(v@ =~= lit_tags_colon());
    v
}

/// `  - `.
pub open spec fn lit_item() -> Seq<char> {
    seq![' ', ' ', '-', ' ']
}

pub(crate) fn lit_item_exec() -> (r: Vec<char>)
    ensures
        r@ == lit_item(),
{
    let v = vec![' ', ' ', '-', ' '];
    assert(v@ =~= lit_item());
    v
}

/// `- `.
pub open spec fn lit_dash_sp() -> Seq<char> {
    seq!['-', ' ']
}

pub(crate) fn lit_dash_sp_exec() -> (r: Vec<char>)
    ensures
        r@ == lit_dash_sp(),
{
    let v = vec!['-', ' '];
    assert(v@ =~= lit_dash_sp());
    v
}

/// `tags:\n`.
pub open spec fn lit_tags_nl() -> Seq<char> {
    seq!['t', 'a', 'g', 's', ':', '\n']
}

pub(crate) fn lit_tags_nl_exec() -> (r: Vec<char>)
    ensures
        r@ == lit_tags_nl(),
{
    let v = vec!['t', 'a', 'g', 's', ':', '\n'];
    assert(v@ =~= lit_tags_nl());
    v
}


// ---------------------------------------------------------------------------
// Setting a property
// ---------------------------------------------------------------------------

/// `key: value`.
pub open spec fn key_line(key: Seq<char>, value: Seq<char>) -> Seq<char> {
    key + lit_colon_sp() + value
}

/// The pattern of a line that sets `key`: `(?m)^<key escaped>:.*$`.
pub open spec fn key_pattern(key: Seq<char>) -> Seq<char> {
    lit_multiline_anchor() + regex_escape(key) + lit_colon_any()
}

/// What setting property `key` to `value` makes of `content`: in a
/// frontmatter block with a line starting `key:` (a match of
/// [`key_pattern`]), the first such line is replaced by `key: value`
/// (inserted literally); in one without, the line is added at its end; a
/// text that starts with `---` but has no closing `\n---` is left as it is;
/// a text without frontmatter gets a new block holding the line. The
/// block's opening line is written as `---\n` followed by everything that
/// came after the opening `---`. `Err` holds the pattern's error text when
/// the pattern does not compile.
pub open spec fn set_property_spec(content: Seq<char>, key: Seq<char>, value: Seq<char>) -> Result<Seq<char>, Seq<char>> {
    if starts_with(content, dashes()) {
        match fm_end(content) {
            Some(e) => {
                let fm = content.subrange(3, e as int);
                let rest = content.subrange(e as int, content.len() as int);
                let p = key_pattern(key);
                if !regex_valid(p) {
                    Err(regex_error(p))
                } else if regex_is_match(p, fm) {
                    Ok(lit_dashes_nl() + regex_replace_first(p, fm, literal_replacement(key_line(key, value))) + rest)
                } else {
                    Ok(lit_dashes_nl() + fm + seq!['\n'] + key_line(key, value) + rest)
                }
            },
            None => Ok(content),
        }
    } else {
        Ok(lit_dashes_nl() + key_line(key, value) + lit_fm_close_blank() + content)
    }
}

pub(crate) fn key_line_exec(key: &[char], value: &[char]) -> (r: Vec<char>)
    ensures
        r@ == key_line(key@, value@),
{
    let mut v = copy_chars(key);
    push_all(&mut v, &lit_colon_sp_exec());
    push_all(&mut v, value);
    v
}

/// Sets property `key` to `value` in a note's content.
pub fn set_property(content: &str, key: &str, value: &str) -> (r: Result<String, Error>)
    ensures
        match set_property_spec(content@, key@, value@) {
            Ok(c) => r matches Ok(s) && s@ == c,
            Err(m) => r matches Err(e) && (e matches Error::InvalidPattern(t) && t@ == m),
        },
{
    let c = chars_of(content);
    let k = chars_of(key);
    let v = chars_of(value);
    let d = vec!['-', '-', '-'];
    assert(d@ =~= dashes());
    proof {
        lemma_fm_end(c@);
    }
    if starts_with_exec(&c, &d) {
        match fm_end_exec(&c) {
            Some(e) => {
                let fm = slice(&c, 3, e);
                let rest = slice(&c, e, c.len());
                let mut out = lit_dashes_nl_exec();
                let mut p = lit_multiline_anchor_exec();
                push_all(&mut p, &chars_of(escape(key).as_str()));
                push_all(&mut p, &lit_colon_any_exec());
                assert(p@ =~= key_pattern(key@));
                let pt = match compile(string_of(&p).as_str()) {
                    Ok(pt) => pt,
                    Err(e) => return Err(e),
                };
                let fm_text = string_of(&fm);
                if is_match(&pt, fm_text.as_str()) {
                    let line = literal_replacement_exec(string_of(&key_line_exec(&k, &v)).as_str());
                    let new_fm = replace_first(&pt, fm_text.as_str(), line.as_str());
                    push_all(&mut out, &chars_of(new_fm.as_str()));
                    push_all(&mut out, &rest);
                    assert(out@ =~= lit_dashes_nl() + regex_replace_first(
                        key_pattern(key@),
                        fm@,
                        literal_replacement(key_line(key@, value@)),
                    ) + rest@);
                } else {
                    push_all(&mut out, &fm);
                    out.push('\n');
                    push_all(&mut out, &key_line_exec(&k, &v));
                    push_all(&mut out, &rest);
                    assert(out@ =~= lit_dashes_nl() + fm@ + seq!['\n'] + key_line(key@, value@) + rest@);
                }
                Ok(string_of(&out))
            },
            None => Ok(string_of(&c)),
        }
    } else {
        let mut out = lit_dashes_nl_exec();
        push_all(&mut out, &key_line_exec(&k, &v));
        push_all(&mut out, &lit_fm_close_blank_exec());
        push_all(&mut out, &c);
        assert(out@ =~= lit_dashes_nl() + key_line(key@, value@) + lit_fm_close_blank() + content@);
        Ok(string_of(&out))
    }
}

// ---------------------------------------------------------------------------
// Removing a property
// ---------------------------------------------------------------------------

/// `key: value\n` for each entry whose key is not `key`.
pub open spec fn fm_lines_without(fm: Seq<(String, FrontmatterValue)>, key: Seq<char>) -> Seq<char>
    decreases fm.len(),
{
    if fm.len() == 0 {
        Seq::empty()
    } else {
        let e = fm.last();
        fm_lines_without(fm.drop_last(), key) + if e.0@ != key {
            key_line(e.0@, fm_display(e.1@)) + seq!['\n']
        } else {
            Seq::empty()
        }
    }
}

/// What removing property `key` makes of a note: `None` when it has no
/// such property; else the other properties written back as
/// `key: value` lines in a new block before the body, or the bare body when
/// no property is left.
pub open spec fn remove_property_spec(note: Note, key: Seq<char>) -> Option<Seq<char>> {
    if fm_get(note.frontmatter@, key) is None {
        None
    } else {
        let lines = fm_lines_without(note.frontmatter@, key);
        if lines.len() == 0 {
            Some(note.body@)
        } else {
            Some(lit_dashes_nl() + lines + lit_close_blank() + note.body@)
        }
    }
}

/// Removes property `key` from a note, giving the new content.
pub fn remove_property(note: &Note, key: &str) -> (r: Option<String>)
    ensures
        match remove_property_spec(*note, key@) {
            Some(c) => r matches Some(s) && s@ == c,
            None => r is None,
        },
{
    let k = chars_of(key);
    if crate::kernel::note::find_key(&note.frontmatter, &k).is_none() {
        return None;
    }
    let mut lines: Vec<char> = Vec::new();
    let mut i: usize = 0;
    while i < note.frontmatter.len()
        invariant
            i <= note.frontmatter.len(),
            k@ == key@,
            lines@ == fm_lines_without(note.frontmatter@.subrange(0, i as int), key@),
        decreases note.frontmatter.len() - i,
    {
        assert(note.frontmatter@.subrange(0, i + 1).drop_last() =~= note.frontmatter@.subrange(0, i as int));
        let kc = chars_of(note.frontmatter[i].0.as_str());
        if !eq_exec(&kc, &k) {
            push_all(&mut lines, &key_line_exec(&kc, &chars_of(note.frontmatter[i].1.to_display_string().as_str())));
            lines.push('\n');
        }
        assert(lines@ =~= fm_lines_without(note.frontmatter@.subrange(0, i + 1), key@));
        i = i + 1;
    }
    assert(note.frontmatter@.subrange(0, note.frontmatter.len() as int) =~= note.frontmatter@);
    if lines.len() == 0 {
        Some(note.body.clone())
    } else {
        let mut out = lit_dashes_nl_exec();
        push_all(&mut out, &lines);
        push_all(&mut out, &lit_close_blank_exec());
        push_all(&mut out, &chars_of(note.body.as_str()));
        Some(string_of(&out))
    }
}

// ---------------------------------------------------------------------------
// Rewriting the tags list
// ---------------------------------------------------------------------------

/// A line whose key is `tags` (after leading whitespace): `tags:` on its
/// own, or with an inline value such as `tags: [a, b]`.
pub open spec fn is_tags_header(line: Seq<char>) -> bool {
    starts_with(trim(line), lit_tags_colon())
}

/// A list item line: `  - ` or `- ` at its start.
pub open spec fn is_tag_item(line: Seq<char>) -> bool {
    starts_with(line, lit_item()) || starts_with(line, lit_dash_sp())
}

/// The lines kept among the first `n`, and whether line `n - 1` belongs to
/// a tags section: a tags line starts a section, list items right after it
/// continue it, and any other line ends it. Lines of a section are dropped.
pub open spec fn tags_kept(ls: Seq<Seq<char>>, n: nat) -> (Seq<Seq<char>>, bool)
    decreases n,
{
    if n == 0 || n > ls.len() {
        (Seq::empty(), false)
    } else {
        let (kept, in_tags) = tags_kept(ls, (n - 1) as nat);
        let l = ls[n - 1];
        if is_tags_header(l) || (in_tags && is_tag_item(l)) {
            (kept, true)
        } else {
            (kept.push(l), false)
        }
    }
}

/// The lines with every tags section (a line whose key is `tags` and the
/// list items right after it) removed.
pub open spec fn without_tags_list(ls: Seq<Seq<char>>) -> Seq<Seq<char>> {
    tags_kept(ls, ls.len()).0
}

/// `  - tag` for each tag.
pub open spec fn tag_items(tags: Seq<Seq<char>>) -> Seq<Seq<char>>
    decreases tags.len(),
{
    if tags.len() == 0 {
        Seq::empty()
    } else {
        tag_items(tags.drop_last()).push(lit_item() + tags.last())
    }
}

/// The lines with a `tags:` list of `tags` inserted after the first line
/// (or as the only lines), unless `tags` is empty.
pub open spec fn with_tags_list(ls: Seq<Seq<char>>, tags: Seq<Seq<char>>) -> Seq<Seq<char>> {
    if tags.len() == 0 {
        ls
    } else {
        let pos: int = if ls.len() == 0 {
            0
        } else {
            1
        };
        ls.subrange(0, pos) + seq![lit_tags_colon()] + tag_items(tags) + ls.subrange(pos, ls.len() as int)
    }
}

/// `  - tag\n` for each tag.
pub open spec fn tag_items_text(tags: Seq<Seq<char>>) -> Seq<char>
    decreases tags.len(),
{
    if tags.len() == 0 {
        Seq::empty()
    } else {
        tag_items_text(tags.drop_last()) + lit_item() + tags.last() + seq!['\n']
    }
}

/// What rewriting the tags list to `tags` makes of `content`. With a
/// frontmatter block: its lines, minus the old list, plus the new list
/// after the first line, joined again; the rest of the text kept. Without
/// one: a new block holding only the list, then the text.
pub open spec fn rebuilt(content: Seq<char>, tags: Seq<Seq<char>>) -> Seq<char> {
    match fm_end(content) {
        Some(e) => {
            let ls = lines(content.subrange(3, e as int));
            lit_dashes_nl() + join(with_tags_list(without_tags_list(ls), tags), seq!['\n'])
                + content.subrange(e as int, content.len() as int)
        },
        None => lit_dashes_nl() + lit_tags_nl() + tag_items_text(tags) + lit_close_blank() + content,
    }
}

/// The lines outside every tags section.
fn drop_tags_sections(ls: &Vec<Vec<char>>) -> (r: Vec<Vec<char>>)
    ensures
        views(r@) == without_tags_list(views(ls@)),
{
    let ghost lv = views(ls@);
    let header = lit_tags_colon_exec();
    let item = lit_item_exec();
    let dash = lit_dash_sp_exec();
    let mut in_tags = false;
    let mut kept: Vec<Vec<char>> = Vec::new();
    let mut i: usize = 0;
    while i < ls.len()
        invariant
            i <= ls.len(),
            lv == views(ls@),
            header@ == lit_tags_colon(),
            item@ == lit_item(),
            dash@ == lit_dash_sp(),
            (views(kept@), in_tags) == tags_kept(lv, i as nat),
        decreases ls.len() - i,
    {
        let line = &ls[i];
        assert(lv[i as int] == line@);
        let t = trim_exec(line);
        if starts_with_exec(&t, &header) || (in_tags && (starts_with_exec(line, &item) || starts_with_exec(line, &dash))) {
            in_tags = true;
        } else {
            let cp = copy_chars(line);
            proof {
                lemma_views_push(kept@, cp);
            }
            kept.push(cp);
            in_tags = false;
        }
        i = i + 1;
    }
    kept
}

/// Rebuilds frontmatter with an updated tags list.
pub fn rebuild_frontmatter_with_tags(content: &str, tags: &[String]) -> (r: String)
    ensures
        r@ == rebuilt(content@, crate::kernel::note::str_views(tags@)),
{
    let ghost tv = crate::kernel::note::str_views(tags@);
    let c = chars_of(content);
    proof {
        lemma_fm_end(c@);
    }
    match fm_end_exec(&c) {
        Some(e) => {
            let fm = slice(&c, 3, e);
            let ls = lines_exec(&fm);
            let ghost lv = views(ls@);
            let kept = drop_tags_sections(&ls);
            let ghost removed = without_tags_list(lv);
            // insert the new list
            let mut fin: Vec<Vec<char>> = Vec::new();
            if tags.len() == 0 {
                fin = kept;
            } else {
                let pos: usize = if kept.len() == 0 { 0 } else { 1 };
                let mut j: usize = 0;
                while j < pos
                    invariant
                        j <= pos <= kept.len(),
                        views(fin@) == views(kept@).subrange(0, j as int),
                    decreases pos - j,
                {
                    let cp = copy_chars(&kept[j]);
                    proof {
                        lemma_views_push(fin@, cp);
                    }
                    fin.push(cp);
                    assert(views(fin@) =~= views(kept@).subrange(0, j + 1));
                    j = j + 1;
                }
                let h = lit_tags_colon_exec();
                proof {
                    lemma_views_push(fin@, h);
                }
                fin.push(h);
                let ghost base = views(fin@);
                let mut k: usize = 0;
                assert(base + tag_items(tv.subrange(0, 0)) =~= base);
                while k < tags.len()
                    invariant
                        k <= tags.len(),
                        tv == crate::kernel::note::str_views(tags@),
                        views(fin@) == base + tag_items(tv.subrange(0, k as int)),
                    decreases tags.len() - k,
                {
                    let mut it = lit_item_exec();
                    push_all(&mut it, &chars_of(tags[k].as_str()));
                    proof {
                        lemma_views_push(fin@, it);
                        assert(tv.subrange(0, k + 1).drop_last() =~= tv.subrange(0, k as int));
                    }
                    fin.push(it);
                    assert(views(fin@) =~= base + tag_items(tv.subrange(0, k + 1)));
                    k = k + 1;
                }
                assert(tv.subrange(0, tags.len() as int) =~= tv);
                let ghost mid = views(fin@);
                let mut j3: usize = pos;
                assert(mid + views(kept@).subrange(pos as int, pos as int) =~= mid);
                while j3 < kept.len()
                    invariant
                        pos <= j3 <= kept.len(),
                        views(fin@) == mid + views(kept@).subrange(pos as int, j3 as int),
                    decreases kept.len() - j3,
                {
                    let cp = copy_chars(&kept[j3]);
                    proof {
                        lemma_views_push(fin@, cp);
                    }
                    fin.push(cp);
                    assert(views(fin@) =~= mid + views(kept@).subrange(pos as int, j3 + 1));
                    j3 = j3 + 1;
                }
                assert(views(fin@) =~= with_tags_list(removed, tv));
            }
            assert(views(fin@) == with_tags_list(removed, tv));
            let mut out = lit_dashes_nl_exec();
            let nl = vec!['\n'];
            assert(nl@ =~= seq!['\n']);
            push_all(&mut out, &join_exec(&fin, &nl));
            push_all(&mut out, &slice(&c, e, c.len()));
            string_of(&out)
        },
        None => {
            let mut out = lit_dashes_nl_exec();
            push_all(&mut out, &lit_tags_nl_exec());
            let ghost base = out@;
            let mut k: usize = 0;
            assert(base + tag_items_text(tv.subrange(0, 0)) =~= base);
            while k < tags.len()
                invariant
                    k <= tags.len(),
                    tv == crate::kernel::note::str_views(tags@),
                    out@ == base + tag_items_text(tv.subrange(0, k as int)),
                decreases tags.len() - k,
            {
                push_all(&mut out, &lit_item_exec());
                push_all(&mut out, &chars_of(tags[k].as_str()));
                out.push('\n');
                proof {
                    assert(tv.subrange(0, k + 1).drop_last() =~= tv.subrange(0, k as int));
                }
                assert(out@ =~= base + tag_items_text(tv.subrange(0, k + 1)));
                k = k + 1;
            }
            assert(tv.subrange(0, tags.len() as int) =~= tv);
            push_all(&mut out, &lit_close_blank_exec());
            push_all(&mut out, &c);
            string_of(&out)
        },
    }
}


// ---------------------------------------------------------------------------
// Laws
// ---------------------------------------------------------------------------

proof fn lemma_kept_no_header(ls: Seq<Seq<char>>, n: nat)
    ensures
        forall|j: int| 0 <= j < tags_kept(ls, n).0.len() ==> !is_tags_header(#[trigger] tags_kept(ls, n).0[j]),
    decreases n,
{
    if n > 0 && n <= ls.len() {
        lemma_kept_no_header(ls, (n - 1) as nat);
        let prev = tags_kept(ls, (n - 1) as nat);
        let l = ls[n - 1];
        if !(is_tags_header(l) || (prev.1 && is_tag_item(l))) {
            assert(tags_kept(ls, n).0 == prev.0.push(l));
            assert forall|j: int| 0 <= j < tags_kept(ls, n).0.len() implies !is_tags_header(
                #[trigger] tags_kept(ls, n).0[j],
            ) by {
                if j < prev.0.len() {
                    assert(tags_kept(ls, n).0[j] == prev.0[j]);
                }
            }
        }
    }
}

/// Rewriting the tags list leaves no line whose key is `tags` from the
/// old frontmatter (inline `tags: [..]` lines included): the only such
/// line afterwards is the new list's header, placed after the first line
/// (or first), followed by one `  - tag` line per tag.
pub proof fn law_no_old_tags_line(ls: Seq<Seq<char>>, tags: Seq<Seq<char>>)
    ensures
        forall|j: int| 0 <= j < without_tags_list(ls).len() ==> !is_tags_header(#[trigger] without_tags_list(ls)[j]),
        tags.len() > 0 ==> ({
            let kept = without_tags_list(ls);
            let pos: int = if kept.len() == 0 { 0 } else { 1 };
            with_tags_list(kept, tags) == kept.subrange(0, pos) + seq![lit_tags_colon()] + tag_items(tags)
                + kept.subrange(pos, kept.len() as int)
        }),
{
    lemma_kept_no_header(ls, ls.len());
    assert forall|j: int| 0 <= j < without_tags_list(ls).len() implies !is_tags_header(
        #[trigger] without_tags_list(ls)[j],
    ) by {
        assert(without_tags_list(ls)[j] == tags_kept(ls, ls.len()).0[j]);
    }
}

/// Rewriting the tags list keeps the note's text after the frontmatter
/// block (from its closing `\n---` on), or the whole text when there was
/// no block.
pub proof fn law_rebuild_keeps_body(content: Seq<char>, tags: Seq<Seq<char>>)
    ensures
        match fm_end(content) {
            Some(e) => ends_with(rebuilt(content, tags), content.subrange(e as int, content.len() as int)),
            None => ends_with(rebuilt(content, tags), content),
        },
{
    let r = rebuilt(content, tags);
    match fm_end(content) {
        Some(e) => {
            let rest = content.subrange(e as int, content.len() as int);
            assert(r.subrange(r.len() - rest.len(), r.len() as int) =~= rest);
        },
        None => {
            assert(r.subrange(r.len() - content.len(), r.len() as int) =~= content);
        },
    }
}

/// Setting a property keeps the note's text after the frontmatter block,
/// or the whole text when there was no block.
pub proof fn law_set_property_keeps_body(content: Seq<char>, key: Seq<char>, value: Seq<char>)
    ensures
        set_property_spec(content, key, value) matches Ok(r) ==> match fm_end(content) {
            Some(e) => ends_with(r, content.subrange(e as int, content.len() as int)),
            None => ends_with(r, content),
        },
{
    lemma_fm_end(content);
    if let Ok(r) = set_property_spec(content, key, value) {
        match fm_end(content) {
            Some(e) => {
                let rest = content.subrange(e as int, content.len() as int);
                assert(r.subrange(r.len() - rest.len(), r.len() as int) =~= rest);
            },
            None => {
                assert(r.subrange(r.len() - content.len(), r.len() as int) =~= content);
            },
        }
    }
}

} // verus!
