//! Bookmarks: the tree of `.obsidian/bookmarks.json`, rendered as an
//! indented list.

use vstd::prelude::*;
use crate::kernel::output::{painted, plain, repeat, repeat_exec, renders, Piece, Style, Writer};
use crate::kernel::text::{chars_of, eq_exec};

verus! {

/// `📁 `.
pub open spec fn lit_folder_icon() -> Seq<char> {
    seq!['\u{1f4c1}', ' ']
}

pub(crate) fn lit_folder_icon_exec() -> (r: Vec<char>)
    ensures
        r@ == lit_folder_icon(),
{
    let v = vec!['\u{1f4c1}', ' '];
    assert(v@ =~= lit_folder_icon());
    v
}

/// `→`.
pub open spec fn lit_arrow_right() -> Seq<char> {
    seq!['\u{2192}']
}

pub(crate) fn lit_arrow_right_exec() -> (r: Vec<char>)
    ensures
        r@ == lit_arrow_right(),
{
    let v = vec!['\u{2192}'];
    assert(v@ =~= lit_arrow_right());
    v
}

/// `Untitled`.
pub open spec fn lit_untitled_bm() -> Seq<char> {
    seq!['U', 'n', 't', 'i', 't', 'l', 'e', 'd']
}

pub(crate) fn lit_untitled_bm_exec() -> (r: Vec<char>)
    ensures
        r@ == lit_untitled_bm(),
{
    let v = vec!['U', 'n', 't', 'i', 't', 'l', 'e', 'd'];
    assert(v@ =~= lit_untitled_bm());
    v
}

/// `title`.
pub open spec fn lit_title_key() -> Seq<char> {
    seq!['t', 'i', 't', 'l', 'e']
}

pub(crate) fn lit_title_key_exec() -> (r: Vec<char>)
    ensures
        r@ == lit_title_key(),
{
    let v = vec!['t', 'i', 't', 'l', 'e'];
    assert(v@ =~= lit_title_key());
    v
}

/// `items`.
pub open spec fn lit_items_key() -> Seq<char> {
    seq!['i', 't', 'e', 'm', 's']
}

pub(crate) fn lit_items_key_exec() -> (r: Vec<char>)
    ensures
        r@ == lit_items_key(),
{
    let v = vec!['i', 't', 'e', 'm', 's'];
    assert(v@ =~= lit_items_key());
    v
}

/// `path`.
pub open spec fn lit_path_key() -> Seq<char> {
    seq!['p', 'a', 't', 'h']
}

pub(crate) fn lit_path_key_exec() -> (r: Vec<char>)
    ensures
        r@ == lit_path_key(),
{
    let v = vec!['p', 'a', 't', 'h'];
    assert(v@ =~= lit_path_key());
    v
}

/// `Bookmarks:`.
pub open spec fn lit_bookmarks_head() -> Seq<char> {
    seq!['B', 'o', 'o', 'k', 'm', 'a', 'r', 'k', 's', ':']
}

pub(crate) fn lit_bookmarks_head_exec() -> (r: Vec<char>)
    ensures
        r@ == lit_bookmarks_head(),
{
    let v = vec!['B', 'o', 'o', 'k', 'm', 'a', 'r', 'k', 's', ':'];
    assert(v@ =~= lit_bookmarks_head());
    v
}


/// A JSON value, as far as bookmarks are read: arrays, objects (entries in
/// order, keys distinct), strings; other values are kept as `Other`.
#[derive(Debug)]
pub enum JsonValue {
    Array(Vec<JsonValue>),
    Object(Vec<(String, JsonValue)>),
    Str(String),
    Other,
}

/// The first entry with key `k`, from index `i` on.
pub open spec fn entry_from(es: Seq<(String, JsonValue)>, k: Seq<char>, i: int) -> Option<JsonValue>
    decreases es.len() - i,
{
    if i < 0 || i >= es.len() {
        None
    } else if es[i].0@ == k {
        Some(es[i].1)
    } else {
        entry_from(es, k, i + 1)
    }
}

/// The value under key `k` (`Map::get`).
pub open spec fn entry(es: Seq<(String, JsonValue)>, k: Seq<char>) -> Option<JsonValue> {
    entry_from(es, k, 0)
}

/// A string entry, or `default` when the key is missing or not a string.
pub open spec fn str_entry(es: Seq<(String, JsonValue)>, k: Seq<char>, default: Seq<char>) -> Seq<char> {
    match entry(es, k) {
        Some(JsonValue::Str(s)) => s@,
        _ => default,
    }
}

/// Two spaces per level.
pub open spec fn indent_text(indent: nat) -> Seq<char> {
    repeat(seq![' ', ' '], indent)
}

/// A bookmark object: a group (it has `items`) is shown with a folder
/// icon, its title in bold, and its items one level deeper; a bookmark is
/// shown as an arrow and its title, then its path dimmed on a line of its
/// own when it has one. Titles default to `Untitled`.
pub open spec fn object_pieces(es: Seq<(String, JsonValue)>, indent: nat) -> Seq<Piece>
    decreases es, 1int,
{
    let name = str_entry(es, lit_title_key(), lit_untitled_bm());
    match entry(es, lit_items_key()) {
        Some(items) => {
            proof {
                lemma_entry_decreases(es, lit_items_key(), 0);
            }
            seq![plain(indent_text(indent) + lit_folder_icon()), painted(name, Style::Bold), plain(seq!['\n'])]
                + value_pieces(items, indent + 1)
        },
        None => {
            let path = str_entry(es, lit_path_key(), Seq::empty());
            seq![
                plain(indent_text(indent) + seq![' ', ' ']),
                painted(lit_arrow_right(), Style::Cyan),
                plain(seq![' '] + name + seq!['\n']),
            ] + if path.len() > 0 {
                seq![plain(indent_text(indent) + seq![' ', ' ', ' ', ' ']), painted(path, Style::Dimmed), plain(seq!['\n'])]
            } else {
                Seq::empty()
            }
        },
    }
}

/// The pieces of a JSON value: an array's elements in turn, an object per
/// [`object_pieces`], nothing for other values.
pub open spec fn value_pieces(v: JsonValue, indent: nat) -> Seq<Piece>
    decreases v, 0int,
{
    match v {
        JsonValue::Array(items) => array_pieces(items@, indent),
        JsonValue::Object(es) => object_pieces(es@, indent),
        _ => Seq::empty(),
    }
}

/// The pieces of the elements of an array, in order.
pub open spec fn array_pieces(items: Seq<JsonValue>, indent: nat) -> Seq<Piece>
    decreases items, 0int,
{
    if items.len() == 0 {
        Seq::empty()
    } else {
        array_pieces(items.drop_last(), indent) + value_pieces(items.last(), indent)
    }
}

pub proof fn lemma_entry_decreases(es: Seq<(String, JsonValue)>, k: Seq<char>, i: int)
    ensures
        entry_from(es, k, i) matches Some(v) ==> decreases_to!(es => v),
    decreases es.len() - i,
{
    if 0 <= i < es.len() && es[i].0@ != k {
        lemma_entry_decreases(es, k, i + 1);
    }
}


fn entry_exec<'a>(es: &'a Vec<(String, JsonValue)>, k: &[char]) -> (r: Option<&'a JsonValue>)
    ensures
        match entry(es@, k@) {
            Some(v) => r matches Some(x) && *x == v,
            None => r is None,
        },
{
    let mut i: usize = 0;
    while i < es.len()
        invariant
            i <= es.len(),
            entry(es@, k@) == entry_from(es@, k@, i as int),
        decreases es.len() - i,
    {
        if eq_exec(&chars_of(es[i].0.as_str()), k) {
            return Some(&es[i].1);
        }
        i = i + 1;
    }
    None
}

fn str_entry_exec(es: &Vec<(String, JsonValue)>, k: &[char], default: Vec<char>) -> (r: Vec<char>)
    ensures
        r@ == str_entry(es@, k@, default@),
{
    match entry_exec(es, k) {
        Some(JsonValue::Str(s)) => chars_of(s.as_str()),
        _ => default,
    }
}

fn write_object(w: &mut Writer, es: &Vec<(String, JsonValue)>, prefix: &Vec<char>, Ghost(indent): Ghost<nat>)
    requires
        old(w).ok(),
        prefix@ == indent_text(indent),
    ensures
        final(w).ok(),
        final(w).pieces@ == old(w).pieces@ + object_pieces(es@, indent),
    decreases es@, 1int,
{
    let name = str_entry_exec(es, &lit_title_key_exec(), lit_untitled_bm_exec());
    let nl = vec!['\n'];
    assert(nl@ =~= seq!['\n']);
    match entry_exec(es, &lit_items_key_exec()) {
        Some(items) => {
            proof {
                lemma_entry_decreases(es@, lit_items_key(), 0);
            }
            let mut head = prefix.clone();
            assert(head@ == prefix@);
            crate::kernel::text::push_all(&mut head, &lit_folder_icon_exec());
            w.text(&head);
            w.styled(&name, Style::Bold);
            w.text(&nl);
            let mut deeper = prefix.clone();
            deeper.push(' ');
            deeper.push(' ');
            assert(deeper@ =~= indent_text(indent + 1));
            let ghost mid = w.pieces@;
            assert(mid =~= old(w).pieces@ + seq![
                plain(indent_text(indent) + lit_folder_icon()),
                painted(name@, Style::Bold),
                plain(seq!['\n']),
            ]);
            write_value(w, items, &deeper, Ghost(indent + 1));
            assert(entry(es@, lit_items_key()) == Some(*items));
            assert(object_pieces(es@, indent) == seq![
                plain(indent_text(indent) + lit_folder_icon()),
                painted(name@, Style::Bold),
                plain(seq!['\n']),
            ] + value_pieces(*items, indent + 1));
            assert(w.pieces@ =~= old(w).pieces@ + object_pieces(es@, indent));
        },
        None => {
            let path = str_entry_exec(es, &lit_path_key_exec(), Vec::new());
            let mut a = prefix.clone();
            assert(a@ == prefix@);
            a.push(' ');
            a.push(' ');
            assert(a@ =~= indent_text(indent) + seq![' ', ' ']);
            w.text(&a);
            w.styled(&lit_arrow_right_exec(), Style::Cyan);
            let mut t = vec![' '];
            assert(t@ =~= seq![' ']);
            crate::kernel::text::push_all(&mut t, &name);
            t.push('\n');
            assert(t@ =~= seq![' '] + name@ + seq!['\n']);
            w.text(&t);
            assert(entry(es@, lit_items_key()) is None);
            if path.len() > 0 {
                let mut b = prefix.clone();
                assert(b@ == prefix@);
                b.push(' ');
                b.push(' ');
                b.push(' ');
                b.push(' ');
                assert(b@ =~= indent_text(indent) + seq![' ', ' ', ' ', ' ']);
                w.text(&b);
                w.styled(&path, Style::Dimmed);
                w.text(&nl);
            }
            assert(w.pieces@ =~= old(w).pieces@ + object_pieces(es@, indent));
        },
    }
}

fn write_value(w: &mut Writer, v: &JsonValue, prefix: &Vec<char>, Ghost(indent): Ghost<nat>)
    requires
        old(w).ok(),
        prefix@ == indent_text(indent),
    ensures
        final(w).ok(),
        final(w).pieces@ == old(w).pieces@ + value_pieces(*v, indent),
    decreases *v, 0int,
{
    match v {
        JsonValue::Array(items) => {
            let ghost start = w.pieces@;
            proof {
                assert(decreases_to!(*v => *items));
            }
            let mut i: usize = 0;
            assert(items@.subrange(0, 0) =~= Seq::<JsonValue>::empty());
            assert(start + array_pieces(items@.subrange(0, 0), indent) =~= start);
            while i < items.len()
                invariant
                    i <= items.len(),
                    *v == JsonValue::Array(*items),
                    decreases_to!(*v => *items),
                    prefix@ == indent_text(indent),
                    w.ok(),
                    w.pieces@ == start + array_pieces(items@.subrange(0, i as int), indent),
                decreases items.len() - i,
            {
                proof {
                    vstd::std_specs::vec::axiom_vec_index_decreases(*items, i as int);
                }
                write_value(w, &items[i], prefix, Ghost(indent));
                proof {
                    assert(items@.subrange(0, i + 1).drop_last() =~= items@.subrange(0, i as int));
                }
                assert(w.pieces@ =~= start + array_pieces(items@.subrange(0, i + 1), indent));
                i = i + 1;
            }
            assert(items@.subrange(0, items.len() as int) =~= items@);
        },
        JsonValue::Object(es) => {
            write_object(w, es, prefix, Ghost(indent));
        },
        _ => {
            assert(w.pieces@ =~= old(w).pieces@ + value_pieces(*v, indent));
        },
    }
}

/// The bookmarks listing: a bold heading, then the tree.
pub open spec fn bookmarks_pieces(v: JsonValue) -> Seq<Piece> {
    seq![painted(lit_bookmarks_head(), Style::Bold), plain(seq!['\n'])] + value_pieces(v, 0)
}

/// Renders the bookmarks tree.
pub fn format_bookmarks(v: &JsonValue) -> (r: String)
    ensures
        renders(r@, bookmarks_pieces(*v)),
{
    let mut w = Writer::new();
    w.styled(&lit_bookmarks_head_exec(), Style::Bold);
    let nl = vec!['\n'];
    assert(nl@ =~= seq!['\n']);
    w.text(&nl);
    let prefix: Vec<char> = Vec::new();
    assert(prefix@ =~= indent_text(0));
    write_value(&mut w, v, &prefix, Ghost(0));
    assert(w.pieces@ =~= bookmarks_pieces(*v));
    w.finish()
}

} // verus!
