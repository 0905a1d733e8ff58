//! Output formatting: notes, tasks, outlines, links and word counts as
//! terminal text.
//!
//! Output is described as a sequence of pieces, each a text with an
//! optional style. Styling goes through `colored`, which decides from the
//! environment whether to emit ANSI escapes; so a rendered piece is either
//! its plain text or its text wrapped in the style's escape codes.

use vstd::prelude::*;
use colored::Colorize;
use crate::kernel::markdown::{HeadingSpec, LinkSpec, TaskSpec};
use crate::kernel::note::{str_views, Heading, Note, Task, Wikilink};
use crate::kernel::search::{hit_view, hit_views, match_view, match_views, HitSpec, MatchSpec, SearchMatch, SearchResult};
use crate::kernel::text::{
    chars_of, lines, lines_exec, push_all, replace_all, string_of, views, copy_chars, eq_exec,
    find, find_from_exec, join, lemma_find_from, lower, slice, all_ascii, ascii_lower, lemma_ascii_utf8, lemma_ascii_lower_ascii, to_lower, utf8_len, utf8_size,
};

verus! {

/// A text style of `colored`.
#[derive(Debug, Clone, Copy, PartialEq, Eq)]
pub enum Style {
    Bold,
    Dimmed,
    Cyan,
    Green,
    Yellow,
    Red,
    BoldWhite,
    BoldCyan,
    BoldGreen,
    BoldYellow,
    BoldRed,
}

/// The SGR parameters `colored` writes for a style.
pub open spec fn style_code(s: Style) -> Seq<char> {
    match s {
        Style::Bold => seq!['1'],
        Style::Dimmed => seq!['2'],
        Style::Cyan => seq!['3', '6'],
        Style::Green => seq!['3', '2'],
        Style::Yellow => seq!['3', '3'],
        Style::Red => seq!['3', '1'],
        Style::BoldWhite => seq!['1', ';', '3', '7'],
        Style::BoldCyan => seq!['1', ';', '3', '6'],
        Style::BoldGreen => seq!['1', ';', '3', '2'],
        Style::BoldYellow => seq!['1', ';', '3', '3'],
        Style::BoldRed => seq!['1', ';', '3', '1'],
    }
}

/// `ESC [ code m`, which turns a style on.
pub open spec fn style_open(s: Style) -> Seq<char> {
    seq!['\x1b', '['] + style_code(s) + seq!['m']
}

/// `ESC [ 0 m`, which resets all styles.
pub open spec fn style_reset() -> Seq<char> {
    seq!['\x1b', '[', '0', 'm']
}

/// The text `colored` writes for `t` in style `s` when colors are on: the
/// style turned on, the text with the style turned on again after each
/// reset inside it, then a reset.
pub open spec fn styled(t: Seq<char>, s: Style) -> Seq<char> {
    style_open(s) + replace_all(t, style_reset(), style_reset() + style_open(s)) + style_reset()
}

/// `t` in style `s`, as `colored` writes it: the plain text when colors are
/// off (the environment decides: `NO_COLOR`, `CLICOLOR`, `CLICOLOR_FORCE`
/// and whether stdout is a terminal), else [`styled`]. Which of the two is
/// not stated.
#[verifier::external_body]
pub(crate) fn paint(t: &str, s: Style) -> (r: String)
    ensures
        r@ == t@ || r@ == styled(t@, s),
{
    match s {
        Style::Bold => t.bold().to_string(),
        Style::Dimmed => t.dimmed().to_string(),
        Style::Cyan => t.cyan().to_string(),
        Style::Green => t.green().to_string(),
        Style::Yellow => t.yellow().to_string(),
        Style::Red => t.red().to_string(),
        Style::BoldWhite => t.bold().white().to_string(),
        Style::BoldCyan => t.cyan().bold().to_string(),
        Style::BoldGreen => t.green().bold().to_string(),
        Style::BoldYellow => t.yellow().bold().to_string(),
        Style::BoldRed => t.red().bold().to_string(),
    }
}

/// A piece of output: a text and an optional style.
pub struct Piece {
    pub text: Seq<char>,
    pub style: Option<Style>,
}

/// A plain piece.
pub open spec fn plain(t: Seq<char>) -> Piece {
    Piece { text: t, style: None }
}

/// A styled piece.
pub open spec fn painted(t: Seq<char>, s: Style) -> Piece {
    Piece { text: t, style: Some(s) }
}

/// `out` is the pieces written one after another, each styled piece either
/// plain or styled.
pub open spec fn renders(out: Seq<char>, ps: Seq<Piece>) -> bool
    decreases ps.len(),
{
    if ps.len() == 0 {
        out.len() == 0
    } else {
        let p = ps.last();
        let plain_ok = p.text.len() <= out.len() && out.subrange(out.len() - p.text.len(), out.len() as int)
            == p.text && renders(out.subrange(0, out.len() - p.text.len()), ps.drop_last());
        let styled_ok = match p.style {
            Some(s) => {
                let t = styled(p.text, s);
                t.len() <= out.len() && out.subrange(out.len() - t.len(), out.len() as int) == t
                    && renders(out.subrange(0, out.len() - t.len()), ps.drop_last())
            },
            None => false,
        };
        plain_ok || styled_ok
    }
}

/// The output being built and the pieces it renders.
pub struct Writer {
    pub out: Vec<char>,
    pub pieces: Ghost<Seq<Piece>>,
}

impl Writer {
    pub open spec fn ok(&self) -> bool {
        renders(self.out@, self.pieces@)
    }

    pub fn new() -> (w: Writer)
        ensures
            w.ok(),
            w.pieces@ == Seq::<Piece>::empty(),
    {
        Writer { out: Vec::new(), pieces: Ghost(Seq::empty()) }
    }

    /// Writes plain text.
    pub fn text(&mut self, t: &[char])
        requires
            old(self).ok(),
        ensures
            final(self).ok(),
            final(self).pieces@ == old(self).pieces@.push(plain(t@)),
    {
        let ghost before = self.out@;
        push_all(&mut self.out, t);
        proof {
            let ps = self.pieces@.push(plain(t@));
            assert(ps.drop_last() =~= self.pieces@);
            assert(self.out@.subrange(0, self.out@.len() - t@.len()) =~= before);
            assert(self.out@.subrange(self.out@.len() - t@.len(), self.out@.len() as int) =~= t@);
        }
        self.pieces = Ghost(self.pieces@.push(plain(t@)));
    }

    /// Writes styled text.
    pub fn styled(&mut self, t: &[char], s: Style)
        requires
            old(self).ok(),
        ensures
            final(self).ok(),
            final(self).pieces@ == old(self).pieces@.push(painted(t@, s)),
    {
        let ghost before = self.out@;
        let r = paint(string_of(t).as_str(), s);
        let rc = chars_of(r.as_str());
        push_all(&mut self.out, &rc);
        proof {
            let ps = self.pieces@.push(painted(t@, s));
            assert(ps.drop_last() =~= self.pieces@);
            assert(self.out@.subrange(0, self.out@.len() - rc@.len()) =~= before);
            assert(self.out@.subrange(self.out@.len() - rc@.len(), self.out@.len() as int) =~= rc@);
        }
        self.pieces = Ghost(self.pieces@.push(painted(t@, s)));
    }

    /// The output as a string.
    pub fn finish(self) -> (r: String)
        ensures
            r@ == self.out@,
    {
        string_of(&self.out)
    }
}

// ---------------------------------------------------------------------------
// Numbers
// ---------------------------------------------------------------------------

/// The decimal digits of `n`.
pub open spec fn decimal(n: nat) -> Seq<char>
    decreases n,
{
    if n < 10 {
        seq![digit(n)]
    } else {
        decimal(n / 10) + seq![digit(n % 10)]
    }
}

/// The digit character for `d < 10`.
pub open spec fn digit(d: nat) -> char {
    if d == 0 { '0' }
    else if d == 1 { '1' }
    else if d == 2 { '2' }
    else if d == 3 { '3' }
    else if d == 4 { '4' }
    else if d == 5 { '5' }
    else if d == 6 { '6' }
    else if d == 7 { '7' }
    else if d == 8 { '8' }
    else { '9' }
}

fn digit_exec(d: usize) -> (c: char)
    requires
        d < 10,
    ensures
        c == digit(d as nat),
{
    if d == 0 { '0' }
    else if d == 1 { '1' }
    else if d == 2 { '2' }
    else if d == 3 { '3' }
    else if d == 4 { '4' }
    else if d == 5 { '5' }
    else if d == 6 { '6' }
    else if d == 7 { '7' }
    else if d == 8 { '8' }
    else { '9' }
}

/// The decimal text of `n` (`usize`'s `Display`).
pub fn decimal_exec(n: usize) -> (r: Vec<char>)
    ensures
        r@ == decimal(n as nat),
    decreases n,
{
    if n < 10 {
        vec![digit_exec(n)]
    } else {
        let mut r = decimal_exec(n / 10);
        r.push(digit_exec(n % 10));
        r
    }
}

/// `s` repeated `n` times (`str::repeat`).
pub open spec fn repeat(s: Seq<char>, n: nat) -> Seq<char>
    decreases n,
{
    if n == 0 {
        Seq::empty()
    } else {
        repeat(s, (n - 1) as nat) + s
    }
}

pub fn repeat_exec(s: &[char], n: usize) -> (r: Vec<char>)
    ensures
        r@ == repeat(s@, n as nat),
{
    let mut r: Vec<char> = Vec::new();
    let mut i: usize = 0;
    while i < n
        invariant
            i <= n,
            r@ == repeat(s@, i as nat),
        decreases n - i,
    {
        push_all(&mut r, s);
        i = i + 1;
    }
    r
}

// ---------------------------------------------------------------------------
// Literals
// ---------------------------------------------------------------------------

/// `No tasks found.`.
pub open spec fn lit_no_tasks() -> Seq<char> {
    seq!['N', 'o', ' ', 't', 'a', 's', 'k', 's', ' ', 'f', 'o', 'u', 'n', 'd', '.']
}

fn lit_no_tasks_exec() -> (r: Vec<char>)
    ensures
        r@ == lit_no_tasks(),
{
    let v = vec!['N', 'o', ' ', 't', 'a', 's', 'k', 's', ' ', 'f', 'o', 'u', 'n', 'd', '.'];
    assert(v@ =~= lit_no_tasks());
    v
}

/// `Tasks:`.
pub open spec fn lit_tasks_label() -> Seq<char> {
    seq!['T', 'a', 's', 'k', 's', ':']
}

fn lit_tasks_label_exec() -> (r: Vec<char>)
    ensures
        r@ == lit_tasks_label(),
{
    let v = vec!['T', 'a', 's', 'k', 's', ':'];
    assert(v@ =~= lit_tasks_label());
    v
}

/// ` total, `.
pub open spec fn lit_total() -> Seq<char> {
    seq![' ', 't', 'o', 't', 'a', 'l', ',', ' ']
}

fn lit_total_exec() -> (r: Vec<char>)
    ensures
        r@ == lit_total(),
{
    let v = vec![' ', 't', 'o', 't', 'a', 'l', ',', ' '];
    assert(v@ =~= lit_total());
    v
}

/// ` pending, `.
pub open spec fn lit_pending() -> Seq<char> {
    seq![' ', 'p', 'e', 'n', 'd', 'i', 'n', 'g', ',', ' ']
}

fn lit_pending_exec() -> (r: Vec<char>)
    ensures
        r@ == lit_pending(),
{
    let v = vec![' ', 'p', 'e', 'n', 'd', 'i', 'n', 'g', ',', ' '];
    assert(v@ =~= lit_pending());
    v
}

/// ` done\n\n`.
pub open spec fn lit_done() -> Seq<char> {
    seq![' ', 'd', 'o', 'n', 'e', '\n', '\n']
}

fn lit_done_exec() -> (r: Vec<char>)
    ensures
        r@ == lit_done(),
{
    let v = vec![' ', 'd', 'o', 'n', 'e', '\n', '\n'];
    assert(v@ =~= lit_done());
    v
}

/// `[x]`.
pub open spec fn lit_x_box() -> Seq<char> {
    seq!['[', 'x', ']']
}

fn lit_x_box_exec() -> (r: Vec<char>)
    ensures
        r@ == lit_x_box(),
{
    let v = vec!['[', 'x', ']'];
    assert(v@ =~= lit_x_box());
    v
}

/// `[ ]`.
pub open spec fn lit_empty_box() -> Seq<char> {
    seq!['[', ' ', ']']
}

fn lit_empty_box_exec() -> (r: Vec<char>)
    ensures
        r@ == lit_empty_box(),
{
    let v = vec!['[', ' ', ']'];
    assert(v@ =~= lit_empty_box());
    v
}

/// `No headings found.`.
pub open spec fn lit_no_headings() -> Seq<char> {
    seq!['N', 'o', ' ', 'h', 'e', 'a', 'd', 'i', 'n', 'g', 's', ' ', 'f', 'o', 'u', 'n', 'd', '.']
}

fn lit_no_headings_exec() -> (r: Vec<char>)
    ensures
        r@ == lit_no_headings(),
{
    let v = vec!['N', 'o', ' ', 'h', 'e', 'a', 'd', 'i', 'n', 'g', 's', ' ', 'f', 'o', 'u', 'n', 'd', '.'];
    assert(v@ =~= lit_no_headings());
    v
}

/// `No links found.`.
pub open spec fn lit_no_links() -> Seq<char> {
    seq!['N', 'o', ' ', 'l', 'i', 'n', 'k', 's', ' ', 'f', 'o', 'u', 'n', 'd', '.']
}

fn lit_no_links_exec() -> (r: Vec<char>)
    ensures
        r@ == lit_no_links(),
{
    let v = vec!['N', 'o', ' ', 'l', 'i', 'n', 'k', 's', ' ', 'f', 'o', 'u', 'n', 'd', '.'];
    assert(v@ =~= lit_no_links());
    v
}

/// `→`.
pub open spec fn lit_arrow() -> Seq<char> {
    seq!['\u{2192}']
}

fn lit_arrow_exec() -> (r: Vec<char>)
    ensures
        r@ == lit_arrow(),
{
    let v = vec!['\u{2192}'];
    assert(v@ =~= lit_arrow());
    v
}

/// `Word Count:`.
pub open spec fn lit_word_count() -> Seq<char> {
    seq!['W', 'o', 'r', 'd', ' ', 'C', 'o', 'u', 'n', 't', ':']
}

fn lit_word_count_exec() -> (r: Vec<char>)
    ensures
        r@ == lit_word_count(),
{
    let v = vec!['W', 'o', 'r', 'd', ' ', 'C', 'o', 'u', 'n', 't', ':'];
    assert(v@ =~= lit_word_count());
    v
}

/// `Words:`.
pub open spec fn lit_words() -> Seq<char> {
    seq!['W', 'o', 'r', 'd', 's', ':']
}

fn lit_words_exec() -> (r: Vec<char>)
    ensures
        r@ == lit_words(),
{
    let v = vec!['W', 'o', 'r', 'd', 's', ':'];
    assert(v@ =~= lit_words());
    v
}

/// `Characters:`.
pub open spec fn lit_characters() -> Seq<char> {
    seq!['C', 'h', 'a', 'r', 'a', 'c', 't', 'e', 'r', 's', ':']
}

fn lit_characters_exec() -> (r: Vec<char>)
    ensures
        r@ == lit_characters(),
{
    let v = vec!['C', 'h', 'a', 'r', 'a', 'c', 't', 'e', 'r', 's', ':'];
    assert(v@ =~= lit_characters());
    v
}

/// `Lines:`.
pub open spec fn lit_lines() -> Seq<char> {
    seq!['L', 'i', 'n', 'e', 's', ':']
}

fn lit_lines_exec() -> (r: Vec<char>)
    ensures
        r@ == lit_lines(),
{
    let v = vec!['L', 'i', 'n', 'e', 's', ':'];
    assert(v@ =~= lit_lines());
    v
}

/// `Tasks:`.
pub open spec fn lit_tasks_colon() -> Seq<char> {
    seq!['T', 'a', 's', 'k', 's', ':']
}

fn lit_tasks_colon_exec() -> (r: Vec<char>)
    ensures
        r@ == lit_tasks_colon(),
{
    let v = vec!['T', 'a', 's', 'k', 's', ':'];
    assert(v@ =~= lit_tasks_colon());
    v
}

/// `\n  `.
pub open spec fn lit_nl_indent() -> Seq<char> {
    seq!['\n', ' ', ' ']
}

fn lit_nl_indent_exec() -> (r: Vec<char>)
    ensures
        r@ == lit_nl_indent(),
{
    let v = vec!['\n', ' ', ' '];
    assert(v@ =~= lit_nl_indent());
    v
}


// ---------------------------------------------------------------------------
// Tasks
// ---------------------------------------------------------------------------

/// Number of tasks that are done.
pub open spec fn done_count(ts: Seq<TaskSpec>) -> nat
    decreases ts.len(),
{
    if ts.len() == 0 {
        0
    } else {
        done_count(ts.drop_last()) + if ts.last().done {
            1nat
        } else {
            0nat
        }
    }
}

/// One task line: indentation (two spaces per two bytes of indent), a
/// green `[x]` or yellow `[ ]`, and the text.
pub open spec fn task_pieces(t: TaskSpec) -> Seq<Piece> {
    seq![
        plain(repeat(seq![' ', ' '], t.indent / 2)),
        if t.done {
            painted(lit_x_box(), Style::Green)
        } else {
            painted(lit_empty_box(), Style::Yellow)
        },
        plain(seq![' '] + t.text + seq!['\n']),
    ]
}

/// The task lines.
pub open spec fn task_lines(ts: Seq<TaskSpec>) -> Seq<Piece>
    decreases ts.len(),
{
    if ts.len() == 0 {
        Seq::empty()
    } else {
        task_lines(ts.drop_last()) + task_pieces(ts.last())
    }
}

/// A task list: a header with the total, pending and done counts, then one
/// line per task; or a note that there are none.
pub open spec fn tasks_pieces(ts: Seq<TaskSpec>) -> Seq<Piece> {
    if ts.len() == 0 {
        seq![painted(lit_no_tasks(), Style::Dimmed)]
    } else {
        let done = done_count(ts);
        seq![
            painted(lit_tasks_label(), Style::Bold),
            plain(seq![' '] + decimal(ts.len()) + lit_total()),
            painted(decimal((ts.len() - done) as nat), Style::Yellow),
            plain(lit_pending()),
            painted(decimal(done), Style::Green),
            plain(lit_done()),
        ] + task_lines(ts)
    }
}

/// The views of a list of task references.
pub open spec fn task_ref_views(v: Seq<&Task>) -> Seq<TaskSpec> {
    v.map_values(|t: &Task| t@)
}

pub proof fn lemma_done_count_le(ts: Seq<TaskSpec>)
    ensures
        done_count(ts) <= ts.len(),
    decreases ts.len(),
{
    if ts.len() > 0 {
        lemma_done_count_le(ts.drop_last());
    }
}

/// Formats a task list.
pub fn format_tasks(tasks: &[&Task]) -> (r: String)
    ensures
        renders(r@, tasks_pieces(task_ref_views(tasks@))),
{
    let ghost tv = task_ref_views(tasks@);
    let mut w = Writer::new();
    if tasks.len() == 0 {
        w.styled(&lit_no_tasks_exec(), Style::Dimmed);
        assert(w.pieces@ =~= tasks_pieces(tv));
        return w.finish();
    }
    let mut done: usize = 0;
    let mut i: usize = 0;
    while i < tasks.len()
        invariant
            i <= tasks.len(),
            tv == task_ref_views(tasks@),
            done == done_count(tv.subrange(0, i as int)),
            done <= i,
        decreases tasks.len() - i,
    {
        assert(tv.subrange(0, i + 1).drop_last() =~= tv.subrange(0, i as int));
        if tasks[i].done {
            done = done + 1;
        }
        i = i + 1;
    }
    assert(tv.subrange(0, tasks.len() as int) =~= tv);
    let pending = tasks.len() - done;
    w.styled(&lit_tasks_label_exec(), Style::Bold);
    let mut h = vec![' '];
    push_all(&mut h, &decimal_exec(tasks.len()));
    push_all(&mut h, &lit_total_exec());
    assert(h@ =~= seq![' '] + decimal(tasks.len() as nat) + lit_total());
    assert(tv.len() == tasks.len());
    assert(pending as nat == (tv.len() - done_count(tv)) as nat);
    w.text(&h);
    w.styled(&decimal_exec(pending), Style::Yellow);
    w.text(&lit_pending_exec());
    w.styled(&decimal_exec(done), Style::Green);
    w.text(&lit_done_exec());
    let ghost head = w.pieces@;
    assert(head + task_lines(tv.subrange(0, 0)) =~= head);
    let mut j: usize = 0;
    while j < tasks.len()
        invariant
            j <= tasks.len(),
            tv == task_ref_views(tasks@),
            w.ok(),
            w.pieces@ == head + task_lines(tv.subrange(0, j as int)),
        decreases tasks.len() - j,
    {
        let t = tasks[j];
        assert(tv[j as int] == t@);
        let sp = vec![' ', ' '];
        w.text(&repeat_exec(&sp, t.indent / 2));
        if t.done {
            w.styled(&lit_x_box_exec(), Style::Green);
        } else {
            w.styled(&lit_empty_box_exec(), Style::Yellow);
        }
        let mut line = vec![' '];
        push_all(&mut line, &chars_of(t.text.as_str()));
        line.push('\n');
        w.text(&line);
        proof {
            assert(tv.subrange(0, j + 1).drop_last() =~= tv.subrange(0, j as int));
            assert(sp@ =~= seq![' ', ' ']);
            assert(line@ =~= seq![' '] + t@.text + seq!['\n']);
            assert(w.pieces@ =~= head + task_lines(tv.subrange(0, j + 1)));
        }
        j = j + 1;
    }
    assert(tv.subrange(0, tasks.len() as int) =~= tv);
    assert(w.pieces@ =~= tasks_pieces(tv));
    w.finish()
}

// ---------------------------------------------------------------------------
// Outline
// ---------------------------------------------------------------------------

/// One outline line: two spaces per level below the first, the level's
/// `#`s dimmed, the text, and the line number dimmed.
pub open spec fn heading_pieces(h: HeadingSpec) -> Seq<Piece> {
    seq![
        plain(repeat(seq![' ', ' '], (h.level - 1) as nat)),
        painted(repeat(seq!['#'], h.level), Style::Dimmed),
        plain(seq![' '] + h.text + seq![' ']),
        painted(seq!['(', 'L'] + decimal(h.line) + seq![')'], Style::Dimmed),
        plain(seq!['\n']),
    ]
}

/// The outline lines.
pub open spec fn heading_lines(hs: Seq<HeadingSpec>) -> Seq<Piece>
    decreases hs.len(),
{
    if hs.len() == 0 {
        Seq::empty()
    } else {
        heading_lines(hs.drop_last()) + heading_pieces(hs.last())
    }
}

/// An outline: one line per heading, or a note that there are none.
pub open spec fn outline_pieces(hs: Seq<HeadingSpec>) -> Seq<Piece> {
    if hs.len() == 0 {
        seq![painted(lit_no_headings(), Style::Dimmed)]
    } else {
        heading_lines(hs)
    }
}

/// The text of the pieces, styles left out.
pub open spec fn pieces_text(ps: Seq<Piece>) -> Seq<char>
    decreases ps.len(),
{
    if ps.len() == 0 {
        Seq::empty()
    } else {
        pieces_text(ps.drop_last()) + ps.last().text
    }
}

/// One outline line without colours: indentation, the `#` marks, the text
/// and the line number.
pub open spec fn heading_line_text(h: HeadingSpec) -> Seq<char> {
    repeat(seq![' ', ' '], (h.level - 1) as nat) + repeat(seq!['#'], h.level) + seq![' '] + h.text + seq![' ']
        + seq!['(', 'L'] + decimal(h.line) + seq![')'] + seq!['\n']
}

/// The outline lines without colours, one per heading in order.
pub open spec fn outline_text(hs: Seq<HeadingSpec>) -> Seq<char>
    decreases hs.len(),
{
    if hs.len() == 0 {
        Seq::empty()
    } else {
        outline_text(hs.drop_last()) + heading_line_text(hs.last())
    }
}

proof fn lemma_pieces_text_add(a: Seq<Piece>, b: Seq<Piece>)
    ensures
        pieces_text(a + b) == pieces_text(a) + pieces_text(b),
    decreases b.len(),
{
    if b.len() == 0 {
        assert(a + b =~= a);
    } else {
        lemma_pieces_text_add(a, b.drop_last());
        assert((a + b).drop_last() =~= a + b.drop_last());
        assert((a + b).last() == b.last());
    }
}

proof fn lemma_outline_text(hs: Seq<HeadingSpec>)
    ensures
        pieces_text(heading_lines(hs)) == outline_text(hs),
    decreases hs.len(),
{
    if hs.len() > 0 {
        lemma_outline_text(hs.drop_last());
        lemma_pieces_text_add(heading_lines(hs.drop_last()), heading_pieces(hs.last()));
        let ps = heading_pieces(hs.last());
        assert(pieces_text(ps) =~= heading_line_text(hs.last())) by {
            reveal_with_fuel(pieces_text, 6);
        }
    }
}

/// Rendering every piece plain is always allowed.
proof fn lemma_renders_plain(ps: Seq<Piece>)
    ensures
        renders(pieces_text(ps), ps),
    decreases ps.len(),
{
    if ps.len() > 0 {
        lemma_renders_plain(ps.drop_last());
        let out = pieces_text(ps);
        let t = ps.last().text;
        assert(out.subrange(out.len() - t.len(), out.len() as int) =~= t);
        assert(out.subrange(0, out.len() - t.len()) =~= pieces_text(ps.drop_last()));
    }
}

/// An outline without colours is its headings' lines in order, each
/// `"  "` repeated `level - 1` times, `level` `#` marks, a space, the text,
/// and ` (L<line>)`; that uncoloured text is one of the outputs the
/// outline's contract allows.
pub proof fn law_outline_text(hs: Seq<HeadingSpec>)
    requires
        hs.len() > 0,
    ensures
        pieces_text(outline_pieces(hs)) == outline_text(hs),
        renders(outline_text(hs), outline_pieces(hs)),
{
    lemma_outline_text(hs);
    lemma_renders_plain(outline_pieces(hs));
}

/// The views of a slice of headings.
pub open spec fn heading_slice_views(v: Seq<Heading>) -> Seq<HeadingSpec> {
    v.map_values(|h: Heading| h@)
}

/// Formats headings as an outline. Levels start at 1.
pub fn format_outline(headings: &[Heading]) -> (r: String)
    requires
        forall|i: int| 0 <= i < headings@.len() ==> (#[trigger] headings@[i]).level >= 1,
    ensures
        renders(r@, outline_pieces(heading_slice_views(headings@))),
{
    let ghost hv = heading_slice_views(headings@);
    let mut w = Writer::new();
    if headings.len() == 0 {
        w.styled(&lit_no_headings_exec(), Style::Dimmed);
        assert(w.pieces@ =~= outline_pieces(hv));
        return w.finish();
    }
    let mut j: usize = 0;
    assert(heading_lines(hv.subrange(0, 0)) =~= Seq::<Piece>::empty());
    while j < headings.len()
        invariant
            j <= headings.len(),
            hv == heading_slice_views(headings@),
            forall|i: int| 0 <= i < headings@.len() ==> (#[trigger] headings@[i]).level >= 1,
            w.ok(),
            w.pieces@ == heading_lines(hv.subrange(0, j as int)),
        decreases headings.len() - j,
    {
        let h = &headings[j];
        assert(hv[j as int] == h@);
        let sp = vec![' ', ' '];
        let hash = vec!['#'];
        w.text(&repeat_exec(&sp, (h.level - 1) as usize));
        w.styled(&repeat_exec(&hash, h.level as usize), Style::Dimmed);
        let mut mid = vec![' '];
        push_all(&mut mid, &chars_of(h.text.as_str()));
        mid.push(' ');
        w.text(&mid);
        let mut ln = vec!['(', 'L'];
        push_all(&mut ln, &decimal_exec(h.line));
        ln.push(')');
        w.styled(&ln, Style::Dimmed);
        let nl = vec!['\n'];
        w.text(&nl);
        proof {
            assert(hv.subrange(0, j + 1).drop_last() =~= hv.subrange(0, j as int));
            assert(sp@ =~= seq![' ', ' ']);
            assert(hash@ =~= seq!['#']);
            assert(mid@ =~= seq![' '] + h@.text + seq![' ']);
            assert(ln@ =~= seq!['(', 'L'] + decimal(h@.line) + seq![')']);
            assert(nl@ =~= seq!['\n']);
            assert(w.pieces@ =~= heading_lines(hv.subrange(0, j + 1)));
        }
        j = j + 1;
    }
    assert(hv.subrange(0, headings.len() as int) =~= hv);
    w.finish()
}

// ---------------------------------------------------------------------------
// Links
// ---------------------------------------------------------------------------

/// How a link's target is shown: with `#heading` or `^block` when it has
/// one.
pub open spec fn shown_target(l: LinkSpec) -> Seq<char> {
    match l.heading_ref {
        Some(h) => l.target + seq!['#'] + h,
        None => match l.block_ref {
            Some(b) => l.target + seq!['^'] + b,
            None => l.target,
        },
    }
}

/// How a link is shown: `target|display` when the display text differs,
/// else the target; embeds start with `!`.
pub open spec fn shown_link(l: LinkSpec) -> Seq<char> {
    let t = shown_target(l);
    let d = match l.display {
        Some(d) => d,
        None => t,
    };
    (if l.is_embed {
        seq!['!']
    } else {
        Seq::empty()
    }) + if d != t {
        t + seq!['|'] + d
    } else {
        t
    }
}

/// One link line.
pub open spec fn link_pieces(l: LinkSpec) -> Seq<Piece> {
    seq![
        plain(seq![' ', ' ']),
        painted(lit_arrow(), Style::Cyan),
        plain(seq![' '] + shown_link(l) + seq!['\n']),
    ]
}

/// The link lines.
pub open spec fn link_lines(ls: Seq<LinkSpec>) -> Seq<Piece>
    decreases ls.len(),
{
    if ls.len() == 0 {
        Seq::empty()
    } else {
        link_lines(ls.drop_last()) + link_pieces(ls.last())
    }
}

/// A link list: one line per link, or a note that there are none.
pub open spec fn links_pieces(ls: Seq<LinkSpec>) -> Seq<Piece> {
    if ls.len() == 0 {
        seq![painted(lit_no_links(), Style::Dimmed)]
    } else {
        link_lines(ls)
    }
}

/// The views of a slice of links.
pub open spec fn link_slice_views(v: Seq<Wikilink>) -> Seq<LinkSpec> {
    v.map_values(|l: Wikilink| l@)
}

fn shown_link_exec(l: &Wikilink) -> (r: Vec<char>)
    ensures
        r@ == shown_link(l@),
{
    let target = match &l.heading_ref {
        Some(h) => {
            let mut t = chars_of(l.target.as_str());
            t.push('#');
            push_all(&mut t, &chars_of(h.as_str()));
            t
        },
        None => match &l.block_ref {
            Some(b) => {
                let mut t = chars_of(l.target.as_str());
                t.push('^');
                push_all(&mut t, &chars_of(b.as_str()));
                t
            },
            None => chars_of(l.target.as_str()),
        },
    };
    assert(target@ =~= shown_target(l@));
    let display = match &l.display {
        Some(d) => chars_of(d.as_str()),
        None => copy_chars(&target),
    };
    let mut out: Vec<char> = Vec::new();
    if l.is_embed {
        out.push('!');
    }
    let ghost pre = out@;
    if !eq_exec(&display, &target) {
        push_all(&mut out, &target);
        out.push('|');
        push_all(&mut out, &display);
    } else {
        push_all(&mut out, &target);
    }
    assert(out@ =~= shown_link(l@));
    out
}

/// Formats wikilinks.
pub fn format_links(links: &[Wikilink]) -> (r: String)
    ensures
        renders(r@, links_pieces(link_slice_views(links@))),
{
    let ghost lv = link_slice_views(links@);
    let mut w = Writer::new();
    if links.len() == 0 {
        w.styled(&lit_no_links_exec(), Style::Dimmed);
        assert(w.pieces@ =~= links_pieces(lv));
        return w.finish();
    }
    let mut j: usize = 0;
    assert(link_lines(lv.subrange(0, 0)) =~= Seq::<Piece>::empty());
    while j < links.len()
        invariant
            j <= links.len(),
            lv == link_slice_views(links@),
            w.ok(),
            w.pieces@ == link_lines(lv.subrange(0, j as int)),
        decreases links.len() - j,
    {
        let l = &links[j];
        assert(lv[j as int] == l@);
        let sp = vec![' ', ' '];
        w.text(&sp);
        w.styled(&lit_arrow_exec(), Style::Cyan);
        let mut line = vec![' '];
        push_all(&mut line, &shown_link_exec(l));
        line.push('\n');
        w.text(&line);
        proof {
            assert(lv.subrange(0, j + 1).drop_last() =~= lv.subrange(0, j as int));
            assert(sp@ =~= seq![' ', ' ']);
            assert(line@ =~= seq![' '] + shown_link(l@) + seq!['\n']);
            assert(w.pieces@ =~= link_lines(lv.subrange(0, j + 1)));
        }
        j = j + 1;
    }
    assert(lv.subrange(0, links.len() as int) =~= lv);
    w.finish()
}

// ---------------------------------------------------------------------------
// Word count
// ---------------------------------------------------------------------------

/// Word count stats of a note: words, characters, lines of the raw text,
/// and tasks.
pub open spec fn wordcount_pieces(words: nat, chars: nat, raw: Seq<char>, tasks: nat) -> Seq<Piece> {
    seq![
        painted(lit_word_count(), Style::Bold),
        plain(lit_nl_indent()),
        painted(lit_words(), Style::Dimmed),
        plain(seq![' '] + decimal(words) + lit_nl_indent()),
        painted(lit_characters(), Style::Dimmed),
        plain(seq![' '] + decimal(chars) + lit_nl_indent()),
        painted(lit_lines(), Style::Dimmed),
        plain(seq![' '] + decimal(lines(raw).len()) + lit_nl_indent()),
        painted(lit_tasks_colon(), Style::Dimmed),
        plain(seq![' '] + decimal(tasks)),
    ]
}

fn number_line(n: usize, nl: bool) -> (r: Vec<char>)
    ensures
        r@ == seq![' '] + decimal(n as nat) + if nl {
            lit_nl_indent()
        } else {
            Seq::empty()
        },
{
    let mut v = vec![' '];
    push_all(&mut v, &decimal_exec(n));
    if nl {
        push_all(&mut v, &lit_nl_indent_exec());
    }
    assert(v@ =~= seq![' '] + decimal(n as nat) + if nl {
        lit_nl_indent()
    } else {
        Seq::empty()
    });
    v
}

/// Formats word count stats.
pub fn format_wordcount(note: &Note) -> (r: String)
    ensures
        renders(
            r@,
            wordcount_pieces(note.word_count as nat, note.char_count as nat, note.raw@, note.tasks.len() as nat),
        ),
{
    let mut w = Writer::new();
    w.styled(&lit_word_count_exec(), Style::Bold);
    w.text(&lit_nl_indent_exec());
    w.styled(&lit_words_exec(), Style::Dimmed);
    w.text(&number_line(note.word_count, true));
    w.styled(&lit_characters_exec(), Style::Dimmed);
    w.text(&number_line(note.char_count, true));
    w.styled(&lit_lines_exec(), Style::Dimmed);
    let ls = lines_exec(&chars_of(note.raw.as_str()));
    proof {
        assert(views(ls@).len() == ls@.len());
    }
    w.text(&number_line(ls.len(), true));
    w.styled(&lit_tasks_colon_exec(), Style::Dimmed);
    w.text(&number_line(note.tasks.len(), false));
    assert(w.pieces@ =~= wordcount_pieces(
        note.word_count as nat,
        note.char_count as nat,
        note.raw@,
        note.tasks.len() as nat,
    ));
    w.finish()
}


// ---------------------------------------------------------------------------
// Search results
// ---------------------------------------------------------------------------

/// `No results found.`.
pub open spec fn lit_no_results() -> Seq<char> {
    seq!['N', 'o', ' ', 'r', 'e', 's', 'u', 'l', 't', 's', ' ', 'f', 'o', 'u', 'n', 'd', '.']
}

fn lit_no_results_exec() -> (r: Vec<char>)
    ensures
        r@ == lit_no_results(),
{
    let v = vec!['N', 'o', ' ', 'r', 'e', 's', 'u', 'l', 't', 's', ' ', 'f', 'o', 'u', 'n', 'd', '.'];
    assert(v@ =~= lit_no_results());
    v
}

/// `Found`.
pub open spec fn lit_found() -> Seq<char> {
    seq!['F', 'o', 'u', 'n', 'd']
}

fn lit_found_exec() -> (r: Vec<char>)
    ensures
        r@ == lit_found(),
{
    let v = vec!['F', 'o', 'u', 'n', 'd'];
    assert(v@ =~= lit_found());
    v
}

/// ` result(s)\n\n`.
pub open spec fn lit_results_head() -> Seq<char> {
    seq![' ', 'r', 'e', 's', 'u', 'l', 't', '(', 's', ')', '\n', '\n']
}

fn lit_results_head_exec() -> (r: Vec<char>)
    ensures
        r@ == lit_results_head(),
{
    let v = vec![' ', 'r', 'e', 's', 'u', 'l', 't', '(', 's', ')', '\n', '\n'];
    assert(v@ =~= lit_results_head());
    v
}

/// `. `.
pub open spec fn lit_dot_sp() -> Seq<char> {
    seq!['.', ' ']
}

fn lit_dot_sp_exec() -> (r: Vec<char>)
    ensures
        r@ == lit_dot_sp(),
{
    let v = vec!['.', ' '];
    assert(v@ =~= lit_dot_sp());
    v
}

/// `▸`.
pub open spec fn lit_tri() -> Seq<char> {
    seq!['\u{25b8}']
}

fn lit_tri_exec() -> (r: Vec<char>)
    ensures
        r@ == lit_tri(),
{
    let v = vec!['\u{25b8}'];
    assert(v@ =~= lit_tri());
    v
}

/// `   `.
pub open spec fn lit_indent3() -> Seq<char> {
    seq![' ', ' ', ' ']
}

fn lit_indent3_exec() -> (r: Vec<char>)
    ensures
        r@ == lit_indent3(),
{
    let v = vec![' ', ' ', ' '];
    assert(v@ =~= lit_indent3());
    v
}

/// `Path:`.
pub open spec fn lit_path_label() -> Seq<char> {
    seq!['P', 'a', 't', 'h', ':']
}

fn lit_path_label_exec() -> (r: Vec<char>)
    ensures
        r@ == lit_path_label(),
{
    let v = vec!['P', 'a', 't', 'h', ':'];
    assert(v@ =~= lit_path_label());
    v
}

/// `Created:`.
pub open spec fn lit_created_label() -> Seq<char> {
    seq!['C', 'r', 'e', 'a', 't', 'e', 'd', ':']
}

fn lit_created_label_exec() -> (r: Vec<char>)
    ensures
        r@ == lit_created_label(),
{
    let v = vec!['C', 'r', 'e', 'a', 't', 'e', 'd', ':'];
    assert(v@ =~= lit_created_label());
    v
}

/// `Modified:`.
pub open spec fn lit_modified_label() -> Seq<char> {
    seq!['M', 'o', 'd', 'i', 'f', 'i', 'e', 'd', ':']
}

fn lit_modified_label_exec() -> (r: Vec<char>)
    ensures
        r@ == lit_modified_label(),
{
    let v = vec!['M', 'o', 'd', 'i', 'f', 'i', 'e', 'd', ':'];
    assert(v@ =~= lit_modified_label());
    v
}

/// `Stats:`.
pub open spec fn lit_stats_label() -> Seq<char> {
    seq!['S', 't', 'a', 't', 's', ':']
}

fn lit_stats_label_exec() -> (r: Vec<char>)
    ensures
        r@ == lit_stats_label(),
{
    let v = vec!['S', 't', 'a', 't', 's', ':'];
    assert(v@ =~= lit_stats_label());
    v
}

/// ` words, `.
pub open spec fn lit_words_comma() -> Seq<char> {
    seq![' ', 'w', 'o', 'r', 'd', 's', ',', ' ']
}

fn lit_words_comma_exec() -> (r: Vec<char>)
    ensures
        r@ == lit_words_comma(),
{
    let v = vec![' ', 'w', 'o', 'r', 'd', 's', ',', ' '];
    assert(v@ =~= lit_words_comma());
    v
}

/// ` chars\n`.
pub open spec fn lit_chars_nl() -> Seq<char> {
    seq![' ', 'c', 'h', 'a', 'r', 's', '\n']
}

fn lit_chars_nl_exec() -> (r: Vec<char>)
    ensures
        r@ == lit_chars_nl(),
{
    let v = vec![' ', 'c', 'h', 'a', 'r', 's', '\n'];
    assert(v@ =~= lit_chars_nl());
    v
}

/// `Tags:`.
pub open spec fn lit_tags_label() -> Seq<char> {
    seq!['T', 'a', 'g', 's', ':']
}

fn lit_tags_label_exec() -> (r: Vec<char>)
    ensures
        r@ == lit_tags_label(),
{
    let v = vec!['T', 'a', 'g', 's', ':'];
    assert(v@ =~= lit_tags_label());
    v
}

/// `Links:`.
pub open spec fn lit_links_label() -> Seq<char> {
    seq!['L', 'i', 'n', 'k', 's', ':']
}

fn lit_links_label_exec() -> (r: Vec<char>)
    ensures
        r@ == lit_links_label(),
{
    let v = vec!['L', 'i', 'n', 'k', 's', ':'];
    assert(v@ =~= lit_links_label());
    v
}

/// ` links\n`.
pub open spec fn lit_links_nl() -> Seq<char> {
    seq![' ', 'l', 'i', 'n', 'k', 's', '\n']
}

fn lit_links_nl_exec() -> (r: Vec<char>)
    ensures
        r@ == lit_links_nl(),
{
    let v = vec![' ', 'l', 'i', 'n', 'k', 's', '\n'];
    assert(v@ =~= lit_links_nl());
    v
}


/// The character index of `s` at which byte offset `b` falls, scanning
/// from character `m`: none when `b` is not on a character boundary.
pub open spec fn byte_to_char(s: Seq<char>, b: nat, m: nat) -> Option<nat>
    decreases s.len() - m,
{
    if m > s.len() {
        None
    } else if utf8_size(s.subrange(0, m as int)) == b {
        Some(m)
    } else if m == s.len() || utf8_size(s.subrange(0, m as int)) > b {
        None
    } else {
        byte_to_char(s, b, m + 1)
    }
}

/// The pieces of a highlighted line, or nothing where the byte offsets the
/// line is cut at do not fall on character boundaries of the line (a
/// string slice panics there). The first occurrence of the lowercased `query` in the
/// lowercased line gives a byte offset; the line itself is cut there and
/// `query`'s byte length further on; the cut-out part is bold red, the rest
/// dimmed. Without an occurrence the whole line is dimmed.
pub open spec fn highlight_spec(line: Seq<char>, query: Seq<char>) -> Option<Seq<Piece>> {
    match find(lower(line), lower(query)) {
        None => Some(seq![painted(line, Style::Dimmed)]),
        Some(k) => {
            let pos = utf8_size(lower(line).subrange(0, k as int));
            let end = pos + utf8_size(query);
            match (byte_to_char(line, pos, 0), byte_to_char(line, end, 0)) {
                (Some(a), Some(b)) => Some(
                    seq![
                        painted(line.subrange(0, a as int), Style::Dimmed),
                        painted(line.subrange(a as int, b as int), Style::BoldRed),
                        painted(line.subrange(b as int, line.len() as int), Style::Dimmed),
                    ],
                ),
                _ => None,
            }
        },
    }
}

/// Short enough for byte offsets to be counted in a `usize`.
pub open spec fn countable(s: Seq<char>) -> bool {
    s.len() < usize::MAX / 8
}

/// The line can be highlighted: every cut falls on a character boundary.
pub open spec fn highlightable(line: Seq<char>, query: Seq<char>) -> bool {
    countable(line) && countable(query) && highlight_spec(line, query) is Some
}

proof fn lemma_utf8_prefix_step(s: Seq<char>, m: int)
    requires
        0 <= m < s.len(),
    ensures
        utf8_size(s.subrange(0, m + 1)) == utf8_size(s.subrange(0, m)) + utf8_len(s[m]),
{
    assert(s.subrange(0, m + 1).drop_last() =~= s.subrange(0, m));
}

proof fn lemma_utf8_prefix_le(s: Seq<char>, m: int)
    requires
        0 <= m <= s.len(),
    ensures
        utf8_size(s.subrange(0, m)) <= utf8_size(s),
        utf8_size(s) <= 4 * s.len(),
    decreases s.len() - m,
{
    if m < s.len() {
        lemma_utf8_prefix_step(s, m);
        lemma_utf8_prefix_le(s, m + 1);
    } else {
        assert(s.subrange(0, m) =~= s);
        lemma_utf8_le(s);
    }
}

proof fn lemma_utf8_le(s: Seq<char>)
    ensures
        utf8_size(s) <= 4 * s.len(),
    decreases s.len(),
{
    if s.len() > 0 {
        lemma_utf8_le(s.drop_last());
    }
}

pub proof fn lemma_byte_to_char_bound(s: Seq<char>, b: nat, m: nat)
    ensures
        byte_to_char(s, b, m) matches Some(a) ==> a <= s.len() && utf8_size(s.subrange(0, a as int)) == b
            && b <= utf8_size(s),
    decreases s.len() - m,
{
    if m <= s.len() {
        lemma_utf8_prefix_le(s, m as int);
        if utf8_size(s.subrange(0, m as int)) != b && m < s.len() && utf8_size(s.subrange(0, m as int)) <= b {
            lemma_byte_to_char_bound(s, b, m + 1);
        }
    }
}

pub(crate) fn byte_to_char_exec(s: &[char], b: usize) -> (r: Option<usize>)
    requires
        b <= usize::MAX - 4,
    ensures
        match r {
            Some(a) => byte_to_char(s@, b as nat, 0) == Some(a as nat),
            None => byte_to_char(s@, b as nat, 0) is None,
        },
{
    let mut m: usize = 0;
    let mut acc: usize = 0;
    proof {
        assert(s@.subrange(0, 0) =~= Seq::<char>::empty());
    }
    while m < s.len() && acc < b
        invariant
            m <= s.len(),
            b <= usize::MAX - 4,
            acc == utf8_size(s@.subrange(0, m as int)),
            acc <= b + 3,
            byte_to_char(s@, b as nat, 0) == byte_to_char(s@, b as nat, m as nat),
        decreases s.len() - m,
    {
        proof {
            lemma_utf8_prefix_step(s@, m as int);
        }
        acc = acc + crate::kernel::markdown::utf8_len_exec(s[m]);
        m = m + 1;
    }
    if acc == b {
        Some(m)
    } else {
        None
    }
}

proof fn lemma_ascii_byte_to_char(s: Seq<char>, b: nat, m: nat)
    requires
        all_ascii(s),
        m <= b <= s.len(),
    ensures
        byte_to_char(s, b, m) == Some(b),
    decreases b - m,
{
    let p = s.subrange(0, m as int);
    assert(all_ascii(p)) by {
        assert forall|i: int| 0 <= i < p.len() implies (p[i] as u32) < 0x80 by {
            assert(p[i] == s[i]);
        }
    }
    lemma_ascii_utf8(p);
    if m < b {
        lemma_ascii_byte_to_char(s, b, m + 1);
    }
}

/// An ASCII line and query can always be highlighted: the occurrence's
/// byte offsets are character offsets.
proof fn lemma_ascii_highlight(line: Seq<char>, query: Seq<char>)
    requires
        all_ascii(line),
        all_ascii(query),
        lower(line) == line.map_values(|c: char| ascii_lower(c)),
        lower(query) == query.map_values(|c: char| ascii_lower(c)),
    ensures
        highlight_spec(line, query) is Some,
{
    let ll = lower(line);
    let lq = lower(query);
    lemma_ascii_lower_ascii(line);
    lemma_ascii_lower_ascii(query);
    lemma_find_from(ll, lq, 0);
    if let Some(k) = find(ll, lq) {
        let pre = ll.subrange(0, k as int);
        assert(all_ascii(pre)) by {
            assert forall|i: int| 0 <= i < pre.len() implies (pre[i] as u32) < 0x80 by {
                assert(pre[i] == ll[i]);
            }
        }
        lemma_ascii_utf8(pre);
        lemma_ascii_utf8(query);
        lemma_ascii_byte_to_char(line, k, 0);
        lemma_ascii_byte_to_char(line, k + query.len(), 0);
    }
}

/// Where the highlight cuts `line` (character indices), `Some(None)` when
/// the query does not occur, nothing where a cut misses a character
/// boundary.
fn highlight_bounds(line: &str, query: &str) -> (r: Option<Option<(usize, usize)>>)
    requires
        countable(line@),
        countable(query@),
    ensures
        match find(lower(line@), lower(query@)) {
            None => r == Some(None::<(usize, usize)>),
            Some(k) => {
                let pos = utf8_size(lower(line@).subrange(0, k as int));
                let end = pos + utf8_size(query@);
                match (byte_to_char(line@, pos, 0), byte_to_char(line@, end, 0)) {
                    (Some(a), Some(b)) => r == Some(Some((a as usize, b as usize))),
                    _ => r is None,
                }
            },
        },
        all_ascii(line@) && all_ascii(query@) ==> r is Some,
{
    let lc = chars_of(line);
    let qc = chars_of(query);
    let ll = chars_of(to_lower(line).as_str());
    let lq = chars_of(to_lower(query).as_str());
    proof {
        if all_ascii(line@) && all_ascii(query@) {
            lemma_ascii_highlight(line@, query@);
        }
    }
    let k = match find_from_exec(&ll, &lq, 0) {
        None => return Some(None),
        Some(k) => k,
    };
    let total = crate::kernel::markdown::utf8_size_exec(&lc);
    proof {
        lemma_utf8_le(lc@);
        lemma_find_from(ll@, lq@, 0);
    }
    // The byte offset of the occurrence, given up once it passes the
    // line's own length (no boundary of the line lies there).
    let mut pos: usize = 0;
    let mut i: usize = 0;
    proof {
        assert(ll@.subrange(0, 0) =~= Seq::<char>::empty());
    }
    while i < k
        invariant
            i <= k <= ll.len(),
            total == utf8_size(lc@),
            total <= 4 * lc.len(),
            lc@ == line@,
            qc@ == query@,
            ll@ == lower(line@),
            lq@ == lower(query@),
            find(ll@, lq@) == Some(k as nat),
            countable(lc@),
            pos == utf8_size(ll@.subrange(0, i as int)),
            pos <= total,
            all_ascii(line@) && all_ascii(query@) ==> highlight_spec(line@, query@) is Some,
        decreases k - i,
    {
        proof {
            lemma_utf8_prefix_step(ll@, i as int);
        }
        let c = crate::kernel::markdown::utf8_len_exec(ll[i]);
        if c > total - pos {
            proof {
                lemma_utf8_prefix_mono(ll@, (i + 1) as int, k as int);
                lemma_byte_to_char_bound(lc@, utf8_size(ll@.subrange(0, k as int)), 0);
            }
            return None;
        }
        pos = pos + c;
        i = i + 1;
    }
    let qb = crate::kernel::markdown::utf8_size_exec(&qc);
    proof {
        lemma_utf8_le(qc@);
    }
    let a = match byte_to_char_exec(&lc, pos) {
        None => return None,
        Some(a) => a,
    };
    let b = match byte_to_char_exec(&lc, pos + qb) {
        None => return None,
        Some(b) => b,
    };
    Some(Some((a, b)))
}

/// Prefix byte counts grow with the prefix.
pub proof fn lemma_utf8_prefix_mono_pub(s: Seq<char>, m: int, n: int)
    requires
        0 <= m <= n <= s.len(),
    ensures
        utf8_size(s.subrange(0, m)) <= utf8_size(s.subrange(0, n)),
{
    lemma_utf8_prefix_mono(s, m, n);
}

proof fn lemma_utf8_prefix_mono(s: Seq<char>, m: int, n: int)
    requires
        0 <= m <= n <= s.len(),
    ensures
        utf8_size(s.subrange(0, m)) <= utf8_size(s.subrange(0, n)),
    decreases n - m,
{
    if m < n {
        lemma_utf8_prefix_step(s, m);
        lemma_utf8_prefix_mono(s, m + 1, n);
    }
}

fn write_highlight(w: &mut Writer, line: &str, query: &str)
    requires
        old(w).ok(),
        highlightable(line@, query@),
    ensures
        final(w).ok(),
        final(w).pieces@ == old(w).pieces@ + highlight_spec(line@, query@)->0,
{
    let lc = chars_of(line);
    match highlight_bounds(line, query) {
        Some(Some((a, b))) => {
            proof {
                let k = find(lower(line@), lower(query@))->0;
                let pos = utf8_size(lower(line@).subrange(0, k as int));
                lemma_byte_to_char_bound(line@, pos, 0);
                lemma_byte_to_char_bound(line@, pos + utf8_size(query@), 0);
                if b < a {
                    lemma_utf8_prefix_mono(line@, b as int, a as int);
                }
            }
            w.styled(&slice(&lc, 0, a), Style::Dimmed);
            w.styled(&slice(&lc, a, b), Style::BoldRed);
            w.styled(&slice(&lc, b, lc.len()), Style::Dimmed);
        },
        _ => {
            w.styled(&lc, Style::Dimmed);
        },
    }
    assert(final(w).pieces@ =~= old(w).pieces@ + highlight_spec(line@, query@)->0);
}

/// A highlighted line, colours left out, is the line itself.
pub proof fn law_highlight_text(line: Seq<char>, query: Seq<char>)
    requires
        highlight_spec(line, query) is Some,
    ensures
        pieces_text(highlight_spec(line, query)->0) == line,
        renders(line, highlight_spec(line, query)->0),
{
    let ps = highlight_spec(line, query)->0;
    if let Some(k) = find(lower(line), lower(query)) {
        let pos = utf8_size(lower(line).subrange(0, k as int));
        let end = pos + utf8_size(query);
        lemma_byte_to_char_bound(line, pos, 0);
        lemma_byte_to_char_bound(line, end, 0);
        let a = byte_to_char(line, pos, 0)->0;
        let b = byte_to_char(line, end, 0)->0;
        if b < a {
            lemma_utf8_prefix_mono(line, b as int, a as int);
        }
        assert(pieces_text(ps) =~= line.subrange(0, a as int) + line.subrange(a as int, b as int) + line.subrange(
            b as int,
            line.len() as int,
        )) by {
            reveal_with_fuel(pieces_text, 4);
        }
    } else {
        assert(pieces_text(ps) =~= line) by {
            reveal_with_fuel(pieces_text, 2);
        }
    }
    lemma_renders_plain(ps);
}

/// Highlights the first case-insensitive occurrence of `query` in `line`.
pub fn highlight_match(line: &str, query: &str) -> (r: String)
    requires
        highlightable(line@, query@),
    ensures
        renders(r@, highlight_spec(line@, query@)->0),
{
    let mut w = Writer::new();
    write_highlight(&mut w, line, query);
    assert(w.pieces@ =~= highlight_spec(line@, query@)->0);
    w.finish()
}

/// [`highlight_match`] where it can run: nothing when the line or query is
/// too long to count its bytes, or where a cut misses a character boundary.
pub fn try_highlight_match(line: &str, query: &str) -> (r: Option<String>)
    ensures
        match r {
            Some(s) => highlightable(line@, query@) && renders(s@, highlight_spec(line@, query@)->0),
            None => !highlightable(line@, query@),
        },
        all_ascii(line@) && all_ascii(query@) && countable(line@) && countable(query@) ==> r is Some,
{
    if !highlightable_exec(line, query) {
        return None;
    }
    Some(highlight_match(line, query))
}

fn highlightable_exec(line: &str, query: &str) -> (r: bool)
    ensures
        r == highlightable(line@, query@),
        all_ascii(line@) && all_ascii(query@) && countable(line@) && countable(query@) ==> r,
{
    let lc = chars_of(line);
    let qc = chars_of(query);
    if lc.len() >= usize::MAX / 8 || qc.len() >= usize::MAX / 8 {
        return false;
    }
    highlight_bounds(line, query).is_some()
}

/// The lines of one result's matches (those with a line number).
pub open spec fn match_lines(ms: Seq<MatchSpec>, name: Seq<char>) -> Seq<Piece>
    decreases ms.len(),
{
    if ms.len() == 0 {
        Seq::empty()
    } else {
        let m = ms.last();
        match_lines(ms.drop_last(), name) + (if m.line_num > 0 {
            seq![plain(lit_indent3()), painted(seq!['L'] + decimal(m.line_num), Style::Dimmed), plain(seq![' '])]
                + highlight_spec(m.line, name)->0 + seq![plain(seq!['\n'])]
        } else {
            Seq::empty()
        })
    }
}

/// One result, numbered `num`: its name, then its matching lines.
pub open spec fn result_block(h: HitSpec, num: nat) -> Seq<Piece> {
    seq![
        painted(decimal(num), Style::Cyan),
        plain(lit_dot_sp()),
        painted(lit_tri(), Style::Dimmed),
        plain(seq![' ']),
        painted(h.note.name@, Style::Bold),
        plain(seq!['\n']),
    ] + match_lines(h.matches, h.note.name@) + seq![plain(seq!['\n'])]
}

/// The blocks of the results, numbered from 1.
pub open spec fn result_blocks(hs: Seq<HitSpec>) -> Seq<Piece>
    decreases hs.len(),
{
    if hs.len() == 0 {
        Seq::empty()
    } else {
        result_blocks(hs.drop_last()) + result_block(hs.last(), hs.len())
    }
}

/// The number of results shown.
pub open spec fn shown_count(n: nat, max: nat) -> nat {
    if n < max {
        n
    } else {
        max
    }
}

/// The results listing: a header with the number found, then the first
/// `max` results; or a dimmed notice when there are none.
pub open spec fn results_pieces(hs: Seq<HitSpec>, max: nat) -> Seq<Piece> {
    if hs.len() == 0 {
        seq![painted(lit_no_results(), Style::Dimmed)]
    } else {
        seq![painted(lit_found(), Style::BoldGreen), plain(seq![' '] + decimal(hs.len()) + lit_results_head())]
            + result_blocks(hs.subrange(0, shown_count(hs.len(), max) as int))
    }
}

/// Every shown match line can be highlighted.
pub open spec fn results_highlightable(hs: Seq<HitSpec>, max: nat) -> bool {
    forall|i: int, j: int|
        0 <= i < shown_count(hs.len(), max) && 0 <= j < hs[i].matches.len() && hs[i].matches[j].line_num > 0
            ==> highlightable(#[trigger] hs[i].matches[j].line, hs[i].note.name@)
}

fn write_match_lines(w: &mut Writer, ms: &Vec<SearchMatch>, name: &str)
    requires
        old(w).ok(),
        forall|j: int| 0 <= j < ms@.len() && ms@[j].line_num > 0 ==> highlightable(#[trigger] ms@[j].line@, name@),
    ensures
        final(w).ok(),
        final(w).pieces@ == old(w).pieces@ + match_lines(match_views(ms@), name@),
{
    let ghost start = w.pieces@;
    let ghost mv = match_views(ms@);
    let mut j: usize = 0;
    assert(start + match_lines(mv.subrange(0, 0), name@) =~= start);
    while j < ms.len()
        invariant
            j <= ms.len(),
            mv == match_views(ms@),
            w.ok(),
            forall|k: int| 0 <= k < ms@.len() && ms@[k].line_num > 0 ==> highlightable(#[trigger] ms@[k].line@, name@),
            w.pieces@ == start + match_lines(mv.subrange(0, j as int), name@),
        decreases ms.len() - j,
    {
        proof {
            assert(mv.subrange(0, j + 1).drop_last() =~= mv.subrange(0, j as int));
        }
        let m = &ms[j];
        assert(mv[j as int] == match_view(*m));
        if m.line_num > 0 {
            w.text(&lit_indent3_exec());
            let mut l = vec!['L'];
            assert(l@ =~= seq!['L']);
            push_all(&mut l, &decimal_exec(m.line_num));
            w.styled(&l, Style::Dimmed);
            let sp = vec![' '];
            assert(sp@ =~= seq![' ']);
            w.text(&sp);
            write_highlight(w, m.line.as_str(), name);
            let nl = vec!['\n'];
            assert(nl@ =~= seq!['\n']);
            w.text(&nl);
            assert(w.pieces@ =~= start + match_lines(mv.subrange(0, j + 1), name@));
        } else {
            assert(w.pieces@ =~= start + match_lines(mv.subrange(0, j + 1), name@));
        }
        j = j + 1;
    }
    assert(mv.subrange(0, ms.len() as int) =~= mv);
}

fn write_result_block(w: &mut Writer, res: &SearchResult, num: usize)
    requires
        old(w).ok(),
        forall|j: int| 0 <= j < res.matches@.len() && res.matches@[j].line_num > 0 ==> highlightable(
            #[trigger] res.matches@[j].line@,
            res.note.name@,
        ),
    ensures
        final(w).ok(),
        final(w).pieces@ == old(w).pieces@ + result_block(hit_view(*res), num as nat),
{
    let sp = vec![' '];
    assert(sp@ =~= seq![' ']);
    let nl = vec!['\n'];
    assert(nl@ =~= seq!['\n']);
    w.styled(&decimal_exec(num), Style::Cyan);
    w.text(&lit_dot_sp_exec());
    w.styled(&lit_tri_exec(), Style::Dimmed);
    w.text(&sp);
    w.styled(&chars_of(res.note.name.as_str()), Style::Bold);
    w.text(&nl);
    write_match_lines(w, &res.matches, res.note.name.as_str());
    w.text(&nl);
    assert(final(w).pieces@ =~= old(w).pieces@ + result_block(hit_view(*res), num as nat));
}

/// Formats search results, showing at most `max_results` of them.
pub fn format_search_results(results: &[SearchResult], max_results: usize) -> (r: String)
    requires
        results_highlightable(hit_views(results@), max_results as nat),
    ensures
        renders(r@, results_pieces(hit_views(results@), max_results as nat)),
{
    let ghost hv = hit_views(results@);
    let mut w = Writer::new();
    if results.len() == 0 {
        w.styled(&lit_no_results_exec(), Style::Dimmed);
        assert(w.pieces@ =~= results_pieces(hv, max_results as nat));
        return w.finish();
    }
    w.styled(&lit_found_exec(), Style::BoldGreen);
    let mut h = vec![' '];
    assert(h@ =~= seq![' ']);
    push_all(&mut h, &decimal_exec(results.len()));
    push_all(&mut h, &lit_results_head_exec());
    w.text(&h);
    let n = if results.len() < max_results { results.len() } else { max_results };
    let ghost head = w.pieces@;
    assert(head + result_blocks(hv.subrange(0, 0)) =~= head);
    let mut i: usize = 0;
    while i < n
        invariant
            i <= n <= results.len(),
            n == shown_count(results.len() as nat, max_results as nat),
            hv == hit_views(results@),
            results_highlightable(hv, max_results as nat),
            w.ok(),
            w.pieces@ == head + result_blocks(hv.subrange(0, i as int)),
        decreases n - i,
    {
        proof {
            assert(hv.subrange(0, i + 1).drop_last() =~= hv.subrange(0, i as int));
        }
        let res = &results[i];
        assert(hv[i as int] == hit_view(*res));
        proof {
            assert forall|j: int| 0 <= j < res.matches@.len() && res.matches@[j].line_num > 0 implies highlightable(
                #[trigger] res.matches@[j].line@,
                res.note.name@,
            ) by {
                assert(hv[i as int].matches[j] == match_view(res.matches@[j]));
                assert(highlightable(hv[i as int].matches[j].line, hv[i as int].note.name@));
            }
        }
        write_result_block(&mut w, res, i + 1);
        assert(w.pieces@ =~= head + result_blocks(hv.subrange(0, i + 1)));
        i = i + 1;
    }
    assert(w.pieces@ =~= results_pieces(hv, max_results as nat));
    w.finish()
}

/// [`format_search_results`] where every shown line can be highlighted;
/// nothing otherwise.
pub fn try_format_search_results(results: &[SearchResult], max_results: usize) -> (r: Option<String>)
    ensures
        match r {
            Some(s) => results_highlightable(hit_views(results@), max_results as nat) && renders(
                s@,
                results_pieces(hit_views(results@), max_results as nat),
            ),
            None => !results_highlightable(hit_views(results@), max_results as nat),
        },
{
    let ghost hv = hit_views(results@);
    let n = if results.len() < max_results { results.len() } else { max_results };
    let mut i: usize = 0;
    while i < n
        invariant
            i <= n <= results.len(),
            n == shown_count(results.len() as nat, max_results as nat),
            hv == hit_views(results@),
            forall|a: int, b: int|
                0 <= a < i && 0 <= b < hv[a].matches.len() && hv[a].matches[b].line_num > 0
                    ==> highlightable(#[trigger] hv[a].matches[b].line, hv[a].note.name@),
        decreases n - i,
    {
        let res = &results[i];
        assert(hv[i as int] == hit_view(*res));
        let mut j: usize = 0;
        while j < res.matches.len()
            invariant
                i < n <= results.len(),
                n == shown_count(results.len() as nat, max_results as nat),
                res == &results[i as int],
                hv == hit_views(results@),
                hv[i as int] == hit_view(*res),
                j <= res.matches.len(),
                forall|a: int, b: int|
                    0 <= a < i && 0 <= b < hv[a].matches.len() && hv[a].matches[b].line_num > 0
                        ==> highlightable(#[trigger] hv[a].matches[b].line, hv[a].note.name@),
                forall|b: int|
                    0 <= b < j && hv[i as int].matches[b].line_num > 0 ==> highlightable(
                        #[trigger] hv[i as int].matches[b].line,
                        hv[i as int].note.name@,
                    ),
            decreases res.matches.len() - j,
        {
            let m = &res.matches[j];
            assert(hv[i as int].matches[j as int] == match_view(*m));
            if m.line_num > 0 && !highlightable_exec(m.line.as_str(), res.note.name.as_str()) {
                assert(!highlightable(hv[i as int].matches[j as int].line, hv[i as int].note.name@));
                assert(hv[i as int].matches[j as int].line_num > 0);
                assert((i as int) < shown_count(hv.len(), max_results as nat));
                assert(!results_highlightable(hv, max_results as nat));
                return None;
            }
            j = j + 1;
        }
        assert(hv[i as int].matches.len() == res.matches.len());
        i = i + 1;
    }
    assert(results_highlightable(hv, max_results as nat));
    Some(format_search_results(results, max_results))
}


// ---------------------------------------------------------------------------
// A note's header
// ---------------------------------------------------------------------------

/// `chrono`: `DateTime::from_timestamp(secs, 0)` in the machine's local
/// time zone, formatted `%Y-%m-%d %H:%M`; nothing for a timestamp out of
/// chrono's range. The text depends on the time zone, so nothing is claimed
/// of it.
#[verifier::external_body]
fn local_time_text(secs: i64) -> (r: Option<String>) {
    match chrono::DateTime::from_timestamp(secs, 0) {
        Some(d) => Some(d.with_timezone(&chrono::Local).format("%Y-%m-%d %H:%M").to_string()),
        None => None,
    }
}

/// `#tag` for each tag, joined with spaces.
pub open spec fn hash_tags(ts: Seq<Seq<char>>) -> Seq<char> {
    join(ts.map_values(|t: Seq<char>| seq!['#'] + t), seq![' '])
}

/// A labelled detail line: two spaces, the dimmed label, a space, the
/// dimmed value, a newline.
pub open spec fn detail(label: Seq<char>, value: Seq<char>) -> Seq<Piece> {
    seq![
        plain(seq![' ', ' ']),
        painted(label, Style::Dimmed),
        plain(seq![' ']),
        painted(value, Style::Dimmed),
        plain(seq!['\n']),
    ]
}

/// The optional detail line for a time text.
pub open spec fn time_detail(label: Seq<char>, t: Option<Seq<char>>) -> Seq<Piece> {
    match t {
        Some(t) => detail(label, t),
        None => Seq::empty(),
    }
}

/// The statistics line.
pub open spec fn stats_line(n: Note) -> Seq<Piece> {
    seq![
        plain(seq![' ', ' ']),
        painted(lit_stats_label(), Style::Dimmed),
        plain(seq![' '] + decimal(n.word_count as nat) + lit_words_comma() + decimal(n.char_count as nat) + lit_chars_nl()),
    ]
}

/// The tags line, when the note has tags.
pub open spec fn tags_line(n: Note) -> Seq<Piece> {
    if n.tags@.len() > 0 {
        detail(lit_tags_label(), hash_tags(str_views(n.tags@)))
    } else {
        Seq::empty()
    }
}

/// The links line, when the note has links.
pub open spec fn links_line(n: Note) -> Seq<Piece> {
    if n.wikilinks@.len() > 0 {
        seq![
            plain(seq![' ', ' ']),
            painted(lit_links_label(), Style::Dimmed),
            plain(seq![' '] + decimal(n.wikilinks@.len()) + lit_links_nl()),
        ]
    } else {
        Seq::empty()
    }
}

/// The verbose part of a note's header: its path, the given creation and
/// modification times, its word and character counts, its tags and its
/// number of links.
pub open spec fn note_details(n: Note, created: Option<Seq<char>>, modified: Option<Seq<char>>) -> Seq<Piece> {
    detail(lit_path_label(), n.path@) + time_detail(lit_created_label(), created) + time_detail(
        lit_modified_label(),
        modified,
    ) + stats_line(n) + tags_line(n) + links_line(n)
}

/// A note's header: its name, and with `verbose` its details.
pub open spec fn note_pieces(n: Note, verbose: bool, created: Option<Seq<char>>, modified: Option<Seq<char>>) -> Seq<Piece> {
    seq![painted(lit_tri(), Style::BoldCyan), plain(seq![' ']), painted(n.name@, Style::BoldWhite), plain(seq!['\n'])]
        + if verbose {
        note_details(n, created, modified)
    } else {
        Seq::empty()
    }
}

fn write_detail(w: &mut Writer, label: &[char], value: &[char])
    requires
        old(w).ok(),
    ensures
        final(w).ok(),
        final(w).pieces@ == old(w).pieces@ + detail(label@, value@),
{
    let sp2 = vec![' ', ' '];
    assert(sp2@ =~= seq![' ', ' ']);
    let sp = vec![' '];
    assert(sp@ =~= seq![' ']);
    let nl = vec!['\n'];
    assert(nl@ =~= seq!['\n']);
    w.text(&sp2);
    w.styled(label, Style::Dimmed);
    w.text(&sp);
    w.styled(value, Style::Dimmed);
    w.text(&nl);
    assert(final(w).pieces@ =~= old(w).pieces@ + detail(label@, value@));
}

fn hash_tags_exec(ts: &Vec<String>) -> (r: Vec<char>)
    ensures
        r@ == hash_tags(str_views(ts@)),
{
    let mut parts: Vec<Vec<char>> = Vec::new();
    let mut i: usize = 0;
    while i < ts.len()
        invariant
            i <= ts.len(),
            views(parts@) == str_views(ts@).subrange(0, i as int).map_values(|t: Seq<char>| seq!['#'] + t),
        decreases ts.len() - i,
    {
        let mut p = vec!['#'];
        assert(p@ =~= seq!['#']);
        push_all(&mut p, &chars_of(ts[i].as_str()));
        assert(str_views(ts@)[i as int] == ts@[i as int]@);
        proof {
            crate::kernel::text::lemma_views_push(parts@, p);
        }
        parts.push(p);
        assert(views(parts@) =~= str_views(ts@).subrange(0, i + 1).map_values(|t: Seq<char>| seq!['#'] + t));
        i = i + 1;
    }
    assert(str_views(ts@).subrange(0, ts.len() as int) =~= str_views(ts@));
    let sp = vec![' '];
    assert(sp@ =~= seq![' ']);
    crate::kernel::text::join_exec(&parts, &sp)
}


fn write_time_detail(w: &mut Writer, label: &[char], t: Option<&str>)
    requires
        old(w).ok(),
    ensures
        final(w).ok(),
        final(w).pieces@ == old(w).pieces@ + time_detail(
            label@,
            match t {
                Some(t) => Some(t@),
                None => None,
            },
        ),
{
    match t {
        Some(t) => write_detail(w, label, &chars_of(t)),
        None => {
            assert(w.pieces@ =~= w.pieces@ + Seq::<Piece>::empty());
        },
    }
}

fn write_stats_line(w: &mut Writer, note: &Note)
    requires
        old(w).ok(),
    ensures
        final(w).ok(),
        final(w).pieces@ == old(w).pieces@ + stats_line(*note),
{
    let sp2 = vec![' ', ' '];
    assert(sp2@ =~= seq![' ', ' ']);
    w.text(&sp2);
    w.styled(&lit_stats_label_exec(), Style::Dimmed);
    let mut st = vec![' '];
    assert(st@ =~= seq![' ']);
    push_all(&mut st, &decimal_exec(note.word_count));
    push_all(&mut st, &lit_words_comma_exec());
    push_all(&mut st, &decimal_exec(note.char_count));
    push_all(&mut st, &lit_chars_nl_exec());
    w.text(&st);
    assert(final(w).pieces@ =~= old(w).pieces@ + stats_line(*note));
}

fn write_tags_line(w: &mut Writer, note: &Note)
    requires
        old(w).ok(),
    ensures
        final(w).ok(),
        final(w).pieces@ == old(w).pieces@ + tags_line(*note),
{
    if note.tags.len() > 0 {
        write_detail(w, &lit_tags_label_exec(), &hash_tags_exec(&note.tags));
    } else {
        assert(w.pieces@ =~= w.pieces@ + Seq::<Piece>::empty());
    }
}

fn write_links_line(w: &mut Writer, note: &Note)
    requires
        old(w).ok(),
    ensures
        final(w).ok(),
        final(w).pieces@ == old(w).pieces@ + links_line(*note),
{
    if note.wikilinks.len() > 0 {
        let sp2 = vec![' ', ' '];
        assert(sp2@ =~= seq![' ', ' ']);
        w.text(&sp2);
        w.styled(&lit_links_label_exec(), Style::Dimmed);
        let mut lk = vec![' '];
        assert(lk@ =~= seq![' ']);
        push_all(&mut lk, &decimal_exec(note.wikilinks.len()));
        push_all(&mut lk, &lit_links_nl_exec());
        w.text(&lk);
        assert(final(w).pieces@ =~= old(w).pieces@ + links_line(*note));
    } else {
        assert(w.pieces@ =~= w.pieces@ + Seq::<Piece>::empty());
    }
}

fn write_note_details(w: &mut Writer, note: &Note, created: Option<&str>, modified: Option<&str>)
    requires
        old(w).ok(),
    ensures
        final(w).ok(),
        final(w).pieces@ == old(w).pieces@ + note_details(
            *note,
            match created {
                Some(t) => Some(t@),
                None => None,
            },
            match modified {
                Some(t) => Some(t@),
                None => None,
            },
        ),
{
    write_detail(w, &lit_path_label_exec(), &chars_of(note.path.as_str()));
    write_time_detail(w, &lit_created_label_exec(), created);
    write_time_detail(w, &lit_modified_label_exec(), modified);
    write_stats_line(w, note);
    write_tags_line(w, note);
    write_links_line(w, note);
    let ghost ct: Option<Seq<char>> = match created {
        Some(t) => Some(t@),
        None => None,
    };
    let ghost mt: Option<Seq<char>> = match modified {
        Some(t) => Some(t@),
        None => None,
    };
    assert(final(w).pieces@ =~= old(w).pieces@ + note_details(*note, ct, mt));
}

/// A note's header with the given time texts.
pub fn format_note_with_times(note: &Note, verbose: bool, created: Option<&str>, modified: Option<&str>) -> (r: String)
    ensures
        renders(
            r@,
            note_pieces(
                *note,
                verbose,
                match created {
                    Some(t) => Some(t@),
                    None => None,
                },
                match modified {
                    Some(t) => Some(t@),
                    None => None,
                },
            ),
        ),
{
    let ghost ct: Option<Seq<char>> = match created {
        Some(t) => Some(t@),
        None => None,
    };
    let ghost mt: Option<Seq<char>> = match modified {
        Some(t) => Some(t@),
        None => None,
    };
    let mut w = Writer::new();
    let sp = vec![' '];
    assert(sp@ =~= seq![' ']);
    let nl = vec!['\n'];
    assert(nl@ =~= seq!['\n']);
    w.styled(&lit_tri_exec(), Style::BoldCyan);
    w.text(&sp);
    w.styled(&chars_of(note.name.as_str()), Style::BoldWhite);
    w.text(&nl);
    if verbose {
        write_note_details(&mut w, note, created, modified);
    }
    assert(w.pieces@ =~= note_pieces(*note, verbose, ct, mt));
    w.finish()
}

/// The header renders with time texts that exist exactly when the note's
/// times do (their wording depends on the machine's time zone).
pub open spec fn note_rendered(out: Seq<char>, n: Note, verbose: bool) -> bool {
    exists|ct: Option<Seq<char>>, mt: Option<Seq<char>>|
        (n.created is None ==> ct is None) && (n.modified is None ==> mt is None) && renders(
            out,
            #[trigger] note_pieces(n, verbose, ct, mt),
        )
}

/// Formats a note's header; times are shown in local time.
pub fn format_note(note: &Note, verbose: bool) -> (r: String)
    ensures
        note_rendered(r@, *note, verbose),
{
    let c = match note.created {
        Some(s) => local_time_text(s),
        None => None,
    };
    let m = match note.modified {
        Some(s) => local_time_text(s),
        None => None,
    };
    let ct = match &c {
        Some(t) => Some(t.as_str()),
        None => None,
    };
    let mt = match &m {
        Some(t) => Some(t.as_str()),
        None => None,
    };
    let r = format_note_with_times(note, verbose, ct, mt);
    let ghost gct: Option<Seq<char>> = match ct {
        Some(t) => Some(t@),
        None => None,
    };
    let ghost gmt: Option<Seq<char>> = match mt {
        Some(t) => Some(t@),
        None => None,
    };
    assert(renders(r@, note_pieces(*note, verbose, gct, gmt)));
    r
}

} // verus!
