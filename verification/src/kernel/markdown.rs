//! The Markdown syntax that notes are read with: wikilinks, tags, tasks,
//! headings and word counts.
//!
//! Each piece of syntax is a spec function over the characters of a line (or
//! of the body) and an executable scanner proved equal to it.

use vstd::prelude::*;
use crate::kernel::text::{
    is_ws, is_ws_char, leading_ws, leading_ws_exec, occurs_at, utf8_len, utf8_size, find, find_from, find_from_exec, lemma_find_char, lemma_find_from, lines, lines_exec, lines_from, slice,
    string_of, views,
};
use crate::kernel::note::{
    heading_views, link_views, opt_view, str_views, task_views, Heading, Task, Wikilink,
};

verus! {

// ---------------------------------------------------------------------------
// Wikilinks: `[[target#heading|display]]`, `![[embed]]`
// ---------------------------------------------------------------------------

/// What a wikilink says, as plain values.
pub struct LinkSpec {
    pub target: Seq<char>,
    pub display: Option<Seq<char>>,
    pub block_ref: Option<Seq<char>>,
    pub heading_ref: Option<Seq<char>>,
    pub is_embed: bool,
    pub line: nat,
}

/// Index of the `]` that closes a link whose text starts at `q`: the first
/// `]` at or after `q`, which must be followed by a second `]` and leave at
/// least one character of link text.
pub open spec fn link_close(l: Seq<char>, q: nat) -> Option<nat> {
    match find_from(l, seq![']'], q) {
        Some(c) => if q < c && c + 1 < l.len() && l[c + 1int] == ']' {
            Some(c)
        } else {
            None
        },
        None => None,
    }
}

/// A link that starts exactly at `p`: the index where its text starts and
/// the index of its closing `]]`. A `!` at `p` makes it an embed.
pub open spec fn link_at(l: Seq<char>, p: nat) -> Option<(nat, nat)> {
    if p + 3 <= l.len() && l[p as int] == '!' && l[p + 1int] == '[' && l[p + 2int] == '['
        && link_close(l, p + 3) is Some {
        Some((p + 3, link_close(l, p + 3)->0))
    } else if p + 2 <= l.len() && l[p as int] == '[' && l[p + 1int] == '[' && link_close(l, p + 2) is Some {
        Some((p + 2, link_close(l, p + 2)->0))
    } else {
        None
    }
}

/// The leftmost link starting at or after `i`: `(start, text start, close)`.
pub open spec fn next_link(l: Seq<char>, i: nat) -> Option<(nat, nat, nat)>
    decreases l.len() - i,
{
    if i >= l.len() {
        None
    } else {
        match link_at(l, i) {
            Some((q, c)) => Some((i, q, c)),
            None => next_link(l, i + 1),
        }
    }
}

/// Where the target part of the link text `t` ends: the first `|` at
/// index `k >= 1` that is followed by at least one character, or the end.
pub open spec fn display_split_from(t: Seq<char>, k: nat) -> nat
    decreases t.len() - k,
{
    if k >= t.len() {
        t.len()
    } else if t[k as int] == '|' && k + 1 < t.len() {
        k
    } else {
        display_split_from(t, k + 1)
    }
}

/// Where the target part of the link text ends.
pub open spec fn display_split(t: Seq<char>) -> nat {
    display_split_from(t, 1)
}

/// The wikilink whose text (between `[[` and `]]`) is `t`.
pub open spec fn make_link(t: Seq<char>, is_embed: bool, line: nat) -> LinkSpec {
    let k = display_split(t);
    let tp = t.subrange(0, k as int);
    let display = if k < t.len() {
        Some(t.subrange(k + 1int, t.len() as int))
    } else {
        None
    };
    match find(tp, seq!['#']) {
        Some(h) => {
            let r = tp.subrange(h + 1int, tp.len() as int);
            if r.len() > 0 && r[0] == '^' {
                LinkSpec {
                    target: tp.subrange(0, h as int),
                    display,
                    block_ref: Some(r.subrange(1, r.len() as int)),
                    heading_ref: None,
                    is_embed,
                    line,
                }
            } else {
                LinkSpec {
                    target: tp.subrange(0, h as int),
                    display,
                    block_ref: None,
                    heading_ref: Some(r),
                    is_embed,
                    line,
                }
            }
        },
        None => match find(tp, seq!['^']) {
            Some(b) => LinkSpec {
                target: tp.subrange(0, b as int),
                display,
                block_ref: Some(tp.subrange(b + 1int, tp.len() as int)),
                heading_ref: None,
                is_embed,
                line,
            },
            None => LinkSpec {
                target: tp,
                display,
                block_ref: None,
                heading_ref: None,
                is_embed,
                line,
            },
        },
    }
}

/// The links of line `l` found by scanning from index `i`, numbered `line`.
pub open spec fn links_from(l: Seq<char>, i: nat, line: nat) -> Seq<LinkSpec>
    decreases l.len() - i,
{
    match next_link(l, i) {
        None => Seq::empty(),
        Some((p, q, c)) => {
            if i < c + 2 <= l.len() && q <= c {
                seq![make_link(l.subrange(q as int, c as int), l[p as int] == '!', line)]
                    + links_from(l, c + 2, line)
            } else {
                Seq::empty()
            }
        },
    }
}

/// The links of each line, lines numbered from `first`.
pub open spec fn links_of_lines(ls: Seq<Seq<char>>, first: nat) -> Seq<LinkSpec>
    decreases ls.len(),
{
    if ls.len() == 0 {
        Seq::empty()
    } else {
        links_from(ls[0], 0, first) + links_of_lines(ls.drop_first(), first + 1)
    }
}

/// The wikilinks of a note body, each with its 1-based line number.
pub open spec fn body_links(body: Seq<char>) -> Seq<LinkSpec> {
    links_of_lines(lines(body), 1)
}

pub proof fn lemma_link_close(l: Seq<char>, q: nat)
    ensures
        link_close(l, q) matches Some(c) ==> q < c && c + 1 < l.len() && l[c as int] == ']'
            && l[c + 1int] == ']' && forall|k: int| q <= k < c ==> l[k] != ']',
{
    lemma_find_from(l, seq![']'], q);
    if let Some(c) = link_close(l, q) {
        assert(l.subrange(c as int, c + 1int)[0] == ']');
        assert forall|k: int| q <= k < c implies l[k] != ']' by {
            if l[k] == ']' {
                assert(l.subrange(k, k + 1) =~= seq![']']);
                assert(occurs_at(l, seq![']'], k));
            }
        }
    }
}

pub proof fn lemma_next_link(l: Seq<char>, i: nat)
    ensures
        next_link(l, i) matches Some((p, q, c)) ==> i <= p && p + 2 <= q && q < c && c + 2 <= l.len()
            && link_at(l, p) == Some((q, c)),
    decreases l.len() - i,
{
    if i >= l.len() {
    } else {
        match link_at(l, i) {
            Some((q, c)) => {
                lemma_link_close(l, q);
            },
            None => {
                lemma_next_link(l, i + 1);
            },
        }
    }
}

proof fn lemma_display_split_is(t: Seq<char>, k: nat, m: nat)
    requires
        k <= m <= t.len(),
        forall|i: int| k <= i < m ==> !(#[trigger] t[i] == '|' && i + 1 < t.len()),
        m == t.len() || (t[m as int] == '|' && m + 1 < t.len()),
    ensures
        display_split_from(t, k) == m,
    decreases m - k,
{
    if k < m {
        lemma_display_split_is(t, k + 1, m);
    }
}

/// The text of a wikilink: a target, then `#heading` or `#^block` when
/// given, then `|display` when given.
pub open spec fn link_text(
    target: Seq<char>,
    heading: Option<Seq<char>>,
    block: Option<Seq<char>>,
    display: Option<Seq<char>>,
) -> Seq<char> {
    target + (match heading {
        Some(h) => seq!['#'] + h,
        None => Seq::empty(),
    }) + (match block {
        Some(b) => seq!['#', '^'] + b,
        None => Seq::empty(),
    }) + (match display {
        Some(d) => seq!['|'] + d,
        None => Seq::empty(),
    })
}

/// `[[text]]`, or `![[text]]` for an embed.
pub open spec fn link_line(is_embed: bool, text: Seq<char>) -> Seq<char> {
    (if is_embed {
        seq!['!']
    } else {
        Seq::empty()
    }) + seq!['[', '['] + text + seq![']', ']']
}

proof fn lemma_link_line_scan(is_embed: bool, t: Seq<char>, n: nat)
    requires
        t.len() >= 1,
        forall|k: int| 0 <= k < t.len() ==> #[trigger] t[k] != ']',
    ensures
        links_from(link_line(is_embed, t), 0, n) == seq![make_link(t, is_embed, n)],
{
    let pre: Seq<char> = if is_embed { seq!['!'] } else { Seq::empty() };
    let l = link_line(is_embed, t);
    let q = pre.len() + 2;
    let c = q + t.len();
    assert(l =~= pre + seq!['[', '['] + t + seq![']', ']']);
    assert(l.len() == c + 2);
    assert forall|k: int| 0 <= k < t.len() implies #[trigger] l[q + k] == t[k] by {}
    lemma_find_char(l, ']', q);
    assert(l[c as int] == ']');
    assert forall|k: int| q <= k < c implies l[k] != ']' by {
        assert(l[q + (k - q)] == t[k - q]);
    }
    assert(find_from(l, seq![']'], q) == Some(c));
    assert(link_close(l, q) == Some(c));
    if is_embed {
        assert(l[0] == '!' && l[1] == '[' && l[2] == '[');
    } else {
        assert(l[0] == '[' && l[1] == '[');
    }
    assert(link_at(l, 0) == Some((q, c)));
    assert(next_link(l, 0) == Some((0nat, q, c)));
    assert(next_link(l, c + 2) is None);
    assert(links_from(l, c + 2, n) =~= Seq::<LinkSpec>::empty());
    assert(l.subrange(q as int, c as int) =~= t);
    assert((l[0] == '!') == is_embed);
}

proof fn lemma_link_text_parts(
    target: Seq<char>,
    heading: Option<Seq<char>>,
    block: Option<Seq<char>>,
    display: Option<Seq<char>>,
    is_embed: bool,
    n: nat,
)
    requires
        target.len() >= 1,
        forall|i: int|
            0 <= i < target.len() ==> {
                let c = #[trigger] target[i];
                c != ']' && c != '|' && c != '#' && c != '^'
            },
        heading is None || block is None,
        heading matches Some(h) ==> (h.len() == 0 || h[0] != '^') && forall|i: int|
            0 <= i < h.len() ==> #[trigger] h[i] != ']' && h[i] != '|',
        block matches Some(b) ==> forall|i: int| 0 <= i < b.len() ==> #[trigger] b[i] != ']' && b[i] != '|',
        display matches Some(d) ==> d.len() >= 1 && forall|i: int| 0 <= i < d.len() ==> #[trigger] d[i] != ']',
    ensures
        link_text(target, heading, block, display).len() >= 1,
        forall|k: int|
            0 <= k < link_text(target, heading, block, display).len() ==> #[trigger] link_text(
                target,
                heading,
                block,
                display,
            )[k] != ']',
        make_link(link_text(target, heading, block, display), is_embed, n) == (LinkSpec {
            target: target,
            display: display,
            block_ref: block,
            heading_ref: heading,
            is_embed: is_embed,
            line: n,
        }),
{
    let anc: Seq<char> = match heading {
        Some(h) => seq!['#'] + h,
        None => match block {
            Some(b) => seq!['#', '^'] + b,
            None => Seq::empty(),
        },
    };
    let dsp: Seq<char> = match display {
        Some(d) => seq!['|'] + d,
        None => Seq::empty(),
    };
    let tp = target + anc;
    let t = link_text(target, heading, block, display);
    assert(t =~= tp + dsp);
    assert forall|k: int| 0 <= k < tp.len() implies #[trigger] t[k] == tp[k] by {}
    assert forall|k: int| 0 <= k < anc.len() implies #[trigger] tp[target.len() + k] == anc[k] by {}
    assert forall|k: int| 0 <= k < dsp.len() implies #[trigger] t[tp.len() + k] == dsp[k] by {}
    assert forall|k: int| 0 <= k < t.len() implies (#[trigger] t[k]) != ']' by {
        if k < target.len() {
        } else if k < tp.len() {
            assert(tp[target.len() + (k - target.len())] == anc[k - target.len()]);
        } else {
            assert(t[tp.len() + (k - tp.len())] == dsp[k - tp.len()]);
        }
    }
    // The display split.
    assert forall|i: int| 1 <= i < tp.len() implies !(#[trigger] t[i] == '|' && i + 1 < t.len()) by {
        if i >= target.len() {
            assert(tp[target.len() + (i - target.len())] == anc[i - target.len()]);
        }
    }
    if display is Some {
        assert(t[tp.len() + 0int] == dsp[0]);
    }
    lemma_display_split_is(t, 1, tp.len());
    assert(t.subrange(0, tp.len() as int) =~= tp);
    if let Some(d) = display {
        assert(t.subrange(tp.len() + 1int, t.len() as int) =~= d);
    }
    // The reference part.
    lemma_find_char(tp, '#', 0);
    lemma_find_char(tp, '^', 0);
    if heading is Some || block is Some {
        assert(tp[target.len() + 0int] == anc[0]);
        assert(find(tp, seq!['#']) == Some(target.len()));
        assert(tp.subrange(0, target.len() as int) =~= target);
        let r = tp.subrange(target.len() + 1int, tp.len() as int);
        if let Some(h) = heading {
            assert(r =~= h);
        }
        if let Some(b) = block {
            assert(r =~= seq!['^'] + b);
            assert(r.subrange(1, r.len() as int) =~= b);
        }
    } else {
        assert(tp =~= target);
        assert(find(tp, seq!['#']) is None);
        assert(find(tp, seq!['^']) is None);
    }
}

/// A line holding one wikilink `[[target#heading|display]]` (the heading,
/// a `#^block` in its place, and the display each optional, `!` in front
/// for an embed) gives exactly one link: its target, heading or block
/// reference and display are the parts written, its embed flag is whether
/// the `!` is there, and its line number is the line's.
pub proof fn law_wikilink_line(
    is_embed: bool,
    target: Seq<char>,
    heading: Option<Seq<char>>,
    block: Option<Seq<char>>,
    display: Option<Seq<char>>,
    n: nat,
)
    requires
        target.len() >= 1,
        forall|i: int|
            0 <= i < target.len() ==> {
                let c = #[trigger] target[i];
                c != ']' && c != '|' && c != '#' && c != '^'
            },
        heading is None || block is None,
        heading matches Some(h) ==> (h.len() == 0 || h[0] != '^') && forall|i: int|
            0 <= i < h.len() ==> #[trigger] h[i] != ']' && h[i] != '|',
        block matches Some(b) ==> forall|i: int| 0 <= i < b.len() ==> #[trigger] b[i] != ']' && b[i] != '|',
        display matches Some(d) ==> d.len() >= 1 && forall|i: int| 0 <= i < d.len() ==> #[trigger] d[i] != ']',
    ensures
        links_from(link_line(is_embed, link_text(target, heading, block, display)), 0, n) == seq![
            LinkSpec {
                target: target,
                display: display,
                block_ref: block,
                heading_ref: heading,
                is_embed: is_embed,
                line: n,
            },
        ],
{
    lemma_link_text_parts(target, heading, block, display, is_embed, n);
    lemma_link_line_scan(is_embed, link_text(target, heading, block, display), n);
}

/// Exec form of [`link_close`].
fn link_close_exec(l: &[char], q: usize) -> (r: Option<usize>)
    ensures
        match r {
            Some(c) => link_close(l@, q as nat) == Some(c as nat),
            None => link_close(l@, q as nat) is None,
        },
{
    let close = vec![']'];
    assert(close@ =~= seq![']']);
    proof {
        lemma_find_from(l@, close@, q as nat);
    }
    match find_from_exec(l, &close, q) {
        Some(c) => {
            if q < c && c < l.len() && l.len() - c >= 2 && l[c + 1] == ']' {
                Some(c)
            } else {
                None
            }
        },
        None => None,
    }
}

/// Exec form of [`link_at`].
fn link_at_exec(l: &[char], p: usize) -> (r: Option<(usize, usize)>)
    ensures
        match r {
            Some((q, c)) => link_at(l@, p as nat) == Some((q as nat, c as nat)),
            None => link_at(l@, p as nat) is None,
        },
{
    if p < l.len() && l.len() - p >= 3 && l[p] == '!' && l[p + 1] == '[' && l[p + 2] == '[' {
        if let Some(c) = link_close_exec(l, p + 3) {
            return Some((p + 3, c));
        }
    }
    if p < l.len() && l.len() - p >= 2 && l[p] == '[' && l[p + 1] == '[' {
        if let Some(c) = link_close_exec(l, p + 2) {
            return Some((p + 2, c));
        }
    }
    None
}

/// Exec form of [`display_split`].
fn display_split_exec(t: &[char]) -> (r: usize)
    ensures
        r == display_split(t@),
        1 <= r <= t.len() || (t.len() == 0 && r == 0),
{
    if t.len() == 0 {
        return 0;
    }
    let mut k: usize = 1;
    while k < t.len()
        invariant
            1 <= k <= t.len(),
            display_split(t@) == display_split_from(t@, k as nat),
        decreases t.len() - k,
    {
        if t[k] == '|' && k + 1 < t.len() {
            return k;
        }
        k = k + 1;
    }
    k
}

/// Exec form of [`find`] for a single character.
fn find_char(s: &[char], c: char) -> (r: Option<usize>)
    ensures
        match r {
            Some(j) => find(s@, seq![c]) == Some(j as nat) && j < s.len(),
            None => find(s@, seq![c]) is None,
        },
{
    let p = vec![c];
    assert(p@ =~= seq![c]);
    proof {
        lemma_find_from(s@, p@, 0);
    }
    find_from_exec(s, &p, 0)
}

/// A link record built from the link text.
pub fn make_link_exec(t: &[char], is_embed: bool, line: usize) -> (r: Wikilink)
    ensures
        r@ == make_link(t@, is_embed, line as nat),
{
    let k = display_split_exec(t);
    let tp = slice(t, 0, k);
    let display = if k < t.len() {
        Some(string_of(&slice(t, k + 1, t.len())))
    } else {
        None
    };
    let ghost dv: Option<Seq<char>> = if k < t.len() {
        Some(t@.subrange(k + 1int, t.len() as int))
    } else {
        None
    };
    assert(opt_view(display) == dv);
    match find_char(&tp, '#') {
        Some(h) => {
            let r = slice(&tp, h + 1, tp.len());
            if r.len() > 0 && r[0] == '^' {
                Wikilink {
                    target: string_of(&slice(&tp, 0, h)),
                    display,
                    block_ref: Some(string_of(&slice(&r, 1, r.len()))),
                    heading_ref: None,
                    is_embed,
                    line,
                }
            } else {
                Wikilink {
                    target: string_of(&slice(&tp, 0, h)),
                    display,
                    block_ref: None,
                    heading_ref: Some(string_of(&r)),
                    is_embed,
                    line,
                }
            }
        },
        None => match find_char(&tp, '^') {
            Some(b) => Wikilink {
                target: string_of(&slice(&tp, 0, b)),
                display,
                block_ref: Some(string_of(&slice(&tp, b + 1, tp.len()))),
                heading_ref: None,
                is_embed,
                line,
            },
            None => Wikilink {
                target: string_of(&tp),
                display,
                block_ref: None,
                heading_ref: None,
                is_embed,
                line,
            },
        },
    }
}

/// Exec form of [`next_link`].
fn next_link_exec(l: &[char], i: usize) -> (r: Option<(usize, usize, usize)>)
    ensures
        match r {
            Some((p, q, c)) => next_link(l@, i as nat) == Some((p as nat, q as nat, c as nat)),
            None => next_link(l@, i as nat) is None,
        },
{
    let mut p = i;
    while p < l.len()
        invariant
            i <= p,
            next_link(l@, i as nat) == next_link(l@, p as nat),
        decreases l.len() - p,
    {
        match link_at_exec(l, p) {
            Some((q, c)) => {
                return Some((p, q, c));
            },
            None => {
                p = p + 1;
            },
        }
    }
    None
}

/// The links of one line, appended to `out`.
fn links_in_line(l: &[char], line: usize, out: &mut Vec<Wikilink>)
    ensures
        link_views(final(out)@) == link_views(old(out)@) + links_from(l@, 0, line as nat),
{
    let mut i: usize = 0;
    loop
        invariant
            i <= l.len(),
            link_views(out@) + links_from(l@, i as nat, line as nat) == link_views(old(out)@)
                + links_from(l@, 0, line as nat),
        decreases l.len() - i,
    {
        let ghost before = link_views(out@);
        proof {
            lemma_next_link(l@, i as nat);
        }
        let found = next_link_exec(l, i);
        match found {
            None => {
                assert(next_link(l@, i as nat) is None);
                assert(links_from(l@, i as nat, line as nat) =~= Seq::<LinkSpec>::empty());
                assert(link_views(out@) =~= link_views(old(out)@) + links_from(l@, 0, line as nat));
                return;
            },
            Some((p, q, c)) => {
                let t = slice(l, q, c);
                let link = make_link_exec(&t, l[p] == '!', line);
                out.push(link);
                assert(link_views(out@) =~= before + seq![link@]);
                assert(link_views(out@) + links_from(l@, (c + 2) as nat, line as nat) =~= before
                    + links_from(l@, i as nat, line as nat));
                i = c + 2;
            },
        }
    }
}

/// The wikilinks of a note body (each line scanned left to right), with
/// 1-based line numbers.
pub fn extract_links(body: &[char]) -> (r: Vec<Wikilink>)
    ensures
        link_views(r@) == body_links(body@),
{
    let ls = lines_exec(body);
    let mut out: Vec<Wikilink> = Vec::new();
    let mut n: usize = 0;
    proof {
        assert(views(ls@).len() == ls.len());
        lemma_lines_len(body@, 0);
    }
    assert(views(ls@).subrange(0, ls.len() as int) =~= views(ls@));
    assert(link_views(out@) =~= Seq::<LinkSpec>::empty());
    assert(link_views(out@) + body_links(body@) =~= body_links(body@));
    while n < ls.len()
        invariant
            n <= ls.len(),
            ls.len() <= body.len(),
            views(ls@) == lines(body@),
            link_views(out@) + links_of_lines(views(ls@).subrange(n as int, ls.len() as int), (n + 1) as nat)
                == body_links(body@),
        decreases ls.len() - n,
    {
        let ghost before = link_views(out@);
        let ghost rest = views(ls@).subrange(n as int, ls.len() as int);
        links_in_line(&ls[n], n + 1, &mut out);
        assert(rest[0] == ls@[n as int]@);
        assert(rest.drop_first() =~= views(ls@).subrange(n + 1, ls.len() as int));
        assert(link_views(out@) + links_of_lines(views(ls@).subrange(n + 1, ls.len() as int), (n + 2) as nat)
            =~= before + links_of_lines(rest, (n + 1) as nat));
        n = n + 1;
    }
    assert(views(ls@).subrange(n as int, ls.len() as int) =~= Seq::<Seq<char>>::empty());
    assert(link_views(out@) =~= body_links(body@));
    out
}

/// There are no more lines than characters.
pub proof fn lemma_lines_len(s: Seq<char>, i: nat)
    requires
        i <= s.len(),
    ensures
        lines_from(s, i).len() <= s.len() - i,
    decreases s.len() - i,
{
    if i >= s.len() {
    } else {
        lemma_find_from(s, seq!['\n'], i);
        match find_from(s, seq!['\n'], i) {
            None => {},
            Some(j) => {
                if i <= j < s.len() {
                    lemma_lines_len(s, j + 1);
                }
            },
        }
    }
}

// ---------------------------------------------------------------------------
// Tags: `#tag`, `#nested/tag`
// ---------------------------------------------------------------------------

/// A character that may begin a tag: an ASCII letter or a CJK ideograph
/// (U+4E00 to U+9FFF).
pub open spec fn is_tag_start(c: char) -> bool {
    let u = c as u32;
    (0x41 <= u && u <= 0x5a) || (0x61 <= u && u <= 0x7a) || (0x4e00 <= u && u <= 0x9fff)
}

/// A character that may continue a tag: a tag start, an ASCII digit, `_`,
/// `/` or `-`.
pub open spec fn is_tag_char(c: char) -> bool {
    let u = c as u32;
    is_tag_start(c) || (0x30 <= u && u <= 0x39) || c == '_' || c == '/' || c == '-'
}

/// Length of the run of tag characters starting at `j`.
pub open spec fn tag_run(s: Seq<char>, j: nat) -> nat
    decreases s.len() - j,
{
    if j < s.len() && is_tag_char(s[j as int]) {
        1 + tag_run(s, j + 1)
    } else {
        0
    }
}

/// A tag that starts with the `#` at `p` or the character before it: returns
/// where the tag name begins. Inline tags (`after_ws`) need the `#` at the
/// start of the text or a whitespace character in front of it, and the
/// match then starts at that whitespace; task tags need only the `#`.
pub open spec fn tag_at(s: Seq<char>, p: nat, after_ws: bool) -> Option<nat> {
    if after_ws {
        if p == 0 && 2 <= s.len() && s[0] == '#' && is_tag_start(s[1]) {
            Some(1)
        } else if p + 2 < s.len() && is_ws(s[p as int]) && s[p + 1int] == '#' && is_tag_start(
            s[p + 2int],
        ) {
            Some(p + 2)
        } else {
            None
        }
    } else {
        if p + 1 < s.len() && s[p as int] == '#' && is_tag_start(s[p + 1int]) {
            Some(p + 1)
        } else {
            None
        }
    }
}

/// The leftmost tag match starting at or after `i`: where its name begins.
pub open spec fn next_tag(s: Seq<char>, i: nat, after_ws: bool) -> Option<nat>
    decreases s.len() - i,
{
    if i >= s.len() {
        None
    } else {
        match tag_at(s, i, after_ws) {
            Some(t) => Some(t),
            None => next_tag(s, i + 1, after_ws),
        }
    }
}

/// The tags found scanning from `i`, each match resuming after the previous
/// tag name.
pub open spec fn tags_from(s: Seq<char>, i: nat, after_ws: bool) -> Seq<Seq<char>>
    decreases s.len() - i,
{
    match next_tag(s, i, after_ws) {
        None => Seq::empty(),
        Some(t) => {
            let e = t + tag_run(s, t);
            if i < e <= s.len() && t <= e {
                seq![s.subrange(t as int, e as int)] + tags_from(s, e, after_ws)
            } else {
                Seq::empty()
            }
        },
    }
}

/// Inline tags of a body: `#name` at the start of the body or after a
/// whitespace character.
pub open spec fn inline_tags(body: Seq<char>) -> Seq<Seq<char>> {
    tags_from(body, 0, true)
}

/// Tags of a task's text: every `#name`.
pub open spec fn task_tags(text: Seq<char>) -> Seq<Seq<char>> {
    tags_from(text, 0, false)
}

pub proof fn lemma_tag_run(s: Seq<char>, j: nat)
    ensures
        j + tag_run(s, j) <= s.len() || tag_run(s, j) == 0,
        j < s.len() && is_tag_char(s[j as int]) ==> tag_run(s, j) >= 1,
    decreases s.len() - j,
{
    if j < s.len() && is_tag_char(s[j as int]) {
        lemma_tag_run(s, j + 1);
    }
}

pub proof fn lemma_next_tag(s: Seq<char>, i: nat, after_ws: bool)
    ensures
        next_tag(s, i, after_ws) matches Some(t) ==> i < t && t < s.len() && is_tag_start(
            s[t as int],
        ) && tag_run(s, t) >= 1 && t + tag_run(s, t) <= s.len(),
    decreases s.len() - i,
{
    if i >= s.len() {
    } else {
        match tag_at(s, i, after_ws) {
            Some(t) => {
                lemma_tag_run(s, t);
            },
            None => {
                lemma_next_tag(s, i + 1, after_ws);
            },
        }
    }
}

proof fn lemma_tag_run_exact(s: Seq<char>, j: nat, m: nat)
    requires
        j + m <= s.len(),
        forall|i: int| j <= i < j + m ==> is_tag_char(#[trigger] s[i]),
        j + m == s.len() || !is_tag_char(s[(j + m) as int]),
    ensures
        tag_run(s, j) == m,
    decreases m,
{
    if m > 0 {
        lemma_tag_run_exact(s, j + 1, (m - 1) as nat);
    }
}

/// An inline tag is the whole run of name characters after its `#`: ASCII
/// letters, CJK ideographs, digits, `_`, `/` and `-`, the first a letter or
/// an ideograph. So a body that starts with `#name`, or with one whitespace
/// character and `#name`, where the name is followed by whitespace or the end
/// of the body, has `name` as its first inline tag, nested parts included.
pub proof fn law_inline_tag_whole(pre: Seq<char>, name: Seq<char>, post: Seq<char>)
    requires
        pre.len() == 0 || (pre.len() == 1 && is_ws(pre[0])),
        name.len() >= 1,
        ({
            let u = name[0] as u32;
            (0x41 <= u && u <= 0x5a) || (0x61 <= u && u <= 0x7a) || (0x4e00 <= u && u <= 0x9fff)
        }),
        forall|i: int|
            0 <= i < name.len() ==> {
                let c = #[trigger] name[i];
                let u = c as u32;
                ||| (0x41 <= u && u <= 0x5a)
                ||| (0x61 <= u && u <= 0x7a)
                ||| (0x30 <= u && u <= 0x39)
                ||| (0x4e00 <= u && u <= 0x9fff)
                ||| c == '_'
                ||| c == '/'
                ||| c == '-'
            },
        post.len() == 0 || is_ws(post[0]),
    ensures
        inline_tags(pre + seq!['#'] + name + post).len() >= 1,
        inline_tags(pre + seq!['#'] + name + post)[0] == name,
{
    let body = pre + seq!['#'] + name + post;
    let t0 = pre.len() + 1;
    assert(body[pre.len() as int] == '#');
    assert(body[t0 as int] == name[0]);
    assert(forall|i: int| 0 <= i < name.len() ==> #[trigger] body[t0 + i] == name[i]);
    if post.len() > 0 {
        assert(body[(t0 + name.len()) as int] == post[0]);
    }
    if pre.len() == 1 {
        assert(!is_ws('#'));
        assert(body[0] == pre[0]);
    }
    assert(tag_at(body, 0, true) == Some(t0));
    assert(next_tag(body, 0, true) == Some(t0));
    assert forall|i: int| t0 <= i < t0 + name.len() implies is_tag_char(#[trigger] body[i]) by {
        assert(body[t0 + (i - t0)] == name[i - t0]);
    }
    lemma_tag_run_exact(body, t0, name.len());
    assert(body.subrange(t0 as int, (t0 + name.len()) as int) =~= name);
}

/// Exec form of [`is_tag_start`].
pub fn is_tag_start_exec(c: char) -> (r: bool)
    ensures
        r == is_tag_start(c),
{
    let u = c as u32;
    (0x41 <= u && u <= 0x5a) || (0x61 <= u && u <= 0x7a) || (0x4e00 <= u && u <= 0x9fff)
}

/// Exec form of [`is_tag_char`].
pub fn is_tag_char_exec(c: char) -> (r: bool)
    ensures
        r == is_tag_char(c),
{
    let u = c as u32;
    is_tag_start_exec(c) || (0x30 <= u && u <= 0x39) || c == '_' || c == '/' || c == '-'
}

/// Exec form of [`tag_run`].
fn tag_run_exec(s: &[char], j: usize) -> (r: usize)
    ensures
        r == tag_run(s@, j as nat),
{
    let mut k = j;
    while k < s.len() && is_tag_char_exec(s[k])
        invariant
            j <= k,
            k <= s.len() || k == j,
            tag_run(s@, j as nat) == (k - j) + tag_run(s@, k as nat),
        decreases s.len() - k,
    {
        k = k + 1;
    }
    k - j
}

/// Exec form of [`tag_at`].
fn tag_at_exec(s: &[char], p: usize, after_ws: bool) -> (r: Option<usize>)
    ensures
        match r {
            Some(t) => tag_at(s@, p as nat, after_ws) == Some(t as nat),
            None => tag_at(s@, p as nat, after_ws) is None,
        },
{
    if after_ws {
        if p == 0 && 2 <= s.len() && s[0] == '#' && is_tag_start_exec(s[1]) {
            Some(1)
        } else if p < s.len() && s.len() - p > 2 && is_ws_char(s[p]) && s[p + 1] == '#'
            && is_tag_start_exec(s[p + 2]) {
            Some(p + 2)
        } else {
            None
        }
    } else {
        if p < s.len() && s.len() - p > 1 && s[p] == '#' && is_tag_start_exec(s[p + 1]) {
            Some(p + 1)
        } else {
            None
        }
    }
}

/// Exec form of [`next_tag`].
fn next_tag_exec(s: &[char], i: usize, after_ws: bool) -> (r: Option<usize>)
    ensures
        match r {
            Some(t) => next_tag(s@, i as nat, after_ws) == Some(t as nat),
            None => next_tag(s@, i as nat, after_ws) is None,
        },
{
    let mut p = i;
    while p < s.len()
        invariant
            i <= p,
            next_tag(s@, i as nat, after_ws) == next_tag(s@, p as nat, after_ws),
        decreases s.len() - p,
    {
        let r = tag_at_exec(s, p, after_ws);
        if r.is_some() {
            return r;
        }
        p = p + 1;
    }
    None
}

/// The tags of `s` (see [`tags_from`]).
pub fn extract_tags(s: &[char], after_ws: bool) -> (r: Vec<String>)
    ensures
        str_views(r@) == tags_from(s@, 0, after_ws),
{
    let mut out: Vec<String> = Vec::new();
    let mut i: usize = 0;
    loop
        invariant
            i <= s.len(),
            str_views(out@) + tags_from(s@, i as nat, after_ws) == tags_from(s@, 0, after_ws),
        decreases s.len() - i,
    {
        proof {
            lemma_next_tag(s@, i as nat, after_ws);
        }
        let ghost before = str_views(out@);
        let found = next_tag_exec(s, i, after_ws);
        match found {
            None => {
                assert(tags_from(s@, i as nat, after_ws) =~= Seq::<Seq<char>>::empty());
                assert(str_views(out@) =~= tags_from(s@, 0, after_ws));
                return out;
            },
            Some(t) => {
                let n = tag_run_exec(s, t);
                let e = t + n;
                let name = slice(s, t, e);
                out.push(string_of(&name));
                assert(str_views(out@) + tags_from(s@, e as nat, after_ws) =~= before + tags_from(
                    s@,
                    i as nat,
                    after_ws,
                ));
                i = e;
            },
        }
    }
}

// ---------------------------------------------------------------------------
// Tasks: `- [ ] text`, `- [x] text`
// ---------------------------------------------------------------------------

/// What a task line says, as plain values.
pub struct TaskSpec {
    pub text: Seq<char>,
    pub done: bool,
    pub line: nat,
    pub indent: nat,
    pub tags: Seq<Seq<char>>,
}

/// The task on line `l` (numbered `n`), if it is one: optional leading
/// whitespace, `- [`, one of ` `, `x`, `X`, `] `, then a non-empty text. The
/// indent is the UTF-8 size of the leading whitespace.
pub open spec fn task_of_line(l: Seq<char>, n: nat) -> Option<TaskSpec> {
    let w = leading_ws(l);
    let r = l.subrange(w as int, l.len() as int);
    if r.len() > 6 && r[0] == '-' && r[1] == ' ' && r[2] == '[' && (r[3] == ' ' || r[3] == 'x'
        || r[3] == 'X') && r[4] == ']' && r[5] == ' ' {
        let text = r.subrange(6, r.len() as int);
        Some(
            TaskSpec {
                text,
                done: r[3] != ' ',
                line: n,
                indent: utf8_size(l.subrange(0, w as int)),
                tags: task_tags(text),
            },
        )
    } else {
        None
    }
}

/// The tasks of each line, lines numbered from `first`.
pub open spec fn tasks_of_lines(ls: Seq<Seq<char>>, first: nat) -> Seq<TaskSpec>
    decreases ls.len(),
{
    if ls.len() == 0 {
        Seq::empty()
    } else {
        match task_of_line(ls[0], first) {
            Some(t) => seq![t] + tasks_of_lines(ls.drop_first(), first + 1),
            None => tasks_of_lines(ls.drop_first(), first + 1),
        }
    }
}

/// The tasks of a note body.
pub open spec fn body_tasks(body: Seq<char>) -> Seq<TaskSpec> {
    tasks_of_lines(lines(body), 1)
}

/// The line `ws- [m] text`.
pub open spec fn task_line(ws: Seq<char>, mark: char, text: Seq<char>) -> Seq<char> {
    ws + seq!['-', ' ', '['] + seq![mark] + seq![']', ' '] + text
}

/// A line of leading whitespace, `- [`, a mark, `] ` and a non-empty text
/// is a task exactly when the mark is a space (open) or `x`/`X` (done); its
/// text is what follows `] `, its indent the UTF-8 size of the leading
/// whitespace, its tags those of its text. With an empty text it is no task.
pub proof fn law_task_line(ws: Seq<char>, mark: char, text: Seq<char>, n: nat)
    requires
        forall|i: int| 0 <= i < ws.len() ==> is_ws(#[trigger] ws[i]),
    ensures
        text.len() >= 1 && (mark == ' ' || mark == 'x' || mark == 'X') ==> task_of_line(
            task_line(ws, mark, text),
            n,
        ) == Some(
            TaskSpec {
                text: text,
                done: mark == 'x' || mark == 'X',
                line: n,
                indent: utf8_size(ws),
                tags: task_tags(text),
            },
        ),
        !(mark == ' ' || mark == 'x' || mark == 'X') ==> task_of_line(task_line(ws, mark, text), n) is None,
        text.len() == 0 ==> task_of_line(task_line(ws, mark, text), n) is None,
{
    let l = task_line(ws, mark, text);
    let rest = seq!['-', ' ', '['] + seq![mark] + seq![']', ' '] + text;
    assert(l =~= ws + rest);
    assert(!is_ws('-'));
    lemma_leading_ws_of(ws, rest);
    let r = l.subrange(ws.len() as int, l.len() as int);
    assert(r =~= rest);
    assert(r.subrange(6, r.len() as int) =~= text);
    assert(l.subrange(0, ws.len() as int) =~= ws);
}

/// UTF-8 size of a character.
pub fn utf8_len_exec(c: char) -> (r: usize)
    ensures
        r == utf8_len(c),
{
    let u = c as u32;
    if u < 0x80 {
        1
    } else if u < 0x800 {
        2
    } else if u < 0x10000 {
        3
    } else {
        4
    }
}

/// UTF-8 size of a character sequence.
pub fn utf8_size_exec(s: &[char]) -> (r: usize)
    requires
        s.len() < usize::MAX / 4,
    ensures
        r == utf8_size(s@),
{
    let mut n: usize = 0;
    let mut i: usize = 0;
    while i < s.len()
        invariant
            i <= s.len() < usize::MAX / 4,
            n == utf8_size(s@.subrange(0, i as int)),
            n <= 4 * i,
        decreases s.len() - i,
    {
        assert(s@.subrange(0, i + 1).drop_last() =~= s@.subrange(0, i as int));
        n = n + utf8_len_exec(s[i]);
        i = i + 1;
    }
    assert(s@.subrange(0, s.len() as int) =~= s@);
    n
}

/// The task on a line, if it is one.
pub fn task_of_line_exec(l: &[char], n: usize) -> (r: Option<Task>)
    requires
        l.len() < usize::MAX / 4,
    ensures
        match r {
            Some(t) => task_of_line(l@, n as nat) == Some(t@),
            None => task_of_line(l@, n as nat) is None,
        },
{
    let w = leading_ws_exec(l);
    let r = slice(l, w, l.len());
    if r.len() > 6 && r[0] == '-' && r[1] == ' ' && r[2] == '[' && (r[3] == ' ' || r[3] == 'x'
        || r[3] == 'X') && r[4] == ']' && r[5] == ' ' {
        let text = slice(&r, 6, r.len());
        let indent = utf8_size_exec(&slice(l, 0, w));
        let tags = extract_tags(&text, false);
        Some(Task { text: string_of(&text), done: r[3] != ' ', line: n, indent, tags })
    } else {
        None
    }
}

/// The tasks of a note body, with 1-based line numbers.
pub fn extract_tasks(body: &[char]) -> (r: Vec<Task>)
    requires
        body.len() < usize::MAX / 4,
    ensures
        task_views(r@) == body_tasks(body@),
{
    let ls = lines_exec(body);
    let mut out: Vec<Task> = Vec::new();
    let mut n: usize = 0;
    proof {
        lemma_lines_len(body@, 0);
        lemma_lines_shorter(body@, 0);
        assert forall|k: int| 0 <= k < ls.len() implies (#[trigger] ls@[k]).len() <= body.len() by {
            assert(views(ls@)[k] == ls@[k]@);
        }
    }
    assert(views(ls@).subrange(0, ls.len() as int) =~= views(ls@));
    assert(task_views(out@) + body_tasks(body@) =~= body_tasks(body@));
    while n < ls.len()
        invariant
            n <= ls.len(),
            ls.len() <= body.len() < usize::MAX / 4,
            views(ls@) == lines(body@),
            forall|k: int| 0 <= k < ls.len() ==> (#[trigger] ls@[k]).len() <= body.len(),
            task_views(out@) + tasks_of_lines(views(ls@).subrange(n as int, ls.len() as int), (n + 1) as nat)
                == body_tasks(body@),
        decreases ls.len() - n,
    {
        let ghost before = task_views(out@);
        let ghost rest = views(ls@).subrange(n as int, ls.len() as int);
        assert(rest[0] == ls@[n as int]@);
        assert(rest.drop_first() =~= views(ls@).subrange(n + 1, ls.len() as int));
        match task_of_line_exec(&ls[n], n + 1) {
            Some(t) => {
                out.push(t);
                assert(task_views(out@) =~= before + seq![t@]);
            },
            None => {},
        }
        assert(task_views(out@) + tasks_of_lines(views(ls@).subrange(n + 1, ls.len() as int), (n + 2) as nat)
            =~= before + tasks_of_lines(rest, (n + 1) as nat));
        n = n + 1;
    }
    assert(views(ls@).subrange(n as int, ls.len() as int) =~= Seq::<Seq<char>>::empty());
    assert(task_views(out@) =~= body_tasks(body@));
    out
}

/// Every line is no longer than the text.
pub proof fn lemma_lines_shorter(s: Seq<char>, i: nat)
    requires
        i <= s.len(),
    ensures
        forall|k: int| 0 <= k < lines_from(s, i).len() ==> (#[trigger] lines_from(s, i)[k]).len() <= s.len(),
    decreases s.len() - i,
{
    if i >= s.len() {
    } else {
        lemma_find_from(s, seq!['\n'], i);
        match find_from(s, seq!['\n'], i) {
            None => {},
            Some(j) => {
                if i <= j < s.len() {
                    lemma_lines_shorter(s, j + 1);
                    let ls = lines_from(s, i);
                    assert forall|k: int| 0 <= k < ls.len() implies (#[trigger] ls[k]).len() <= s.len() by {
                        if k > 0 {
                            assert(ls[k] == lines_from(s, j + 1)[k - 1]);
                        }
                    }
                }
            },
        }
    }
}

// ---------------------------------------------------------------------------
// Headings: `# Title` .. `###### Title`
// ---------------------------------------------------------------------------

/// What a heading line says, as plain values.
pub struct HeadingSpec {
    pub text: Seq<char>,
    pub level: nat,
    pub line: nat,
}

/// Number of `#` characters at the start of `s`.
pub open spec fn hash_run(s: Seq<char>) -> nat
    decreases s.len(),
{
    if s.len() > 0 && s[0] == '#' {
        1 + hash_run(s.drop_first())
    } else {
        0
    }
}

/// The heading on line `l` (numbered `n`), if it is one: one to six `#`,
/// at least one whitespace character, then a non-empty text. When nothing
/// follows the whitespace but there are two or more whitespace characters,
/// the text is the last of them.
pub open spec fn heading_of_line(l: Seq<char>, n: nat) -> Option<HeadingSpec> {
    let k = hash_run(l);
    let a = l.subrange(k as int, l.len() as int);
    let w = leading_ws(a);
    let rest = a.subrange(w as int, a.len() as int);
    if 1 <= k <= 6 && w >= 1 {
        if rest.len() >= 1 {
            Some(HeadingSpec { text: rest, level: k, line: n })
        } else if w >= 2 {
            Some(HeadingSpec { text: a.subrange(w - 1, w as int), level: k, line: n })
        } else {
            None
        }
    } else {
        None
    }
}

/// The headings of each line, lines numbered from `first`.
pub open spec fn headings_of_lines(ls: Seq<Seq<char>>, first: nat) -> Seq<HeadingSpec>
    decreases ls.len(),
{
    if ls.len() == 0 {
        Seq::empty()
    } else {
        match heading_of_line(ls[0], first) {
            Some(h) => seq![h] + headings_of_lines(ls.drop_first(), first + 1),
            None => headings_of_lines(ls.drop_first(), first + 1),
        }
    }
}

/// The headings of a note body.
pub open spec fn body_headings(body: Seq<char>) -> Seq<HeadingSpec> {
    headings_of_lines(lines(body), 1)
}

/// `k` hash signs.
pub open spec fn hashes(k: nat) -> Seq<char> {
    Seq::new(k, |i: int| '#')
}

proof fn lemma_hash_run_of(k: nat, r: Seq<char>)
    requires
        r.len() == 0 || r[0] != '#',
    ensures
        hash_run(hashes(k) + r) == k,
    decreases k,
{
    if k > 0 {
        assert((hashes(k) + r).drop_first() =~= hashes((k - 1) as nat) + r);
        lemma_hash_run_of((k - 1) as nat, r);
    } else {
        assert(hashes(k) + r =~= r);
    }
}

proof fn lemma_leading_ws_of(ws: Seq<char>, t: Seq<char>)
    requires
        forall|i: int| 0 <= i < ws.len() ==> is_ws(#[trigger] ws[i]),
        t.len() == 0 || !is_ws(t[0]),
    ensures
        leading_ws(ws + t) == ws.len(),
    decreases ws.len(),
{
    if ws.len() > 0 {
        assert((ws + t).drop_first() =~= ws.drop_first() + t);
        assert(forall|i: int| 0 <= i < ws.drop_first().len() ==> #[trigger] ws.drop_first()[i] == ws[i + 1]);
        lemma_leading_ws_of(ws.drop_first(), t);
    } else {
        assert(ws + t =~= t);
    }
}

/// A line of one to six `#`, then whitespace, then a text that does not
/// start with whitespace, is a heading of that many levels whose text is
/// that text; seven or more `#` never make a heading.
pub proof fn law_heading_line(k: nat, ws: Seq<char>, text: Seq<char>, n: nat)
    requires
        ws.len() >= 1,
        forall|i: int| 0 <= i < ws.len() ==> is_ws(#[trigger] ws[i]),
        text.len() >= 1,
        !is_ws(text[0]),
    ensures
        1 <= k <= 6 ==> heading_of_line(hashes(k) + ws + text, n) == Some(
            HeadingSpec { text: text, level: k, line: n },
        ),
        k >= 7 ==> heading_of_line(hashes(k) + ws + text, n) is None,
{
    let l = hashes(k) + ws + text;
    assert(l =~= hashes(k) + (ws + text));
    assert(!is_ws('#'));
    assert((ws + text)[0] == ws[0]);
    lemma_hash_run_of(k, ws + text);
    let a = l.subrange(k as int, l.len() as int);
    assert(a =~= ws + text);
    lemma_leading_ws_of(ws, text);
    assert(a.subrange(ws.len() as int, a.len() as int) =~= text);
}

/// Exec form of [`hash_run`].
fn hash_run_exec(s: &[char]) -> (r: usize)
    ensures
        r == hash_run(s@),
        r <= s.len(),
{
    let mut i: usize = 0;
    assert(s@.subrange(0, s.len() as int) =~= s@);
    while i < s.len() && s[i] == '#'
        invariant
            i <= s.len(),
            hash_run(s@) == i + hash_run(s@.subrange(i as int, s.len() as int)),
        decreases s.len() - i,
    {
        assert(s@.subrange(i as int, s.len() as int).drop_first() =~= s@.subrange(
            i + 1,
            s.len() as int,
        ));
        i = i + 1;
    }
    i
}

/// The heading on a line, if it is one.
pub fn heading_of_line_exec(l: &[char], n: usize) -> (r: Option<Heading>)
    ensures
        match r {
            Some(h) => heading_of_line(l@, n as nat) == Some(h@),
            None => heading_of_line(l@, n as nat) is None,
        },
{
    let k = hash_run_exec(l);
    let a = slice(l, k, l.len());
    let w = leading_ws_exec(&a);
    if 1 <= k && k <= 6 && w >= 1 {
        if w < a.len() {
            Some(Heading { text: string_of(&slice(&a, w, a.len())), level: k as u8, line: n })
        } else if w >= 2 {
            Some(Heading { text: string_of(&slice(&a, w - 1, w)), level: k as u8, line: n })
        } else {
            None
        }
    } else {
        None
    }
}

/// The headings of a note body, with 1-based line numbers.
pub fn extract_headings(body: &[char]) -> (r: Vec<Heading>)
    ensures
        heading_views(r@) == body_headings(body@),
{
    let ls = lines_exec(body);
    let mut out: Vec<Heading> = Vec::new();
    let mut n: usize = 0;
    proof {
        lemma_lines_len(body@, 0);
    }
    assert(views(ls@).subrange(0, ls.len() as int) =~= views(ls@));
    assert(heading_views(out@) + body_headings(body@) =~= body_headings(body@));
    while n < ls.len()
        invariant
            n <= ls.len(),
            ls.len() <= body.len(),
            views(ls@) == lines(body@),
            heading_views(out@) + headings_of_lines(views(ls@).subrange(n as int, ls.len() as int), (n + 1) as nat)
                == body_headings(body@),
        decreases ls.len() - n,
    {
        let ghost before = heading_views(out@);
        let ghost rest = views(ls@).subrange(n as int, ls.len() as int);
        assert(rest[0] == ls@[n as int]@);
        assert(rest.drop_first() =~= views(ls@).subrange(n + 1, ls.len() as int));
        match heading_of_line_exec(&ls[n], n + 1) {
            Some(h) => {
                out.push(h);
                assert(heading_views(out@) =~= before + seq![h@]);
            },
            None => {},
        }
        assert(heading_views(out@) + headings_of_lines(views(ls@).subrange(n + 1, ls.len() as int), (n + 2) as nat)
            =~= before + headings_of_lines(rest, (n + 1) as nat));
        n = n + 1;
    }
    assert(views(ls@).subrange(n as int, ls.len() as int) =~= Seq::<Seq<char>>::empty());
    assert(heading_views(out@) =~= body_headings(body@));
    out
}

// ---------------------------------------------------------------------------
// Word count
// ---------------------------------------------------------------------------

/// A CJK ideograph counted as one word (U+4E00 to U+9FFF, U+3400 to U+4DBF).
pub open spec fn is_cjk(c: char) -> bool {
    let u = c as u32;
    (0x4e00 <= u && u <= 0x9fff) || (0x3400 <= u && u <= 0x4dbf)
}

/// An ASCII letter.
pub open spec fn is_ascii_letter(c: char) -> bool {
    let u = c as u32;
    (0x41 <= u && u <= 0x5a) || (0x61 <= u && u <= 0x7a)
}

/// Number of CJK ideographs plus number of maximal runs of ASCII letters.
pub open spec fn word_count(s: Seq<char>) -> nat
    decreases s.len(),
{
    if s.len() == 0 {
        0
    } else {
        let c = s.last();
        let p = s.drop_last();
        word_count(p) + if is_cjk(c) {
            1nat
        } else if is_ascii_letter(c) && (p.len() == 0 || !is_ascii_letter(p.last())) {
            1nat
        } else {
            0nat
        }
    }
}

proof fn lemma_word_count_concat(a: Seq<char>, b: Seq<char>)
    requires
        a.len() == 0 || b.len() == 0 || !is_ascii_letter(a.last()) || !is_ascii_letter(b[0]),
    ensures
        word_count(a + b) == word_count(a) + word_count(b),
    decreases b.len(),
{
    if b.len() == 0 {
        assert(a + b =~= a);
    } else {
        let d = b.drop_last();
        assert((a + b).drop_last() =~= a + d);
        assert((a + b).last() == b.last());
        if d.len() > 0 {
            assert(d[0] == b[0]);
            assert((a + d).last() == d.last());
        } else {
            assert(a + d =~= a);
        }
        lemma_word_count_concat(a, d);
    }
}

proof fn lemma_word_count_letters(w: Seq<char>)
    requires
        w.len() >= 1,
        forall|i: int| 0 <= i < w.len() ==> is_ascii_letter(#[trigger] w[i]),
    ensures
        word_count(w) == 1,
    decreases w.len(),
{
    reveal_with_fuel(word_count, 2);
    let d = w.drop_last();
    assert(w.last() == w[w.len() - 1]);
    assert(is_ascii_letter(w.last()));
    if d.len() > 0 {
        assert(forall|i: int| 0 <= i < d.len() ==> #[trigger] d[i] == w[i]);
        assert(d.last() == w[d.len() - 1]);
        lemma_word_count_letters(d);
    }
}

/// Word count: whitespace separates words, so the count of two texts
/// joined by a whitespace character is the sum of their counts; a run of
/// ASCII letters is one word; each CJK ideograph (U+4E00 to U+9FFF, U+3400
/// to U+4DBF) is a word of its own; digits and punctuation count nothing.
pub proof fn law_word_count(a: Seq<char>, c: char, b: Seq<char>, w: Seq<char>)
    ensures
        is_ws(c) ==> word_count(a + seq![c] + b) == word_count(a) + word_count(b),
        w.len() >= 1 && (forall|i: int|
            0 <= i < w.len() ==> {
                let u = #[trigger] w[i] as u32;
                (0x41 <= u && u <= 0x5a) || (0x61 <= u && u <= 0x7a)
            }) ==> word_count(w) == 1,
        ({
            let u = c as u32;
            (0x4e00 <= u && u <= 0x9fff) || (0x3400 <= u && u <= 0x4dbf)
        }) ==> word_count(seq![c]) == 1 && word_count(seq![c, c]) == 2,
        ({
            let u = c as u32;
            (0x30 <= u && u <= 0x39) || c == '.' || c == ',' || c == '-' || c == '_'
        }) ==> word_count(seq![c]) == 0,
{
    reveal_with_fuel(word_count, 3);
    if is_ws(c) {
        let sc = seq![c];
        assert(!is_ascii_letter(c));
        lemma_word_count_concat(a, sc);
        lemma_word_count_concat(a + sc, b);
        assert(word_count(sc) == 0) by {
            assert(sc.drop_last() =~= Seq::<char>::empty());
            assert(!is_cjk(c));
        }
    }
    if w.len() >= 1 && (forall|i: int|
        0 <= i < w.len() ==> {
            let u = #[trigger] w[i] as u32;
            (0x41 <= u && u <= 0x5a) || (0x61 <= u && u <= 0x7a)
        }) {
        assert forall|i: int| 0 <= i < w.len() implies is_ascii_letter(#[trigger] w[i]) by {
            let u = w[i] as u32;
            assert((0x41 <= u && u <= 0x5a) || (0x61 <= u && u <= 0x7a));
        }
        lemma_word_count_letters(w);
    }
    assert(seq![c].drop_last() =~= Seq::<char>::empty());
    assert(seq![c, c].drop_last() =~= seq![c]);
}

/// Exec form of [`word_count`].
pub fn count_words_exec(s: &[char]) -> (r: usize)
    ensures
        r == word_count(s@),
{
    let mut n: usize = 0;
    let mut i: usize = 0;
    while i < s.len()
        invariant
            i <= s.len(),
            n == word_count(s@.subrange(0, i as int)),
            n <= i,
        decreases s.len() - i,
    {
        let c = s[i];
        let u = c as u32;
        let cjk = (0x4e00 <= u && u <= 0x9fff) || (0x3400 <= u && u <= 0x4dbf);
        let letter = (0x41 <= u && u <= 0x5a) || (0x61 <= u && u <= 0x7a);
        let prev_letter = if i > 0 {
            let v = s[i - 1] as u32;
            (0x41 <= v && v <= 0x5a) || (0x61 <= v && v <= 0x7a)
        } else {
            false
        };
        assert(s@.subrange(0, i + 1).drop_last() =~= s@.subrange(0, i as int));
        if cjk || (letter && !prev_letter) {
            n = n + 1;
        }
        i = i + 1;
    }
    assert(s@.subrange(0, s.len() as int) =~= s@);
    n
}

} // verus!
