//! Text helpers over character sequences.
//!
//! Strings are modelled by their character sequences (`Seq<char>`); the
//! executable helpers work on `Vec<char>` and are proved against the spec
//! functions defined here.

use vstd::prelude::*;

verus! {

// ---------------------------------------------------------------------------
// Spec functions
// ---------------------------------------------------------------------------

/// `c` has the Unicode `White_Space` property (what `char::is_whitespace`
/// and the regex class `\s` test).
pub open spec fn is_ws(c: char) -> bool {
    let u = c as u32;
    ||| (0x9 <= u && u <= 0xd)
    ||| u == 0x20
    ||| u == 0x85
    ||| u == 0xa0
    ||| u == 0x1680
    ||| (0x2000 <= u && u <= 0x200a)
    ||| u == 0x2028
    ||| u == 0x2029
    ||| u == 0x202f
    ||| u == 0x205f
    ||| u == 0x3000
}

/// `s` begins with `p`.
pub open spec fn starts_with(s: Seq<char>, p: Seq<char>) -> bool {
    p.len() <= s.len() && s.subrange(0, p.len() as int) == p
}

/// `s` ends with `p`.
pub open spec fn ends_with(s: Seq<char>, p: Seq<char>) -> bool {
    p.len() <= s.len() && s.subrange(s.len() - p.len(), s.len() as int) == p
}

/// `p` occurs in `s` starting at index `i`.
pub open spec fn occurs_at(s: Seq<char>, p: Seq<char>, i: int) -> bool {
    0 <= i && i + p.len() <= s.len() && s.subrange(i, i + p.len()) == p
}

/// `p` occurs somewhere in `s`.
pub open spec fn contains(s: Seq<char>, p: Seq<char>) -> bool {
    exists|i: int| occurs_at(s, p, i)
}

/// The first index `j >= i` at which `p` occurs in `s`.
pub open spec fn find_from(s: Seq<char>, p: Seq<char>, i: nat) -> Option<nat>
    decreases s.len() - i,
{
    if i + p.len() > s.len() {
        None
    } else if p.len() == 0 || occurs_at(s, p, i as int) {
        Some(i)
    } else {
        find_from(s, p, i + 1)
    }
}

/// The first index at which `p` occurs in `s` (`str::find`).
pub open spec fn find(s: Seq<char>, p: Seq<char>) -> Option<nat> {
    find_from(s, p, 0)
}

/// `s` with every non-overlapping occurrence of `from` (scanning from index
/// `i`, left to right) replaced by `to`; the part of `s` before `i` is dropped.
pub open spec fn replace_from(s: Seq<char>, from: Seq<char>, to: Seq<char>, i: nat) -> Seq<char>
    decreases s.len() - i, 1int,
{
    if from.len() == 0 {
        replace_empty_from(s, to, i)
    } else {
        match find_from(s, from, i) {
            None => s.subrange(i as int, s.len() as int),
            Some(j) => {
                if j + from.len() <= s.len() && i <= j {
                    s.subrange(i as int, j as int) + to + replace_from(s, from, to, j + from.len())
                } else {
                    Seq::empty()
                }
            },
        }
    }
}

/// `str::replace` with an empty pattern: `to` is put before every character
/// and at the end.
pub open spec fn replace_empty_from(s: Seq<char>, to: Seq<char>, i: nat) -> Seq<char>
    decreases s.len() - i, 0int,
{
    if i >= s.len() {
        to
    } else {
        to + seq![s[i as int]] + replace_empty_from(s, to, i + 1)
    }
}

/// `str::replace`: every non-overlapping occurrence of `from`, scanning left
/// to right, replaced by `to`.
pub open spec fn replace_all(s: Seq<char>, from: Seq<char>, to: Seq<char>) -> Seq<char> {
    replace_from(s, from, to, 0)
}

/// A line as `str::lines` yields it: a trailing `'\r'` is dropped when the
/// line was ended by `'\n'`.
pub open spec fn strip_cr(line: Seq<char>) -> Seq<char> {
    if line.len() > 0 && line.last() == '\r' {
        line.drop_last()
    } else {
        line
    }
}

/// The lines of `s` from index `i` on (`str::lines`).
pub open spec fn lines_from(s: Seq<char>, i: nat) -> Seq<Seq<char>>
    decreases s.len() - i,
{
    if i >= s.len() {
        Seq::empty()
    } else {
        match find_from(s, seq!['\n'], i) {
            None => seq![s.subrange(i as int, s.len() as int)],
            Some(j) => {
                if i <= j < s.len() {
                    seq![strip_cr(s.subrange(i as int, j as int))] + lines_from(s, j + 1)
                } else {
                    Seq::empty()
                }
            },
        }
    }
}

/// The lines of `s` (`str::lines`).
pub open spec fn lines(s: Seq<char>) -> Seq<Seq<char>> {
    lines_from(s, 0)
}

/// The parts joined with `sep` between consecutive parts (`[T]::join`).
pub open spec fn join(parts: Seq<Seq<char>>, sep: Seq<char>) -> Seq<char>
    decreases parts.len(),
{
    if parts.len() == 0 {
        Seq::empty()
    } else if parts.len() == 1 {
        parts[0]
    } else {
        join(parts.drop_last(), sep) + sep + parts.last()
    }
}

/// Number of leading characters of `s` that are whitespace.
pub open spec fn leading_ws(s: Seq<char>) -> nat
    decreases s.len(),
{
    if s.len() > 0 && is_ws(s[0]) {
        1 + leading_ws(s.drop_first())
    } else {
        0
    }
}

/// Number of trailing characters of `s` that are whitespace.
pub open spec fn trailing_ws(s: Seq<char>) -> nat
    decreases s.len(),
{
    if s.len() > 0 && is_ws(s.last()) {
        1 + trailing_ws(s.drop_last())
    } else {
        0
    }
}

/// `str::trim_start`.
pub open spec fn trim_start(s: Seq<char>) -> Seq<char> {
    s.subrange(leading_ws(s) as int, s.len() as int)
}

/// `str::trim_end`.
pub open spec fn trim_end(s: Seq<char>) -> Seq<char> {
    s.subrange(0, s.len() - trailing_ws(s))
}

/// `str::trim`.
pub open spec fn trim(s: Seq<char>) -> Seq<char> {
    trim_end(trim_start(s))
}

/// `s` with leading characters equal to `c` removed (`trim_start_matches`).
pub open spec fn trim_start_char(s: Seq<char>, c: char) -> Seq<char>
    decreases s.len(),
{
    if s.len() > 0 && s[0] == c {
        trim_start_char(s.drop_first(), c)
    } else {
        s
    }
}

/// The number of bytes of the UTF-8 encoding of `c`.
pub open spec fn utf8_len(c: char) -> nat {
    let u = c as u32;
    if u < 0x80 {
        1
    } else if u < 0x800 {
        2
    } else if u < 0x10000 {
        3
    } else {
        4
    }
}

/// The number of bytes of the UTF-8 encoding of `s` (`str::len`).
pub open spec fn utf8_size(s: Seq<char>) -> nat
    decreases s.len(),
{
    if s.len() == 0 {
        0
    } else {
        utf8_size(s.drop_last()) + utf8_len(s.last())
    }
}

// ---------------------------------------------------------------------------
// Executable helpers
// ---------------------------------------------------------------------------

/// The characters of a string slice, in order.
pub fn chars_of(s: &str) -> (r: Vec<char>)
    ensures
        r@ == s@,
{
    let mut r: Vec<char> = Vec::new();
    for c in it: s.chars()
        invariant
            r@ == it.seq().take(it.index()),
            it.seq() == s@,
    {
        r.push(c);
    }
    r
}

/// Collects characters into a `String` (`FromIterator<char> for String`).
#[verifier::external_body]
pub(crate) fn string_of(v: &[char]) -> (r: String)
    ensures
        r@ == v@,
{
    v.iter().collect()
}

/// Exec form of [`is_ws`].
pub fn is_ws_char(c: char) -> (r: bool)
    ensures
        r == is_ws(c),
{
    let u = c as u32;
    (0x9 <= u && u <= 0xd) || u == 0x20 || u == 0x85 || u == 0xa0 || u == 0x1680 || (0x2000 <= u
        && u <= 0x200a) || u == 0x2028 || u == 0x2029 || u == 0x202f || u == 0x205f || u == 0x3000
}

/// Appends all of `src` to `dst`.
pub fn push_all(dst: &mut Vec<char>, src: &[char])
    ensures
        final(dst)@ == old(dst)@ + src@,
{
    let mut i: usize = 0;
    while i < src.len()
        invariant
            i <= src.len(),
            dst@ == old(dst)@ + src@.subrange(0, i as int),
        decreases src.len() - i,
    {
        dst.push(src[i]);
        i = i + 1;
        assert(dst@ == old(dst)@ + src@.subrange(0, i as int));
    }
    assert(src@.subrange(0, src.len() as int) == src@);
}

/// The characters of `s` from `from` up to `to`.
pub fn slice(s: &[char], from: usize, to: usize) -> (r: Vec<char>)
    requires
        from <= to <= s.len(),
    ensures
        r@ == s@.subrange(from as int, to as int),
{
    let mut r: Vec<char> = Vec::new();
    let mut i: usize = from;
    while i < to
        invariant
            from <= i <= to <= s.len(),
            r@ == s@.subrange(from as int, i as int),
        decreases to - i,
    {
        r.push(s[i]);
        i = i + 1;
        assert(r@ == s@.subrange(from as int, i as int));
    }
    r
}

/// A copy of `s`.
pub fn copy_chars(s: &[char]) -> (r: Vec<char>)
    ensures
        r@ == s@,
{
    let r = slice(s, 0, s.len());
    assert(s@.subrange(0, s.len() as int) =~= s@);
    r
}

/// Whether `p` occurs in `s` at index `i`.
pub fn occurs_at_exec(s: &[char], p: &[char], i: usize) -> (r: bool)
    ensures
        r == occurs_at(s@, p@, i as int),
{
    if i > s.len() || p.len() > s.len() - i {
        return false;
    }
    let mut k: usize = 0;
    while k < p.len()
        invariant
            i + p.len() <= s.len(),
            k <= p.len(),
            forall|m: int| 0 <= m < k ==> s@[i + m] == p@[m],
        decreases p.len() - k,
    {
        if s[i + k] != p[k] {
            assert(s@.subrange(i as int, i + p.len())[k as int] != p@[k as int]);
            return false;
        }
        k = k + 1;
    }
    assert(s@.subrange(i as int, i + p.len()) =~= p@);
    true
}

/// Whether `s` starts with `p`.
pub fn starts_with_exec(s: &[char], p: &[char]) -> (r: bool)
    ensures
        r == starts_with(s@, p@),
{
    occurs_at_exec(s, p, 0)
}

/// Whether `s` ends with `p`.
pub fn ends_with_exec(s: &[char], p: &[char]) -> (r: bool)
    ensures
        r == ends_with(s@, p@),
{
    if p.len() > s.len() {
        false
    } else {
        occurs_at_exec(s, p, s.len() - p.len())
    }
}

/// The first index `j >= start` at which `p` occurs in `s`.
pub fn find_from_exec(s: &[char], p: &[char], start: usize) -> (r: Option<usize>)
    ensures
        match r {
            Some(j) => find_from(s@, p@, start as nat) == Some(j as nat),
            None => find_from(s@, p@, start as nat) is None,
        },
{
    let mut i: usize = start;
    loop
        invariant
            start <= i,
            find_from(s@, p@, start as nat) == find_from(s@, p@, i as nat),
        decreases s.len() + 1 - i,
    {
        if i > s.len() || p.len() > s.len() - i {
            return None;
        }
        if p.len() == 0 || occurs_at_exec(s, p, i) {
            return Some(i);
        }
        i = i + 1;
    }
}

/// Whether `p` occurs anywhere in `s`.
pub fn contains_exec(s: &[char], p: &[char]) -> (r: bool)
    ensures
        r == contains(s@, p@),
{
    proof {
        lemma_find_contains(s@, p@, 0);
    }
    find_from_exec(s, p, 0).is_some()
}

/// `find_from(s, p, i)` is `Some(j)` exactly when `j` is the first
/// occurrence at or after `i`.
pub proof fn lemma_find_from(s: Seq<char>, p: Seq<char>, i: nat)
    ensures
        match find_from(s, p, i) {
            Some(j) => i <= j && occurs_at(s, p, j as int) && forall|k: int|
                i <= k < j ==> !occurs_at(s, p, k),
            None => forall|k: int| i <= k ==> !occurs_at(s, p, k),
        },
    decreases s.len() - i,
{
    if i + p.len() > s.len() {
    } else if p.len() == 0 || occurs_at(s, p, i as int) {
        assert(s.subrange(i as int, (i + p.len()) as int) =~= p);
    } else {
        lemma_find_from(s, p, i + 1);
    }
}

/// `find_from(s, p, 0)` finds something exactly when `p` occurs in `s`.
/// Where a single character is first found: the index holds it and no
/// earlier index at or after `i` does; when it is not found, no index at
/// or after `i` holds it.
pub proof fn lemma_find_char(s: Seq<char>, ch: char, i: nat)
    ensures
        match find_from(s, seq![ch], i) {
            Some(j) => i <= j < s.len() && s[j as int] == ch && forall|k: int| i <= k < j ==> s[k] != ch,
            None => forall|k: int| i <= k < s.len() ==> s[k] != ch,
        },
{
    lemma_find_from(s, seq![ch], i);
    match find_from(s, seq![ch], i) {
        Some(j) => {
            assert(s.subrange(j as int, j + 1int)[0] == s[j as int]);
            assert forall|k: int| i <= k < j implies s[k] != ch by {
                if s[k] == ch {
                    assert(s.subrange(k, k + 1) =~= seq![ch]);
                    assert(occurs_at(s, seq![ch], k));
                }
            }
        },
        None => {
            assert forall|k: int| i <= k < s.len() implies s[k] != ch by {
                if s[k] == ch {
                    assert(s.subrange(k, k + 1) =~= seq![ch]);
                    assert(occurs_at(s, seq![ch], k));
                }
            }
        },
    }
}

pub proof fn lemma_find_contains(s: Seq<char>, p: Seq<char>, i: nat)
    requires
        i == 0,
    ensures
        find_from(s, p, i) is Some <==> contains(s, p),
{
    lemma_find_from(s, p, i);
    if let Some(j) = find_from(s, p, i) {
        assert(occurs_at(s, p, j as int));
    }
}

/// The views of a sequence of character vectors.
pub open spec fn views(v: Seq<Vec<char>>) -> Seq<Seq<char>> {
    v.map_values(|x: Vec<char>| x@)
}

pub proof fn lemma_views_push(s: Seq<Vec<char>>, x: Vec<char>)
    ensures
        views(s.push(x)) == views(s).push(x@),
{
    assert(views(s.push(x)) =~= views(s).push(x@));
}

/// `str::replace` with an empty pattern.
fn replace_empty_exec(s: &[char], to: &[char]) -> (r: Vec<char>)
    ensures
        r@ == replace_empty_from(s@, to@, 0),
{
    let mut out: Vec<char> = Vec::new();
    let mut i: usize = 0;
    while i < s.len()
        invariant
            i <= s.len(),
            out@ + replace_empty_from(s@, to@, i as nat) == replace_empty_from(s@, to@, 0),
        decreases s.len() - i,
    {
        let ghost before = out@;
        push_all(&mut out, to);
        out.push(s[i]);
        assert(replace_empty_from(s@, to@, i as nat) == to@ + seq![s@[i as int]]
            + replace_empty_from(s@, to@, (i + 1) as nat));
        assert(out@ + replace_empty_from(s@, to@, (i + 1) as nat) =~= before
            + replace_empty_from(s@, to@, i as nat));
        i = i + 1;
    }
    push_all(&mut out, to);
    assert(out@ =~= replace_empty_from(s@, to@, 0));
    out
}

/// `str::replace`: every non-overlapping occurrence of `from` replaced by `to`.
pub fn replace_all_exec(s: &[char], from: &[char], to: &[char]) -> (r: Vec<char>)
    ensures
        r@ == replace_all(s@, from@, to@),
{
    if from.len() == 0 {
        return replace_empty_exec(s, to);
    }
    let mut out: Vec<char> = Vec::new();
    let mut i: usize = 0;
    loop
        invariant
            i <= s.len(),
            from.len() > 0,
            out@ + replace_from(s@, from@, to@, i as nat) == replace_all(s@, from@, to@),
        decreases s.len() - i,
    {
        proof {
            lemma_find_from(s@, from@, i as nat);
        }
        match find_from_exec(s, from, i) {
            None => {
                let rest = slice(s, i, s.len());
                push_all(&mut out, &rest);
                return out;
            },
            Some(j) => {
                let ghost before = out@;
                let mid = slice(s, i, j);
                push_all(&mut out, &mid);
                push_all(&mut out, to);
                assert(out@ + replace_from(s@, from@, to@, (j + from.len()) as nat) =~= before
                    + replace_from(s@, from@, to@, i as nat));
                i = j + from.len();
            },
        }
    }
}

/// The lines of `s` (`str::lines`).
pub fn lines_exec(s: &[char]) -> (r: Vec<Vec<char>>)
    ensures
        views(r@) == lines(s@),
{
    let mut out: Vec<Vec<char>> = Vec::new();
    let mut i: usize = 0;
    let nl = vec!['\n'];
    assert(nl@ =~= seq!['\n']);
    while i < s.len()
        invariant
            i <= s.len(),
            nl@ == seq!['\n'],
            views(out@) + lines_from(s@, i as nat) == lines(s@),
        decreases s.len() - i,
    {
        proof {
            lemma_find_from(s@, nl@, i as nat);
        }
        let ghost before = views(out@);
        match find_from_exec(s, &nl, i) {
            None => {
                let rest = slice(s, i, s.len());
                out.push(rest);
                assert(views(out@) =~= before + lines_from(s@, i as nat));
                i = s.len();
            },
            Some(j) => {
                let mut line = slice(s, i, j);
                if line.len() > 0 && line[line.len() - 1] == '\r' {
                    line.pop();
                    assert(line@ =~= strip_cr(s@.subrange(i as int, j as int)));
                }
                out.push(line);
                assert(views(out@) + lines_from(s@, (j + 1) as nat) =~= before + lines_from(
                    s@,
                    i as nat,
                ));
                i = j + 1;
            },
        }
    }
    assert(lines_from(s@, i as nat) =~= Seq::<Seq<char>>::empty());
    assert(views(out@) =~= lines(s@));
    out
}

/// `parts` joined with `sep` between consecutive parts.
pub fn join_exec(parts: &Vec<Vec<char>>, sep: &[char]) -> (r: Vec<char>)
    ensures
        r@ == join(views(parts@), sep@),
{
    let mut out: Vec<char> = Vec::new();
    let mut i: usize = 0;
    while i < parts.len()
        invariant
            i <= parts.len(),
            out@ == join(views(parts@).subrange(0, i as int), sep@),
        decreases parts.len() - i,
    {
        let ghost before = out@;
        if i > 0 {
            push_all(&mut out, sep);
        }
        push_all(&mut out, &parts[i]);
        proof {
            let ps = views(parts@).subrange(0, i + 1);
            assert(ps.drop_last() =~= views(parts@).subrange(0, i as int));
            if i == 0 {
                assert(out@ =~= join(ps, sep@));
            } else {
                assert(out@ =~= join(ps, sep@));
            }
        }
        i = i + 1;
    }
    assert(views(parts@).subrange(0, parts.len() as int) =~= views(parts@));
    out
}

/// Number of leading whitespace characters.
pub fn leading_ws_exec(s: &[char]) -> (r: usize)
    ensures
        r == leading_ws(s@),
        r <= s.len(),
{
    let mut i: usize = 0;
    assert(s@.subrange(0, s.len() as int) =~= s@);
    while i < s.len() && is_ws_char(s[i])
        invariant
            i <= s.len(),
            leading_ws(s@) == i + leading_ws(s@.subrange(i as int, s.len() as int)),
        decreases s.len() - i,
    {
        assert(s@.subrange(i as int, s.len() as int).drop_first() =~= s@.subrange(
            i + 1,
            s.len() as int,
        ));
        i = i + 1;
    }
    i
}

/// Number of trailing whitespace characters.
pub fn trailing_ws_exec(s: &[char]) -> (r: usize)
    ensures
        r == trailing_ws(s@),
        r <= s.len(),
{
    let mut n: usize = 0;
    assert(s@.subrange(0, s.len() as int) =~= s@);
    while n < s.len() && is_ws_char(s[s.len() - 1 - n])
        invariant
            n <= s.len(),
            trailing_ws(s@) == n + trailing_ws(s@.subrange(0, s.len() - n)),
        decreases s.len() - n,
    {
        assert(s@.subrange(0, s.len() - n).drop_last() =~= s@.subrange(0, s.len() - n - 1));
        n = n + 1;
    }
    n
}

/// `str::trim`.
pub fn trim_exec(s: &[char]) -> (r: Vec<char>)
    ensures
        r@ == trim(s@),
{
    let a = leading_ws_exec(s);
    let t = slice(s, a, s.len());
    let b = trailing_ws_exec(&t);
    slice(&t, 0, t.len() - b)
}

/// `str::trim_start`.
pub fn trim_start_exec(s: &[char]) -> (r: Vec<char>)
    ensures
        r@ == trim_start(s@),
{
    let a = leading_ws_exec(s);
    slice(s, a, s.len())
}

/// `s` with leading `c` characters removed.
pub fn trim_start_char_exec(s: &[char], c: char) -> (r: Vec<char>)
    ensures
        r@ == trim_start_char(s@, c),
{
    let mut i: usize = 0;
    assert(s@.subrange(0, s.len() as int) =~= s@);
    while i < s.len() && s[i] == c
        invariant
            i <= s.len(),
            trim_start_char(s@, c) == trim_start_char(s@.subrange(i as int, s.len() as int), c),
        decreases s.len() - i,
    {
        assert(s@.subrange(i as int, s.len() as int).drop_first() =~= s@.subrange(
            i + 1,
            s.len() as int,
        ));
        i = i + 1;
    }
    slice(s, i, s.len())
}

/// `a == b` on character sequences.
pub fn eq_exec(a: &[char], b: &[char]) -> (r: bool)
    ensures
        r == (a@ == b@),
{
    if a.len() != b.len() {
        return false;
    }
    let r = occurs_at_exec(a, b, 0);
    assert(a@.subrange(0, b.len() as int) =~= a@);
    r
}

// ---------------------------------------------------------------------------
// Lexicographic order (the order of `String`: UTF-8 bytes compare in the
// same order as the code points they encode)
// ---------------------------------------------------------------------------

/// `a` sorts strictly before `b`.
pub open spec fn lex_lt(a: Seq<char>, b: Seq<char>) -> bool
    decreases a.len(),
{
    if a.len() == 0 {
        b.len() > 0
    } else if b.len() == 0 {
        false
    } else if a[0] != b[0] {
        (a[0] as int) < (b[0] as int)
    } else {
        lex_lt(a.drop_first(), b.drop_first())
    }
}

/// Strictly increasing: sorted with no repeats.
pub open spec fn sorted_unique(s: Seq<Seq<char>>) -> bool {
    forall|i: int, j: int| 0 <= i < j < s.len() ==> lex_lt(#[trigger] s[i], #[trigger] s[j])
}

pub proof fn lemma_lex_irrefl(a: Seq<char>)
    ensures
        !lex_lt(a, a),
    decreases a.len(),
{
    if a.len() > 0 {
        lemma_lex_irrefl(a.drop_first());
    }
}

pub proof fn lemma_lex_trans(a: Seq<char>, b: Seq<char>, c: Seq<char>)
    requires
        lex_lt(a, b),
        lex_lt(b, c),
    ensures
        lex_lt(a, c),
    decreases a.len(),
{
    if a.len() > 0 && b.len() > 0 && c.len() > 0 && a[0] == b[0] && b[0] == c[0] {
        lemma_lex_trans(a.drop_first(), b.drop_first(), c.drop_first());
    }
}

pub proof fn lemma_lex_total(a: Seq<char>, b: Seq<char>)
    ensures
        lex_lt(a, b) || lex_lt(b, a) || a == b,
    decreases a.len(),
{
    if a.len() > 0 && b.len() > 0 && a[0] == b[0] {
        lemma_lex_total(a.drop_first(), b.drop_first());
        if a.drop_first() == b.drop_first() {
            assert(a =~= seq![a[0]] + a.drop_first());
            assert(b =~= seq![b[0]] + b.drop_first());
        }
    } else if a.len() == 0 && b.len() == 0 {
        assert(a =~= b);
    } else if a.len() > 0 && b.len() > 0 {
        assert((a[0] as int) != (b[0] as int));
    }
}

/// Exec form of [`lex_lt`].
pub fn lex_lt_exec(a: &[char], b: &[char]) -> (r: bool)
    ensures
        r == lex_lt(a@, b@),
{
    let mut i: usize = 0;
    assert(a@.subrange(0, a.len() as int) =~= a@);
    assert(b@.subrange(0, b.len() as int) =~= b@);
    while i < a.len() && i < b.len() && a[i] == b[i]
        invariant
            i <= a.len(),
            i <= b.len(),
            lex_lt(a@, b@) == lex_lt(a@.subrange(i as int, a.len() as int), b@.subrange(i as int, b.len() as int)),
        decreases a.len() - i,
    {
        assert(a@.subrange(i as int, a.len() as int).drop_first() =~= a@.subrange(i + 1, a.len() as int));
        assert(b@.subrange(i as int, b.len() as int).drop_first() =~= b@.subrange(i + 1, b.len() as int));
        i = i + 1;
    }
    if i == a.len() {
        i < b.len()
    } else if i == b.len() {
        false
    } else {
        assert(a@.subrange(i as int, a.len() as int)[0] == a@[i as int]);
        assert(b@.subrange(i as int, b.len() as int)[0] == b@[i as int]);
        a[i] < b[i]
    }
}

/// Inserting an element into a sequence adds it to the sequence's set.
pub proof fn lemma_insert_to_set<A>(s: Seq<A>, k: int, x: A)
    requires
        0 <= k <= s.len(),
    ensures
        s.insert(k, x).to_set() == s.to_set().insert(x),
{
    let v = s.insert(k, x);
    assert forall|y: A| v.contains(y) <==> (s.contains(y) || y == x) by {
        if v.contains(y) {
            let j = choose|j: int| 0 <= j < v.len() && v[j] == y;
            if j < k {
                assert(s[j] == y);
            } else if j > k {
                assert(s[j - 1] == y);
            }
        }
        if s.contains(y) {
            let j = choose|j: int| 0 <= j < s.len() && s[j] == y;
            if j < k {
                assert(v[j] == y);
            } else {
                assert(v[j + 1] == y);
            }
        }
        if y == x {
            assert(v[k] == y);
        }
    }
    assert(v.to_set() =~= s.to_set().insert(x));
}

/// The distinct elements of `items`, sorted (`sort` then `dedup`).
pub fn sort_dedup(items: &Vec<Vec<char>>) -> (r: Vec<Vec<char>>)
    ensures
        sorted_unique(views(r@)),
        views(r@).to_set() == views(items@).to_set(),
{
    let mut out: Vec<Vec<char>> = Vec::new();
    let mut i: usize = 0;
    while i < items.len()
        invariant
            i <= items.len(),
            sorted_unique(views(out@)),
            views(out@).to_set() == views(items@).subrange(0, i as int).to_set(),
        decreases items.len() - i,
    {
        let x = &items[i];
        let ghost before = views(out@);
        let mut k: usize = 0;
        while k < out.len() && lex_lt_exec(&out[k], x)
            invariant
                k <= out.len(),
                forall|m: int| 0 <= m < k ==> lex_lt(#[trigger] views(out@)[m], x@),
            decreases out.len() - k,
        {
            k = k + 1;
        }
        let present = k < out.len() && eq_exec(&out[k], x);
        if !present {
            proof {
                if k < out.len() {
                    lemma_lex_total(views(out@)[k as int], x@);
                }
            }
            let cp = slice(x, 0, x.len());
            assert(cp@ =~= x@);
            out.insert(k, cp);
            proof {
                let v = views(out@);
                assert(v =~= before.insert(k as int, x@));
                assert forall|p: int, q: int| 0 <= p < q < v.len() implies lex_lt(#[trigger] v[p], #[trigger] v[q]) by {
                    if q < k {
                    } else if q == k {
                    } else if p < k {
                        assert(v[q] == before[q - 1]);
                        lemma_lex_trans(v[p], x@, before[k as int]);
                        if q - 1 > k {
                            lemma_lex_trans(v[p], before[k as int], before[q - 1]);
                        }
                    } else if p == k {
                        assert(v[q] == before[q - 1]);
                        if q - 1 > k {
                            lemma_lex_trans(x@, before[k as int], before[q - 1]);
                        }
                    } else {
                        assert(v[p] == before[p - 1]);
                        assert(v[q] == before[q - 1]);
                    }
                }
                lemma_insert_to_set(before, k as int, x@);
            }
        } else {
            proof {
                assert(views(out@)[k as int] == x@);
                assert(before.to_set().contains(x@));
                assert(before.to_set() =~= before.to_set().insert(x@));
            }
        }
        proof {
            assert(views(items@).subrange(0, i + 1) =~= views(items@).subrange(0, i as int).push(x@));
            views(items@).subrange(0, i as int).lemma_push_to_set_commute(x@);
        }
        i = i + 1;
    }
    assert(views(items@).subrange(0, items.len() as int) =~= views(items@));
    out
}

/// What `str::to_lowercase` returns for `s`.
pub uninterp spec fn lower(s: Seq<char>) -> Seq<char>;

/// Every character is ASCII.
pub open spec fn all_ascii(s: Seq<char>) -> bool {
    forall|i: int| 0 <= i < s.len() ==> (s[i] as u32) < 0x80
}

/// The lowercase of an ASCII character: `A`..`Z` become `a`..`z`, any
/// other is unchanged (the Unicode lowercase mapping on ASCII).
pub open spec fn ascii_lower(c: char) -> char {
    if 'A' <= c && c <= 'Z' {
        ((c as u32) + 32) as char
    } else {
        c
    }
}

/// `str::to_lowercase`: the Unicode lowercase mapping of every character.
/// Claimed: the result is [`lower`]; on an ASCII text it maps each
/// character by [`ascii_lower`], keeping the length.
#[verifier::external_body]
pub(crate) fn to_lower(s: &str) -> (r: String)
    ensures
        r@ == lower(s@),
        all_ascii(s@) ==> r@ == s@.map_values(|c: char| ascii_lower(c)),
{
    s.to_lowercase()
}


/// Replacing a text by itself changes nothing.
pub proof fn lemma_replace_same(s: Seq<char>, p: Seq<char>, i: nat)
    requires
        i <= s.len(),
    ensures
        replace_from(s, p, p, i) == s.subrange(i as int, s.len() as int),
    decreases s.len() - i, 1int,
{
    if p.len() == 0 {
        assert(p =~= Seq::<char>::empty());
        lemma_replace_empty_same(s, i);
    } else {
        lemma_find_from(s, p, i);
        match find_from(s, p, i) {
            None => {},
            Some(j) => {
                lemma_replace_same(s, p, j + p.len());
                assert(s.subrange(i as int, j as int) + p + s.subrange(j + p.len() as int, s.len() as int)
                    =~= s.subrange(i as int, s.len() as int));
            },
        }
    }
}

proof fn lemma_replace_empty_same(s: Seq<char>, i: nat)
    requires
        i <= s.len(),
    ensures
        replace_empty_from(s, Seq::empty(), i) == s.subrange(i as int, s.len() as int),
    decreases s.len() - i,
{
    if i < s.len() {
        lemma_replace_empty_same(s, i + 1);
        assert(Seq::<char>::empty() + seq![s[i as int]] + s.subrange(i + 1int, s.len() as int)
            =~= s.subrange(i as int, s.len() as int));
    } else {
        assert(s.subrange(i as int, s.len() as int) =~= Seq::<char>::empty());
    }
}

/// Replacing a nonempty text that does not occur changes nothing.
/// Replacing a pattern that occurs exactly once, at `j`, puts the
/// replacement there and keeps the rest.
pub proof fn lemma_replace_once(s: Seq<char>, from: Seq<char>, to: Seq<char>, j: nat)
    requires
        from.len() > 0,
        occurs_at(s, from, j as int),
        forall|k: int| 0 <= k < j ==> !occurs_at(s, from, k),
        forall|k: int| j + from.len() <= k ==> !occurs_at(s, from, k),
    ensures
        replace_all(s, from, to) == s.subrange(0, j as int) + to + s.subrange((j + from.len()) as int, s.len() as int),
{
    lemma_find_from(s, from, 0);
    lemma_find_from(s, from, j + from.len());
    assert(find_from(s, from, 0) == Some(j));
    assert(find_from(s, from, j + from.len()) is None);
    let e = (j + from.len()) as nat;
    assert(e <= s.len());
    assert(replace_from(s, from, to, e) == s.subrange(e as int, s.len() as int));
    assert(replace_from(s, from, to, 0) == s.subrange(0, j as int) + to + replace_from(s, from, to, e));
}

pub proof fn lemma_replace_absent(s: Seq<char>, from: Seq<char>, to: Seq<char>)
    requires
        from.len() > 0,
        !contains(s, from),
    ensures
        replace_all(s, from, to) == s,
{
    lemma_find_contains(s, from, 0);
    assert(s.subrange(0, s.len() as int) =~= s);
}


/// No proper suffix of `g` is also a prefix of it.
pub open spec fn borderless(g: Seq<char>) -> bool {
    forall|d: int| 0 < d < g.len() ==> #[trigger] g.subrange(d, g.len() as int) != g.subrange(0, g.len() - d)
}

/// `p` occurs nowhere in `s` from index `i` on.
pub open spec fn absent_from(s: Seq<char>, p: Seq<char>, i: int) -> bool {
    forall|k: int| i <= k ==> !#[trigger] occurs_at(s, p, k)
}

proof fn lemma_find_shift(p: Seq<char>, q: Seq<char>, f: Seq<char>, k: nat)
    requires
        f.len() > 0,
    ensures
        find_from(p + q, f, p.len() + k) == match find_from(q, f, k) {
            Some(j) => Some((p.len() + j) as nat),
            None => None::<nat>,
        },
    decreases q.len() - k,
{
    let t = p + q;
    if k + f.len() > q.len() {
    } else {
        assert(t.subrange(p.len() + k as int, p.len() + k + f.len() as int) =~= q.subrange(k as int, k + f.len() as int));
        if occurs_at(q, f, k as int) {
        } else {
            lemma_find_shift(p, q, f, k + 1);
            assert(p.len() + (k + 1) == (p.len() + k) + 1);
        }
    }
}

proof fn lemma_replace_shift(p: Seq<char>, q: Seq<char>, f: Seq<char>, g: Seq<char>, k: nat)
    requires
        f.len() > 0,
        k <= q.len(),
    ensures
        replace_from(p + q, f, g, p.len() + k) == replace_from(q, f, g, k),
    decreases q.len() - k,
{
    let t = p + q;
    lemma_find_shift(p, q, f, k);
    lemma_find_from(q, f, k);
    match find_from(q, f, k) {
        None => {
            assert(t.subrange(p.len() + k as int, t.len() as int) =~= q.subrange(k as int, q.len() as int));
        },
        Some(j) => {
            lemma_replace_shift(p, q, f, g, j + f.len());
            assert(t.subrange(p.len() + k as int, p.len() + j as int) =~= q.subrange(k as int, j as int));
            assert((p.len() + j) as nat + f.len() == p.len() + (j + f.len()));
        },
    }
}

proof fn lemma_find_first(s: Seq<char>, p: Seq<char>, m: int)
    requires
        p.len() > 0,
        occurs_at(s, p, m),
        forall|k: int| 0 <= k < m ==> !#[trigger] occurs_at(s, p, k),
    ensures
        find_from(s, p, 0) == Some(m as nat),
{
    lemma_find_from(s, p, 0);
    match find_from(s, p, 0) {
        None => {
            assert(!occurs_at(s, p, m));
        },
        Some(j) => {
            if j < m {
                assert(!occurs_at(s, p, j as int));
            } else if j > m {
                assert(!occurs_at(s, p, m));
            }
        },
    }
}

/// Replacing `f` by `g` and then `g` by `f` gives the text back, where `g`
/// did not occur in it and overlaps no shifted copy of itself.
pub proof fn lemma_replace_round_trip(s: Seq<char>, f: Seq<char>, g: Seq<char>, i: nat)
    requires
        f.len() > 0,
        g.len() > 0,
        borderless(g),
        i <= s.len(),
        absent_from(s, g, i as int),
    ensures
        replace_from(replace_from(s, f, g, i), g, f, 0) == s.subrange(i as int, s.len() as int),
    decreases s.len() - i,
{
    let t = replace_from(s, f, g, i);
    lemma_find_from(s, f, i);
    match find_from(s, f, i) {
        None => {
            assert(t == s.subrange(i as int, s.len() as int));
            assert forall|k: int| 0 <= k implies !#[trigger] occurs_at(t, g, k) by {
                if occurs_at(t, g, k) {
                    assert(s.subrange(i + k, i + k + g.len()) =~= t.subrange(k, k + g.len()));
                    assert(occurs_at(s, g, i + k));
                }
            }
            lemma_find_from(t, g, 0);
            assert(t.subrange(0, t.len() as int) =~= t);
        },
        Some(j) => {
            let pre = s.subrange(i as int, j as int);
            let rest = replace_from(s, f, g, j + f.len());
            assert(t == pre + g + rest);
            let m = j - i;
            assert((pre + g + rest).subrange(m, m + g.len()) =~= g);
            assert forall|k: int| 0 <= k < m implies !#[trigger] occurs_at(t, g, k) by {
                if occurs_at(t, g, k) {
                    if k + g.len() <= m {
                        assert(t.subrange(k, k + g.len()) =~= s.subrange(i + k, i + k + g.len()));
                        assert(occurs_at(s, g, i + k));
                    } else {
                        let d = m - k;
                        assert(0 < d < g.len());
                        assert(g.subrange(d, g.len() as int) =~= t.subrange(m, k + g.len()));
                        assert(t.subrange(k, k + g.len()).subrange(d, g.len() as int) =~= t.subrange(m, k + g.len()));
                        assert(g.subrange(0, g.len() - d) =~= t.subrange(m, k + g.len()));
                        assert(g.subrange(d, g.len() as int) == g.subrange(0, g.len() - d));
                    }
                }
            }
            lemma_find_first(t, g, m);
            lemma_replace_round_trip(s, f, g, j + f.len());
            assert(pre + g + rest == (pre + g) + rest);
            lemma_replace_shift(pre + g, rest, g, f, 0);
            assert((pre + g).len() + 0 == m + g.len());
            assert(t.subrange(0, m) =~= pre);
            assert(s.subrange(j as int, j + f.len() as int) =~= f);
            assert(pre + f + s.subrange(j + f.len() as int, s.len() as int) =~= s.subrange(i as int, s.len() as int));
        },
    }
}

/// No character of `s` is `c`.
pub open spec fn no_char(s: Seq<char>, c: char) -> bool {
    forall|i: int| 0 <= i < s.len() ==> s[i] != c
}

proof fn lemma_no_newline_find(s: Seq<char>, k: nat)
    requires
        no_char(s, '\n'),
    ensures
        find_from(s, seq!['\n'], k) is None,
{
    lemma_find_from(s, seq!['\n'], k);
    if let Some(j) = find_from(s, seq!['\n'], k) {
        assert(s.subrange(j as int, j + 1int) == seq!['\n']);
        assert(s[j as int] == s.subrange(j as int, j + 1int)[0]);
    }
}

proof fn lemma_lines_shift(p: Seq<char>, q: Seq<char>, k: nat)
    ensures
        lines_from(p + q, p.len() + k) == lines_from(q, k),
    decreases q.len() - k,
{
    let t = p + q;
    if k < q.len() {
        lemma_find_shift(p, q, seq!['\n'], k);
        lemma_find_from(q, seq!['\n'], k);
        match find_from(q, seq!['\n'], k) {
            None => {
                assert(t.subrange(p.len() + k as int, t.len() as int) =~= q.subrange(k as int, q.len() as int));
            },
            Some(j) => {
                lemma_lines_shift(p, q, j + 1);
                assert(t.subrange(p.len() + k as int, p.len() + j as int) =~= q.subrange(k as int, j as int));
                assert((p.len() + j) as nat + 1 == p.len() + (j + 1));
            },
        }
    }
}

proof fn lemma_join_front(parts: Seq<Seq<char>>, sep: Seq<char>)
    requires
        parts.len() >= 2,
    ensures
        join(parts, sep) == parts[0] + sep + join(parts.drop_first(), sep),
    decreases parts.len(),
{
    let dl = parts.drop_last();
    let df = parts.drop_first();
    if parts.len() == 2 {
        assert(dl.len() == 1 && dl[0] == parts[0]);
        assert(join(dl, sep) == parts[0]);
        assert(df.len() == 1 && df[0] == parts[1]);
        assert(join(df, sep) == parts[1]);
        assert(join(parts, sep) == join(dl, sep) + sep + parts.last());
    } else {
        lemma_join_front(dl, sep);
        assert(dl.drop_first() =~= df.drop_last());
        assert(df.last() == parts.last());
        assert(dl[0] == parts[0]);
        assert(join(df, sep) == join(df.drop_last(), sep) + sep + df.last());
        assert(join(parts, sep) == join(dl, sep) + sep + parts.last());
        assert(join(parts, sep) =~= parts[0] + sep + join(df, sep));
    }
}

/// Splitting the lines joined with `\n` gives them back, when no line holds
/// `\n` or `\r` and the last one is not empty.
pub proof fn lemma_lines_of_join(ls: Seq<Seq<char>>)
    requires
        forall|i: int| 0 <= i < ls.len() ==> no_char(#[trigger] ls[i], '\n') && no_char(ls[i], '\r'),
        ls.len() > 0 ==> ls.last().len() > 0,
    ensures
        lines(join(ls, seq!['\n'])) == ls,
    decreases ls.len(),
{
    let nl = seq!['\n'];
    if ls.len() == 0 {
    } else if ls.len() == 1 {
        let l = ls[0];
        assert(join(ls, nl) == l);
        lemma_no_newline_find(l, 0);
        assert(l.subrange(0, l.len() as int) =~= l);
        assert(lines(l) =~= seq![l]);
        assert(ls =~= seq![l]);
    } else {
        let l = ls[0];
        let rest = ls.drop_first();
        assert forall|i: int| 0 <= i < rest.len() implies no_char(#[trigger] rest[i], '\n') && no_char(rest[i], '\r') by {
            assert(rest[i] == ls[i + 1]);
        }
        assert(rest.last() == ls.last());
        lemma_lines_of_join(rest);
        lemma_join_front(ls, nl);
        let s = join(ls, nl);
        assert(s == (l + nl) + join(rest, nl));
        assert(s =~= l + nl + join(rest, nl));
        assert forall|k: int| 0 <= k < l.len() implies !#[trigger] occurs_at(s, nl, k) by {
            assert(s[k] == l[k]);
            if occurs_at(s, nl, k) {
                assert(s.subrange(k, k + 1)[0] == s[k]);
            }
        }
        assert(s.subrange(l.len() as int, l.len() + 1int) =~= nl);
        lemma_find_first(s, nl, l.len() as int);
        assert(s.subrange(0, l.len() as int) =~= l);
        if l.len() > 0 {
            assert(l[l.len() - 1] != '\r');
        }
        assert(strip_cr(l) == l);
        lemma_lines_shift(l + nl, join(rest, nl), 0);
        assert((l + nl).len() + 0 == l.len() + 1);
        assert(lines(s) =~= seq![l] + rest);
        assert(seq![l] + rest =~= ls);
    }
}

/// Replacing one text by another of the same length keeps the length, and
/// adds no character that neither the text nor the replacement holds.
pub proof fn lemma_replace_keeps(s: Seq<char>, f: Seq<char>, g: Seq<char>, i: nat, c: char)
    requires
        f.len() > 0,
        f.len() == g.len(),
        i <= s.len(),
    ensures
        replace_from(s, f, g, i).len() == s.len() - i,
        no_char(s, c) && no_char(g, c) ==> no_char(replace_from(s, f, g, i), c),
    decreases s.len() - i,
{
    lemma_find_from(s, f, i);
    match find_from(s, f, i) {
        None => {},
        Some(j) => {
            lemma_replace_keeps(s, f, g, j + f.len(), c);
            let r = replace_from(s, f, g, i);
            let a = s.subrange(i as int, j as int);
            let rest = replace_from(s, f, g, j + f.len());
            assert(r == a + g + rest);
            if no_char(s, c) && no_char(g, c) {
                assert forall|k: int| 0 <= k < r.len() implies r[k] != c by {
                    if k < a.len() {
                        assert(r[k] == s[i + k]);
                    } else if k < a.len() + g.len() {
                        assert(r[k] == g[k - a.len()]);
                    } else {
                        assert(r[k] == rest[k - a.len() - g.len()]);
                    }
                }
            }
        },
    }
}

/// Replacing a text that occurs leaves its replacement in the result.
pub proof fn lemma_replace_contains(s: Seq<char>, f: Seq<char>, g: Seq<char>)
    requires
        f.len() > 0,
        contains(s, f),
    ensures
        contains(replace_all(s, f, g), g),
{
    lemma_find_contains(s, f, 0);
    lemma_find_from(s, f, 0);
    let j = find_from(s, f, 0)->0;
    let r = replace_all(s, f, g);
    let a = s.subrange(0, j as int);
    assert(r == a + g + replace_from(s, f, g, j + f.len()));
    assert(r.subrange(j as int, j + g.len() as int) =~= g);
    assert(occurs_at(r, g, j as int));
}

/// No line of a text holds `\n`.
pub proof fn lemma_lines_no_newline(s: Seq<char>, i: nat)
    ensures
        forall|k: int| 0 <= k < lines_from(s, i).len() ==> no_char(#[trigger] lines_from(s, i)[k], '\n'),
    decreases s.len() - i,
{
    if i < s.len() {
        lemma_find_from(s, seq!['\n'], i);
        match find_from(s, seq!['\n'], i) {
            None => {
                let l = s.subrange(i as int, s.len() as int);
                assert forall|x: int| 0 <= x < l.len() implies l[x] != '\n' by {
                    if l[x] == '\n' {
                        assert(s.subrange(i + x, i + x + 1) =~= seq!['\n']);
                        assert(occurs_at(s, seq!['\n'], i + x));
                    }
                }
                assert(lines_from(s, i) =~= seq![l]);
            },
            Some(j) => {
                if i <= j < s.len() {
                    lemma_lines_no_newline(s, j + 1);
                    let l = s.subrange(i as int, j as int);
                    assert forall|x: int| 0 <= x < l.len() implies l[x] != '\n' by {
                        if l[x] == '\n' {
                            assert(s.subrange(i + x, i + x + 1) =~= seq!['\n']);
                            assert(occurs_at(s, seq!['\n'], i + x));
                        }
                    }
                    let sl = strip_cr(l);
                    assert forall|x: int| 0 <= x < sl.len() implies sl[x] != '\n' by {
                        assert(sl[x] == l[x]);
                    }
                    let rest = lines_from(s, j + 1);
                    assert(lines_from(s, i) == seq![sl] + rest);
                    assert forall|k: int| 0 <= k < lines_from(s, i).len() implies no_char(
                        #[trigger] lines_from(s, i)[k],
                        '\n',
                    ) by {
                        if k > 0 {
                            assert(lines_from(s, i)[k] == rest[k - 1]);
                        }
                    }
                }
            },
        }
    }
}

/// An ASCII text takes one byte per character.
pub proof fn lemma_ascii_utf8(s: Seq<char>)
    requires
        all_ascii(s),
    ensures
        utf8_size(s) == s.len(),
    decreases s.len(),
{
    if s.len() > 0 {
        assert(all_ascii(s.drop_last())) by {
            assert forall|i: int| 0 <= i < s.drop_last().len() implies (s.drop_last()[i] as u32) < 0x80 by {
                assert(s.drop_last()[i] == s[i]);
            }
        }
        lemma_ascii_utf8(s.drop_last());
        assert((s.last() as u32) < 0x80) by {
            assert(s.last() == s[s.len() - 1]);
        }
    }
}

/// Lowercasing keeps a text ASCII.
pub proof fn lemma_ascii_lower_ascii(s: Seq<char>)
    requires
        all_ascii(s),
    ensures
        all_ascii(s.map_values(|c: char| ascii_lower(c))),
        s.map_values(|c: char| ascii_lower(c)).len() == s.len(),
{
    let m = s.map_values(|c: char| ascii_lower(c));
    assert forall|i: int| 0 <= i < m.len() implies (m[i] as u32) < 0x80 by {
        assert(m[i] == ascii_lower(s[i]));
        assert((s[i] as u32) < 0x80);
    }
}

} // verus!
