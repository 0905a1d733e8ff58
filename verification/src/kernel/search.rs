//! Searching the notes of an index: by regular expression or literal text
//! over lines, names or paths, scored with the skim fuzzy matcher.

use vstd::prelude::*;
use fuzzy_matcher::FuzzyMatcher;
use crate::kernel::error::Error;
use crate::kernel::index::VaultIndex;
use crate::kernel::note::{fm_display, fm_get, str_views, Note};
use crate::kernel::pattern::{compile, escape, is_match, regex_error, regex_escape, regex_is_match, regex_valid, Pattern};
use crate::kernel::text::{
    chars_of, contains, contains_exec, copy_chars, join, join_exec, lemma_views_push, lines,
    lines_exec, push_all, string_of, views,
};
use crate::kernel::markdown::lemma_lines_len;
use crate::kernel::order::{lemma_insert_by_at, lemma_sort_by_contains, lemma_sort_by_sorted, sort_by, sorted_by, weak_order};

verus! {

// ---------------------------------------------------------------------------
// The fuzzy matcher
// ---------------------------------------------------------------------------

/// What `SkimMatcherV2::default().ignore_case().fuzzy_match(choice,
/// pattern)` returns: the score of the best alignment of `pattern` in
/// `choice`, or nothing when the pattern's characters do not occur in order.
pub uninterp spec fn skim_score(choice: Seq<char>, pattern: Seq<char>) -> Option<int>;

/// `fuzzy_matcher::skim::SkimMatcherV2` (case ignored), `fuzzy_match`.
/// Claimed: the result is [`skim_score`] of the arguments; a score fits
/// in an `i32` (the matcher computes it as one); an empty pattern scores
/// `Some(0)`.
#[verifier::external_body]
fn fuzzy_score(choice: &str, pattern: &str) -> (r: Option<i64>)
    ensures
        match r {
            Some(s) => skim_score(choice@, pattern@) == Some(s as int) && i32::MIN <= s <= i32::MAX,
            None => skim_score(choice@, pattern@) is None,
        },
        pattern@.len() == 0 ==> r == Some(0i64),
{
    fuzzy_matcher::skim::SkimMatcherV2::default().ignore_case().fuzzy_match(choice, pattern)
}

/// A score, or 0 when there is none.
pub open spec fn score_or_zero(o: Option<int>) -> int {
    match o {
        Some(s) => s,
        None => 0,
    }
}

// ---------------------------------------------------------------------------
// Options and results
// ---------------------------------------------------------------------------

/// Search options.
#[derive(Debug, Clone)]
pub struct SearchOptions {
    /// The query is a regular expression (else literal text).
    pub regex: bool,
    /// Letter case matters.
    pub case_sensitive: bool,
    /// Lines of context shown before and after a matching line.
    pub context_lines: usize,
    /// Match the note paths only.
    pub path_only: bool,
    /// Only notes with this tag.
    pub tag: Option<String>,
    /// Only notes whose property (key, value) display text contains the value.
    pub property: Option<(String, String)>,
}

impl Default for SearchOptions {
    /// Literal, case-insensitive, two lines of context, no filters.
    fn default() -> (r: Self)
        ensures
            !r.regex,
            !r.case_sensitive,
            r.context_lines == 2,
            !r.path_only,
            r.tag is None,
            r.property is None,
    {
        SearchOptions {
            regex: false,
            case_sensitive: false,
            context_lines: 2,
            path_only: false,
            tag: None,
            property: None,
        }
    }
}

/// A matched line in search results.
#[derive(Debug, Clone)]
pub struct SearchMatch {
    /// Line number from 1 (0 for a match on the note's name).
    pub line_num: usize,
    /// The matching line (or the name).
    pub line: String,
    /// The lines before, joined with `\n`.
    pub context_before: Option<String>,
    /// The lines after, joined with `\n`.
    pub context_after: Option<String>,
}

/// A note that matched, with its score and matching lines.
#[derive(Debug)]
pub struct SearchResult<'a> {
    pub note: &'a Note,
    pub score: i64,
    pub matches: Vec<SearchMatch>,
}

/// A match as plain values.
pub struct MatchSpec {
    pub line_num: nat,
    pub line: Seq<char>,
    pub before: Option<Seq<char>>,
    pub after: Option<Seq<char>>,
}

/// A result as plain values.
pub struct HitSpec {
    pub note: Note,
    pub score: int,
    pub matches: Seq<MatchSpec>,
}

pub open spec fn opt_str(o: Option<String>) -> Option<Seq<char>> {
    match o {
        Some(s) => Some(s@),
        None => None,
    }
}

pub open spec fn match_view(m: SearchMatch) -> MatchSpec {
    MatchSpec {
        line_num: m.line_num as nat,
        line: m.line@,
        before: opt_str(m.context_before),
        after: opt_str(m.context_after),
    }
}

pub open spec fn match_views(v: Seq<SearchMatch>) -> Seq<MatchSpec> {
    v.map_values(|m: SearchMatch| match_view(m))
}

pub open spec fn hit_view(r: SearchResult) -> HitSpec {
    HitSpec { note: *r.note, score: r.score as int, matches: match_views(r.matches@) }
}

pub open spec fn hit_views(v: Seq<SearchResult>) -> Seq<HitSpec> {
    v.map_values(|r: SearchResult| hit_view(r))
}

/// Results are sorted by score, highest first.
pub open spec fn hit_before() -> spec_fn(HitSpec, HitSpec) -> bool {
    |a: HitSpec, b: HitSpec| a.score > b.score
}

// ---------------------------------------------------------------------------
// What a search finds
// ---------------------------------------------------------------------------

/// `(?i)`.
pub open spec fn ignore_case_flag() -> Seq<char> {
    seq!['(', '?', 'i', ')']
}

/// The pattern searched for: `(?i)` unless case matters, then the query
/// as given (regex) or escaped (literal).
pub open spec fn search_pattern(query: Seq<char>, regex: bool, case_sensitive: bool) -> Seq<char> {
    (if case_sensitive {
        Seq::empty()
    } else {
        ignore_case_flag()
    }) + (if regex {
        query
    } else {
        regex_escape(query)
    })
}

/// The `ctx` lines before line `i`, when there are that many.
pub open spec fn before_ctx(ls: Seq<Seq<char>>, i: nat, ctx: nat) -> Option<Seq<char>> {
    if ctx > 0 && i >= ctx {
        Some(join(ls.subrange(i - ctx, i as int), seq!['\n']))
    } else {
        None
    }
}

/// The `ctx` lines after line `i`, when there are that many.
pub open spec fn after_ctx(ls: Seq<Seq<char>>, i: nat, ctx: nat) -> Option<Seq<char>> {
    if ctx > 0 && i + ctx < ls.len() {
        Some(join(ls.subrange(i + 1int, i + ctx + 1int), seq!['\n']))
    } else {
        None
    }
}

/// The match for line `i` (counted from 0).
pub open spec fn line_match(ls: Seq<Seq<char>>, i: nat, ctx: nat) -> MatchSpec {
    MatchSpec { line_num: i + 1, line: ls[i as int], before: before_ctx(ls, i, ctx), after: after_ctx(ls, i, ctx) }
}

/// The matches among the first `n` lines, in order.
pub open spec fn line_matches(ls: Seq<Seq<char>>, p: Seq<char>, ctx: nat, n: nat) -> Seq<MatchSpec>
    decreases n,
{
    if n == 0 {
        Seq::empty()
    } else {
        let prev = line_matches(ls, p, ctx, (n - 1) as nat);
        if regex_is_match(p, ls[n - 1]) {
            prev.push(line_match(ls, (n - 1) as nat, ctx))
        } else {
            prev
        }
    }
}

/// The matching lines of a note, then its name when that matches.
pub open spec fn note_matches(n: Note, p: Seq<char>, ctx: nat) -> Seq<MatchSpec> {
    let ls = lines(n.raw@);
    line_matches(ls, p, ctx, ls.len()) + (if regex_is_match(p, n.name@) {
        seq![MatchSpec { line_num: 0, line: n.name@, before: None, after: None }]
    } else {
        Seq::empty()
    })
}

/// The note passes the tag and property filters.
pub open spec fn passes_filters(n: Note, tag: Option<Seq<char>>, property: Option<(Seq<char>, Seq<char>)>) -> bool {
    &&& (tag matches Some(t) ==> str_views(n.tags@).contains(t))
    &&& (property matches Some(kv) ==> (fm_get(n.frontmatter@, kv.0) matches Some(v) && contains(
        fm_display(v),
        kv.1,
    )))
}

/// The options' filters as plain values.
pub open spec fn opt_tag(o: SearchOptions) -> Option<Seq<char>> {
    opt_str(o.tag)
}

pub open spec fn opt_property(o: SearchOptions) -> Option<(Seq<char>, Seq<char>)> {
    match o.property {
        Some(kv) => Some((kv.0@, kv.1@)),
        None => None,
    }
}

/// What one note contributes: with `path_only`, a result scored by the
/// fuzzy match of the query on the path when the pattern matches the path;
/// else a result when some line or the name matches, scored by the fuzzy
/// match on the name plus ten per match.
pub open spec fn hit_for(n: Note, query: Seq<char>, p: Seq<char>, o: SearchOptions) -> Option<HitSpec> {
    if !passes_filters(n, opt_tag(o), opt_property(o)) {
        None
    } else if o.path_only {
        if regex_is_match(p, n.path@) {
            Some(HitSpec { note: n, score: score_or_zero(skim_score(n.path@, query)), matches: Seq::empty() })
        } else {
            None
        }
    } else {
        let ms = note_matches(n, p, o.context_lines as nat);
        if ms.len() == 0 {
            None
        } else {
            Some(HitSpec { note: n, score: score_or_zero(skim_score(n.name@, query)) + ms.len() * 10, matches: ms })
        }
    }
}

/// The results of the notes, in note order.
pub open spec fn hits(notes: Seq<Note>, query: Seq<char>, p: Seq<char>, o: SearchOptions) -> Seq<HitSpec>
    decreases notes.len(),
{
    if notes.len() == 0 {
        Seq::empty()
    } else {
        let prev = hits(notes.drop_last(), query, p, o);
        match hit_for(notes.last(), query, p, o) {
            Some(h) => prev.push(h),
            None => prev,
        }
    }
}

/// Notes no longer than this can be scored without overflow.
pub open spec fn searchable(n: Note) -> bool {
    n.raw@.len() < 0x100_0000_0000_0000
}

/// Whether the note is small enough to search.
pub fn searchable_exec(n: &Note) -> (r: bool)
    ensures
        r == searchable(*n),
{
    (chars_of(n.raw.as_str()).len() as u64) < 0x100_0000_0000_0000u64
}

// ---------------------------------------------------------------------------
// Executable search
// ---------------------------------------------------------------------------

fn sub_lines(ls: &Vec<Vec<char>>, a: usize, b: usize) -> (r: Vec<Vec<char>>)
    requires
        a <= b <= ls.len(),
    ensures
        views(r@) == views(ls@).subrange(a as int, b as int),
{
    let mut out: Vec<Vec<char>> = Vec::new();
    let mut i: usize = a;
    while i < b
        invariant
            a <= i <= b <= ls.len(),
            views(out@) == views(ls@).subrange(a as int, i as int),
        decreases b - i,
    {
        let c = copy_chars(&ls[i]);
        proof {
            lemma_views_push(out@, c);
        }
        out.push(c);
        assert(views(out@) =~= views(ls@).subrange(a as int, i + 1));
        i = i + 1;
    }
    out
}

proof fn lemma_line_matches_len(ls: Seq<Seq<char>>, p: Seq<char>, ctx: nat, n: nat)
    ensures
        line_matches(ls, p, ctx, n).len() <= n,
    decreases n,
{
    if n > 0 {
        lemma_line_matches_len(ls, p, ctx, (n - 1) as nat);
    }
}

fn note_matches_exec(n: &Note, pt: &Pattern, ctx: usize) -> (r: Vec<SearchMatch>)
    ensures
        match_views(r@) == note_matches(*n, pt@, ctx as nat),
        r@.len() <= n.raw@.len() + 1,
{
    let raw = chars_of(n.raw.as_str());
    let ls = lines_exec(&raw);
    let ghost lv = views(ls@);
    let nl = vec!['\n'];
    assert(nl@ =~= seq!['\n']);
    let mut out: Vec<SearchMatch> = Vec::new();
    let mut i: usize = 0;
    while i < ls.len()
        invariant
            i <= ls.len(),
            lv == views(ls@),
            lv == lines(n.raw@),
            nl@ == seq!['\n'],
            match_views(out@) == line_matches(lv, pt@, ctx as nat, i as nat),
        decreases ls.len() - i,
    {
        let line = string_of(&ls[i]);
        assert(lv[i as int] == line@);
        if is_match(pt, line.as_str()) {
            let before = if ctx > 0 && i >= ctx {
                Some(string_of(&join_exec(&sub_lines(&ls, i - ctx, i), &nl)))
            } else {
                None
            };
            let after = if ctx > 0 && ctx < ls.len() - i {
                Some(string_of(&join_exec(&sub_lines(&ls, i + 1, i + ctx + 1), &nl)))
            } else {
                None
            };
            let m = SearchMatch { line_num: i + 1, line, context_before: before, context_after: after };
            assert(match_view(m) == line_match(lv, i as nat, ctx as nat));
            out.push(m);
        }
        assert(match_views(out@) =~= line_matches(lv, pt@, ctx as nat, (i + 1) as nat));
        i = i + 1;
    }
    proof {
        lemma_lines_len(n.raw@, 0);
        lemma_line_matches_len(lv, pt@, ctx as nat, lv.len());
    }
    let ghost before_name = match_views(out@);
    if is_match(pt, n.name.as_str()) {
        out.push(SearchMatch { line_num: 0, line: n.name.clone(), context_before: None, context_after: None });
        assert(match_views(out@) =~= before_name + seq![MatchSpec { line_num: 0, line: n.name@, before: None, after: None }]);
    } else {
        assert(match_views(out@) =~= before_name + Seq::<MatchSpec>::empty());
    }
    out
}

fn passes_filters_exec(n: &Note, tag: &Option<String>, property: &Option<(String, String)>) -> (r: bool)
    ensures
        r == passes_filters(
            *n,
            opt_str(*tag),
            match *property {
                Some(kv) => Some((kv.0@, kv.1@)),
                None => None,
            },
        ),
{
    match tag {
        Some(t) => {
            if !n.has_tag(t.as_str()) {
                return false;
            }
        },
        None => {},
    }
    match property {
        Some(kv) => match n.property(kv.0.as_str()) {
            Some(v) => contains_exec(&chars_of(v.as_str()), &chars_of(kv.1.as_str())),
            None => false,
        },
        None => true,
    }
}

fn hit_exec<'a>(n: &'a Note, query: &str, pt: &Pattern, o: &SearchOptions) -> (r: Option<SearchResult<'a>>)
    requires
        searchable(*n),
    ensures
        match hit_for(*n, query@, pt@, *o) {
            Some(h) => r matches Some(x) && hit_view(x) == h,
            None => r is None,
        },
{
    if !passes_filters_exec(n, &o.tag, &o.property) {
        return None;
    }
    if o.path_only {
        if is_match(pt, n.path.as_str()) {
            let s = match fuzzy_score(n.path.as_str(), query) {
                Some(s) => s,
                None => 0,
            };
            let v: Vec<SearchMatch> = Vec::new();
            let h = SearchResult { note: n, score: s, matches: v };
            assert(match_views(h.matches@) =~= Seq::<MatchSpec>::empty());
            return Some(h);
        }
        return None;
    }
    let ms = note_matches_exec(n, pt, o.context_lines);
    if ms.len() == 0 {
        return None;
    }
    let s = match fuzzy_score(n.name.as_str(), query) {
        Some(s) => s,
        None => 0,
    };
    let k: i64 = ms.len() as i64;
    let score = s + k * 10;
    Some(SearchResult { note: n, score, matches: ms })
}

fn score_insert_pos(v: &Vec<SearchResult>, c: i64) -> (r: usize)
    ensures
        r <= v.len(),
        forall|j: int| r <= j < v.len() ==> (#[trigger] hit_views(v@)[j]).score < c,
        r > 0 ==> hit_views(v@)[r - 1].score >= c,
{
    let mut r = v.len();
    while r > 0 && v[r - 1].score < c
        invariant
            r <= v.len(),
            forall|j: int| r <= j < v.len() ==> (#[trigger] hit_views(v@)[j]).score < c,
        decreases r,
    {
        r = r - 1;
    }
    r
}

/// Searches the notes of the index. The pattern is the query (escaped
/// unless `regex`), case-insensitive unless `case_sensitive`; results are
/// sorted by score, highest first, ties in note order.
pub fn search<'a>(index: &'a VaultIndex, query: &str, opts: &SearchOptions) -> (r: Result<Vec<SearchResult<'a>>, Error>)
    requires
        forall|i: int| 0 <= i < index.notes@.len() ==> searchable(#[trigger] index.notes@[i]),
    ensures
        ({
            let p = search_pattern(query@, opts.regex, opts.case_sensitive);
            if regex_valid(p) {
                r matches Ok(v) && hit_views(v@) == sort_by(hits(index.notes@, query@, p, *opts), hit_before())
            } else {
                r matches Err(e) && (e matches Error::InvalidPattern(m) && m@ == regex_error(p))
            }
        }),
{
    let mut pat: Vec<char> = if opts.case_sensitive {
        Vec::new()
    } else {
        let f = vec!['(', '?', 'i', ')'];
        assert(f@ =~= ignore_case_flag());
        f
    };
    if opts.regex {
        push_all(&mut pat, &chars_of(query));
    } else {
        push_all(&mut pat, &chars_of(escape(query).as_str()));
    }
    let ghost p = search_pattern(query@, opts.regex, opts.case_sensitive);
    assert(pat@ =~= p);
    let pt = match compile(string_of(&pat).as_str()) {
        Ok(pt) => pt,
        Err(e) => return Err(e),
    };
    let ghost notes = index.notes@;
    let mut out: Vec<SearchResult> = Vec::new();
    let mut i: usize = 0;
    while i < index.notes.len()
        invariant
            i <= index.notes.len(),
            notes == index.notes@,
            pt@ == p,
            forall|k: int| 0 <= k < index.notes@.len() ==> searchable(#[trigger] index.notes@[k]),
            hit_views(out@) == sort_by(hits(notes.subrange(0, i as int), query@, p, *opts), hit_before()),
        decreases index.notes.len() - i,
    {
        proof {
            assert(notes.subrange(0, i + 1).drop_last() =~= notes.subrange(0, i as int));
        }
        match hit_exec(&index.notes[i], query, &pt, opts) {
            Some(h) => {
                let pos = score_insert_pos(&out, h.score);
                let ghost before = hit_views(out@);
                let ghost hv = hit_view(h);
                proof {
                    lemma_insert_by_at(before, hv, hit_before(), pos as int);
                    let prev_h = hits(notes.subrange(0, i as int), query@, p, *opts);
                    let cur_h = hits(notes.subrange(0, i + 1), query@, p, *opts);
                    assert(notes.subrange(0, i + 1).last() == notes[i as int]);
                    assert(cur_h == prev_h.push(hv));
                    assert(cur_h.drop_last() =~= prev_h);
                }
                out.insert(pos, h);
                assert(hit_views(out@) =~= before.subrange(0, pos as int).push(hv) + before.subrange(
                    pos as int,
                    before.len() as int,
                ));
            },
            None => {
                assert(notes.subrange(0, i + 1).last() == notes[i as int]);
            },
        }
        i = i + 1;
    }
    assert(notes.subrange(0, index.notes.len() as int) =~= notes);
    Ok(out)
}

/// The notes whose name the query fuzzy-matches, with the score.
pub open spec fn fuzzy_hits(notes: Seq<Note>, query: Seq<char>) -> Seq<(Note, int)>
    decreases notes.len(),
{
    if notes.len() == 0 {
        Seq::empty()
    } else {
        let prev = fuzzy_hits(notes.drop_last(), query);
        match skim_score(notes.last().name@, query) {
            Some(s) => prev.push((notes.last(), s)),
            None => prev,
        }
    }
}

/// Fuzzy matches are sorted by score, highest first.
pub open spec fn pair_before() -> spec_fn((Note, int), (Note, int)) -> bool {
    |a: (Note, int), b: (Note, int)| a.1 > b.1
}

pub open spec fn scored_views(v: Seq<(&Note, i64)>) -> Seq<(Note, int)> {
    v.map_values(|p: (&Note, i64)| (*p.0, p.1 as int))
}

/// Quick fuzzy search by note name: the matching notes, best first (ties
/// in note order).
pub fn fuzzy_find<'a>(index: &'a VaultIndex, query: &str) -> (r: Vec<(&'a Note, i64)>)
    ensures
        scored_views(r@) == sort_by(fuzzy_hits(index.notes@, query@), pair_before()),
{
    let ghost notes = index.notes@;
    let mut out: Vec<(&Note, i64)> = Vec::new();
    let mut i: usize = 0;
    while i < index.notes.len()
        invariant
            i <= index.notes.len(),
            notes == index.notes@,
            scored_views(out@) == sort_by(fuzzy_hits(notes.subrange(0, i as int), query@), pair_before()),
        decreases index.notes.len() - i,
    {
        proof {
            assert(notes.subrange(0, i + 1).drop_last() =~= notes.subrange(0, i as int));
        }
        let n = &index.notes[i];
        match fuzzy_score(n.name.as_str(), query) {
            Some(s) => {
                let mut pos = out.len();
                while pos > 0 && out[pos - 1].1 < s
                    invariant
                        pos <= out.len(),
                        forall|j: int| pos <= j < out.len() ==> (#[trigger] scored_views(out@)[j]).1 < s,
                    decreases pos,
                {
                    pos = pos - 1;
                }
                let ghost before = scored_views(out@);
                let ghost x = (*n, s as int);
                proof {
                    lemma_insert_by_at(before, x, pair_before(), pos as int);
                    let prev_h = fuzzy_hits(notes.subrange(0, i as int), query@);
                    let cur_h = fuzzy_hits(notes.subrange(0, i + 1), query@);
                    assert(notes.subrange(0, i + 1).last() == notes[i as int]);
                    assert(cur_h == prev_h.push(x));
                    assert(cur_h.drop_last() =~= prev_h);
                }
                out.insert(pos, (n, s));
                assert(scored_views(out@) =~= before.subrange(0, pos as int).push(x) + before.subrange(
                    pos as int,
                    before.len() as int,
                ));
            },
            None => {
                assert(notes.subrange(0, i + 1).last() == notes[i as int]);
            },
        }
        i = i + 1;
    }
    assert(notes.subrange(0, index.notes.len() as int) =~= notes);
    out
}


// ---------------------------------------------------------------------------
// Laws
// ---------------------------------------------------------------------------

proof fn lemma_hits_found(notes: Seq<Note>, query: Seq<char>, p: Seq<char>, o: SearchOptions, h: HitSpec)
    requires
        hits(notes, query, p, o).contains(h),
    ensures
        notes.contains(h.note),
        passes_filters(h.note, opt_tag(o), opt_property(o)),
        !o.path_only ==> h.matches.len() > 0,
    decreases notes.len(),
{
    let d = notes.drop_last();
    let prev = hits(d, query, p, o);
    let k = choose|k: int| 0 <= k < hits(notes, query, p, o).len() && hits(notes, query, p, o)[k] == h;
    if k < prev.len() {
        assert(prev[k] == h);
        lemma_hits_found(d, query, p, o, h);
        let m = choose|m: int| 0 <= m < d.len() && d[m] == h.note;
        assert(notes[m] == h.note);
    } else {
        assert(notes[notes.len() - 1] == h.note);
    }
}

/// Search results come highest score first; each is a note of the index
/// that passes the tag and property filters, and outside `path_only` it
/// has at least one matching line or name.
pub proof fn law_search_results(notes: Seq<Note>, query: Seq<char>, p: Seq<char>, o: SearchOptions)
    ensures
        sorted_by(sort_by(hits(notes, query, p, o), hit_before()), hit_before()),
        forall|i: int, j: int|
            0 <= i < j < sort_by(hits(notes, query, p, o), hit_before()).len() ==> (#[trigger] sort_by(
                hits(notes, query, p, o),
                hit_before(),
            )[i]).score >= (#[trigger] sort_by(hits(notes, query, p, o), hit_before())[j]).score,
        forall|h: HitSpec| #[trigger] sort_by(hits(notes, query, p, o), hit_before()).contains(h) ==> {
            &&& notes.contains(h.note)
            &&& passes_filters(h.note, opt_tag(o), opt_property(o))
            &&& (!o.path_only ==> h.matches.len() > 0)
        },
{
    assert(weak_order(hit_before()));
    lemma_sort_by_sorted(hits(notes, query, p, o), hit_before());
    let r = sort_by(hits(notes, query, p, o), hit_before());
    assert forall|i: int, j: int| 0 <= i < j < r.len() implies (#[trigger] r[i]).score >= (#[trigger] r[j]).score by {
        assert(!hit_before()(r[j], r[i]));
    }
    assert forall|h: HitSpec| #[trigger] sort_by(hits(notes, query, p, o), hit_before()).contains(h) implies {
        &&& notes.contains(h.note)
        &&& passes_filters(h.note, opt_tag(o), opt_property(o))
        &&& (!o.path_only ==> h.matches.len() > 0)
    } by {
        lemma_sort_by_contains(hits(notes, query, p, o), hit_before(), h);
        lemma_hits_found(notes, query, p, o, h);
    }
}

proof fn lemma_line_matches_complete(ls: Seq<Seq<char>>, p: Seq<char>, ctx: nat, n: nat, i: nat)
    requires
        i < n,
        regex_is_match(p, ls[i as int]),
    ensures
        line_matches(ls, p, ctx, n).contains(line_match(ls, i, ctx)),
    decreases n,
{
    let prev = line_matches(ls, p, ctx, (n - 1) as nat);
    if i == n - 1 {
        assert(line_matches(ls, p, ctx, n).last() == line_match(ls, i, ctx));
    } else {
        lemma_line_matches_complete(ls, p, ctx, (n - 1) as nat, i);
        let k = choose|k: int| 0 <= k < prev.len() && prev[k] == line_match(ls, i, ctx);
        if regex_is_match(p, ls[n - 1]) {
            assert(line_matches(ls, p, ctx, n)[k] == prev[k]);
        }
    }
}

proof fn lemma_line_matches_sound(ls: Seq<Seq<char>>, p: Seq<char>, ctx: nat, n: nat)
    ensures
        forall|k: int|
            0 <= k < line_matches(ls, p, ctx, n).len() ==> {
                let m = #[trigger] line_matches(ls, p, ctx, n)[k];
                &&& 1 <= m.line_num <= n
                &&& m == line_match(ls, (m.line_num - 1) as nat, ctx)
                &&& regex_is_match(p, ls[m.line_num - 1])
            },
    decreases n,
{
    if n > 0 {
        lemma_line_matches_sound(ls, p, ctx, (n - 1) as nat);
        let prev = line_matches(ls, p, ctx, (n - 1) as nat);
        assert forall|k: int| 0 <= k < line_matches(ls, p, ctx, n).len() implies {
            let m = #[trigger] line_matches(ls, p, ctx, n)[k];
            &&& 1 <= m.line_num <= n
            &&& m == line_match(ls, (m.line_num - 1) as nat, ctx)
            &&& regex_is_match(p, ls[m.line_num - 1])
        } by {
            if k < prev.len() {
                assert(line_matches(ls, p, ctx, n)[k] == prev[k]);
            }
        }
    }
}

proof fn lemma_hits_has(notes: Seq<Note>, query: Seq<char>, p: Seq<char>, o: SearchOptions, j: int)
    requires
        0 <= j < notes.len(),
        hit_for(notes[j], query, p, o) is Some,
    ensures
        hits(notes, query, p, o).contains(hit_for(notes[j], query, p, o)->0),
    decreases notes.len(),
{
    let d = notes.drop_last();
    let prev = hits(d, query, p, o);
    let h = hit_for(notes[j], query, p, o)->0;
    if j == notes.len() - 1 {
        assert(notes.last() == notes[j]);
        assert(hits(notes, query, p, o).last() == h);
    } else {
        assert(d[j] == notes[j]);
        lemma_hits_has(d, query, p, o, j);
        let k = choose|k: int| 0 <= k < prev.len() && prev[k] == h;
        match hit_for(notes.last(), query, p, o) {
            Some(x) => {
                assert(hits(notes, query, p, o)[k] == prev[k]);
            },
            None => {},
        }
    }
}

proof fn lemma_hits_from(notes: Seq<Note>, query: Seq<char>, p: Seq<char>, o: SearchOptions, h: HitSpec)
    requires
        hits(notes, query, p, o).contains(h),
    ensures
        exists|j: int| 0 <= j < notes.len() && hit_for(#[trigger] notes[j], query, p, o) == Some(h),
    decreases notes.len(),
{
    let d = notes.drop_last();
    let prev = hits(d, query, p, o);
    let k = choose|k: int| 0 <= k < hits(notes, query, p, o).len() && hits(notes, query, p, o)[k] == h;
    if k < prev.len() {
        assert(prev[k] == h);
        lemma_hits_from(d, query, p, o, h);
        let j = choose|j: int| 0 <= j < d.len() && hit_for(#[trigger] d[j], query, p, o) == Some(h);
        assert(notes[j] == d[j]);
    } else {
        assert(notes[notes.len() - 1] == notes.last());
    }
}

/// Every line of a note that the pattern matches is found: when the note
/// passes the filters and the search is not on paths only, the results hold
/// a result for that note with a match on that line (numbered from 1), the
/// last line of the note included.
pub proof fn law_search_finds_every_line(notes: Seq<Note>, query: Seq<char>, p: Seq<char>, o: SearchOptions, j: int, i: int)
    requires
        0 <= j < notes.len(),
        passes_filters(notes[j], opt_tag(o), opt_property(o)),
        !o.path_only,
        0 <= i < lines(notes[j].raw@).len(),
        regex_is_match(p, lines(notes[j].raw@)[i]),
    ensures
        exists|h: HitSpec|
            #[trigger] sort_by(hits(notes, query, p, o), hit_before()).contains(h) && h.note == notes[j]
                && exists|k: int|
                0 <= k < h.matches.len() && (#[trigger] h.matches[k]).line_num == i + 1 && h.matches[k].line
                    == lines(notes[j].raw@)[i],
{
    let n = notes[j];
    let ls = lines(n.raw@);
    let ctx = o.context_lines as nat;
    lemma_line_matches_complete(ls, p, ctx, ls.len(), i as nat);
    let lm = line_matches(ls, p, ctx, ls.len());
    let k = choose|k: int| 0 <= k < lm.len() && lm[k] == line_match(ls, i as nat, ctx);
    let ms = note_matches(n, p, ctx);
    assert(ms[k] == lm[k]);
    let h = hit_for(n, query, p, o)->0;
    assert(h.matches == ms);
    lemma_hits_has(notes, query, p, o, j);
    lemma_sort_by_contains(hits(notes, query, p, o), hit_before(), h);
    assert(h.matches[k].line_num == i + 1);
}

/// Every match a search reports is real: a match numbered `k >= 1` is line
/// `k` of its note's text and the pattern matches it; a match numbered 0 is
/// the note's name and the pattern matches it.
pub proof fn law_search_matches_sound(notes: Seq<Note>, query: Seq<char>, p: Seq<char>, o: SearchOptions, h: HitSpec, k: int)
    requires
        sort_by(hits(notes, query, p, o), hit_before()).contains(h),
        0 <= k < h.matches.len(),
    ensures
        ({
            let m = h.matches[k];
            let ls = lines(h.note.raw@);
            &&& m.line_num >= 1 ==> m.line_num <= ls.len() && m.line == ls[m.line_num - 1] && regex_is_match(p, m.line)
            &&& m.line_num == 0 ==> m.line == h.note.name@ && regex_is_match(p, m.line)
        }),
{
    lemma_sort_by_contains(hits(notes, query, p, o), hit_before(), h);
    lemma_hits_from(notes, query, p, o, h);
    let n = h.note;
    let ls = lines(n.raw@);
    let ctx = o.context_lines as nat;
    let lm = line_matches(ls, p, ctx, ls.len());
    lemma_line_matches_sound(ls, p, ctx, ls.len());
    assert(!o.path_only);
    let ms = note_matches(n, p, ctx);
    assert(h.matches == ms);
    if k < lm.len() {
        assert(ms[k] == lm[k]);
    } else {
        assert(ms[k] == MatchSpec { line_num: 0, line: n.name@, before: None, after: None });
    }
}

/// Fuzzy matches come best first.
pub proof fn law_fuzzy_sorted(notes: Seq<Note>, query: Seq<char>)
    ensures
        sorted_by(sort_by(fuzzy_hits(notes, query), pair_before()), pair_before()),
        forall|i: int, j: int|
            0 <= i < j < sort_by(fuzzy_hits(notes, query), pair_before()).len() ==> (#[trigger] sort_by(
                fuzzy_hits(notes, query),
                pair_before(),
            )[i]).1 >= (#[trigger] sort_by(fuzzy_hits(notes, query), pair_before())[j]).1,
{
    assert(weak_order(pair_before()));
    lemma_sort_by_sorted(fuzzy_hits(notes, query), pair_before());
    let r = sort_by(fuzzy_hits(notes, query), pair_before());
    assert forall|i: int, j: int| 0 <= i < j < r.len() implies (#[trigger] r[i]).1 >= (#[trigger] r[j]).1 by {
        assert(!pair_before()(r[j], r[i]));
    }
}

} // verus!
