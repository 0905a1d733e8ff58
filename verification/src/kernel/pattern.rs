//! Regular expressions given at run time (search queries, batch patterns,
//! property keys), matched with the `regex` crate.

use vstd::prelude::*;
use crate::kernel::error::Error;
use crate::kernel::text::{chars_of, replace_all as text_replace_all, replace_all_exec, string_of};

verus! {

#[verifier::external_type_specification]
#[verifier::external_body]
pub struct ExRegex(regex::Regex);

/// Whether `regex::Regex::new` accepts pattern `p`.
pub uninterp spec fn regex_valid(p: Seq<char>) -> bool;

/// The text of the error `regex::Regex::new` gives for pattern `p`.
pub uninterp spec fn regex_error(p: Seq<char>) -> Seq<char>;

/// What `Regex::is_match` returns for pattern `p` on text `t`.
pub uninterp spec fn regex_is_match(p: Seq<char>, t: Seq<char>) -> bool;

/// What `Regex::replace` returns for pattern `p` on text `t` with
/// replacement `rep` (`$` references in `rep` expanded).
pub uninterp spec fn regex_replace_first(p: Seq<char>, t: Seq<char>, rep: Seq<char>) -> Seq<char>;

/// What `Regex::replace_all` returns.
pub uninterp spec fn regex_replace_all(p: Seq<char>, t: Seq<char>, rep: Seq<char>) -> Seq<char>;

/// How many matches `Regex::find_iter` yields.
pub uninterp spec fn regex_count(p: Seq<char>, t: Seq<char>) -> nat;

/// What `regex::escape` returns.
pub uninterp spec fn regex_escape(s: Seq<char>) -> Seq<char>;

/// A compiled regular expression with the pattern it was compiled from.
pub struct Pattern {
    source: String,
    re: regex::Regex,
}

impl View for Pattern {
    type V = Seq<char>;

    closed spec fn view(&self) -> Seq<char> {
        self.source@
    }
}

/// `regex::Regex::new`: compiles `p`, or gives the error text.
#[verifier::external_body]
pub(crate) fn compile(p: &str) -> (r: Result<Pattern, Error>)
    ensures
        match r {
            Ok(pt) => regex_valid(p@) && pt@ == p@,
            Err(e) => !regex_valid(p@) && (e matches Error::InvalidPattern(m) && m@ == regex_error(p@)),
        },
{
    match regex::Regex::new(p) {
        Ok(re) => Ok(Pattern { source: p.to_string(), re }),
        Err(e) => Err(Error::InvalidPattern(e.to_string())),
    }
}

/// `Regex::is_match`.
#[verifier::external_body]
pub(crate) fn is_match(pt: &Pattern, t: &str) -> (r: bool)
    ensures
        r == regex_is_match(pt@, t@),
{
    pt.re.is_match(t)
}

/// `Regex::replace`: the first match replaced by `rep`.
#[verifier::external_body]
pub(crate) fn replace_first(pt: &Pattern, t: &str, rep: &str) -> (r: String)
    ensures
        r@ == regex_replace_first(pt@, t@, rep@),
{
    pt.re.replace(t, rep).to_string()
}

/// `Regex::replace_all`: every match replaced by `rep`.
#[verifier::external_body]
pub(crate) fn replace_all(pt: &Pattern, t: &str, rep: &str) -> (r: String)
    ensures
        r@ == regex_replace_all(pt@, t@, rep@),
{
    pt.re.replace_all(t, rep).to_string()
}

/// The number of matches of `Regex::find_iter`.
#[verifier::external_body]
pub(crate) fn count_matches(pt: &Pattern, t: &str) -> (r: usize)
    ensures
        r as nat == regex_count(pt@, t@),
{
    pt.re.find_iter(t).count()
}

/// `regex::escape`: `s` with every regex metacharacter escaped.
#[verifier::external_body]
pub(crate) fn escape(s: &str) -> (r: String)
    ensures
        r@ == regex_escape(s@),
{
    regex::escape(s)
}

/// A replacement text that `Regex::replace` and `Regex::replace_all`
/// insert as it is: every `$` doubled, since `$$` stands for one `$` there
/// and a single `$` starts a group reference.
pub open spec fn literal_replacement(rep: Seq<char>) -> Seq<char> {
    text_replace_all(rep, seq!['$'], seq!['$', '$'])
}

/// The replacement text that inserts `rep` as it is.
pub fn literal_replacement_exec(rep: &str) -> (r: String)
    ensures
        r@ == literal_replacement(rep@),
{
    let d = vec!['$'];
    let dd = vec!['$', '$'];
    assert(d@ =~= seq!['$']);
    assert(dd@ =~= seq!['$', '$']);
    string_of(&replace_all_exec(&chars_of(rep), &d, &dd))
}

} // verus!
