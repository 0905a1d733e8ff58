//! Daily notes: where the note of a date lives, what a new one holds, and
//! the listing of the daily notes folder.

use vstd::prelude::*;
use crate::kernel::clock::now_minutes;
use crate::kernel::index::pair_views;
use crate::kernel::note::{lemma_str_views_push, str_views};
use crate::kernel::order::{path_before, sort_by, sort_paths};
use crate::kernel::output::{byte_to_char, byte_to_char_exec};
use crate::kernel::paths::{extension, extension_of, join, note_name_of, path_join};
use crate::kernel::text::{
    all_ascii, chars_of, eq_exec, lemma_ascii_utf8, lemma_replace_once, occurs_at, push_all, replace_all,
    replace_all_exec, slice, string_of,
};
use crate::kernel::vault::Vault;
use crate::plugins::files::{opt_s, lit_dot_md, lit_dot_md_exec, lit_md, lit_md_exec, substitute, substituted};

verus! {

/// `YYYY-MM-DD`.
pub open spec fn lit_default_daily_format() -> Seq<char> {
    seq!['Y', 'Y', 'Y', 'Y', '-', 'M', 'M', '-', 'D', 'D']
}

pub(crate) fn lit_default_daily_format_exec() -> (r: Vec<char>)
    ensures
        r@ == lit_default_daily_format(),
{
    let v = vec!['Y', 'Y', 'Y', 'Y', '-', 'M', 'M', '-', 'D', 'D'];
    assert(v@ =~= lit_default_daily_format());
    v
}

/// `YYYY`.
pub open spec fn lit_yyyy() -> Seq<char> {
    seq!['Y', 'Y', 'Y', 'Y']
}

pub(crate) fn lit_yyyy_exec() -> (r: Vec<char>)
    ensures
        r@ == lit_yyyy(),
{
    let v = vec!['Y', 'Y', 'Y', 'Y'];
    assert(v@ =~= lit_yyyy());
    v
}

/// `MM`.
pub open spec fn lit_mm() -> Seq<char> {
    seq!['M', 'M']
}

pub(crate) fn lit_mm_exec() -> (r: Vec<char>)
    ensures
        r@ == lit_mm(),
{
    let v = vec!['M', 'M'];
    assert(v@ =~= lit_mm());
    v
}

/// `DD`.
pub open spec fn lit_dd() -> Seq<char> {
    seq!['D', 'D']
}

pub(crate) fn lit_dd_exec() -> (r: Vec<char>)
    ensures
        r@ == lit_dd(),
{
    let v = vec!['D', 'D'];
    assert(v@ =~= lit_dd());
    v
}

/// `# `.
pub open spec fn lit_heading_prefix() -> Seq<char> {
    seq!['#', ' ']
}

pub(crate) fn lit_heading_prefix_exec() -> (r: Vec<char>)
    ensures
        r@ == lit_heading_prefix(),
{
    let v = vec!['#', ' '];
    assert(v@ =~= lit_heading_prefix());
    v
}

/// `\n\n`.
pub open spec fn lit_blank_after() -> Seq<char> {
    seq!['\n', '\n']
}

pub(crate) fn lit_blank_after_exec() -> (r: Vec<char>)
    ensures
        r@ == lit_blank_after(),
{
    let v = vec!['\n', '\n'];
    assert(v@ =~= lit_blank_after());
    v
}


/// The date can be cut at bytes 4, 5, 7, 8 and 10 (the year, month and
/// day of `YYYY-MM-DD`): each is a character boundary within the text.
pub open spec fn date_cuttable(date: Seq<char>) -> bool {
    &&& byte_to_char(date, 4, 0) is Some
    &&& byte_to_char(date, 5, 0) is Some
    &&& byte_to_char(date, 7, 0) is Some
    &&& byte_to_char(date, 8, 0) is Some
    &&& byte_to_char(date, 10, 0) is Some
}

/// The characters of `date` between bytes `a` and `b`.
pub open spec fn date_part(date: Seq<char>, a: nat, b: nat) -> Seq<char> {
    let i = if a == 0 {
        0
    } else {
        byte_to_char(date, a, 0)->0
    };
    date.subrange(i as int, byte_to_char(date, b, 0)->0 as int)
}

/// The daily note's file name: the format (`YYYY-MM-DD` by default) with
/// `YYYY`, `MM` and `DD` replaced by the date's parts.
pub open spec fn daily_file_name(format: Option<Seq<char>>, date: Seq<char>) -> Seq<char> {
    let f = match format {
        Some(f) => f,
        None => lit_default_daily_format(),
    };
    replace_all(
        replace_all(replace_all(f, lit_yyyy(), date_part(date, 0, 4)), lit_mm(), date_part(date, 5, 7)),
        lit_dd(),
        date_part(date, 8, 10),
    )
}

/// The path of the daily note of `date`.
pub open spec fn daily_path(v: Vault, date: Seq<char>) -> Seq<char> {
    path_join(
        path_join(v.root@, v.daily.folder@),
        daily_file_name(
            match v.daily.format {
                Some(f) => Some(f@),
                None => None,
            },
            date,
        ) + lit_dot_md(),
    )
}

proof fn lemma_byte_to_char_ascii(s: Seq<char>, b: nat, m: nat)
    requires
        all_ascii(s),
        m <= b <= s.len(),
    ensures
        byte_to_char(s, b, m) == Some(b),
    decreases b - m,
{
    let pre = s.subrange(0, m as int);
    assert forall|i: int| 0 <= i < pre.len() implies (pre[i] as u32) < 0x80 by {
        assert(pre[i] == s[i]);
    }
    lemma_ascii_utf8(pre);
    if m < b {
        lemma_byte_to_char_ascii(s, b, m + 1);
    }
}

/// A date written `YYYY-MM-DD` in digits.
pub open spec fn iso_date(y: Seq<char>, m: Seq<char>, d: Seq<char>) -> Seq<char> {
    y + seq!['-'] + m + seq!['-'] + d
}

/// With the default format, the daily note of a `YYYY-MM-DD` date is named
/// after the date itself: the year, month and day land where the format
/// puts `YYYY`, `MM` and `DD`.
pub proof fn law_daily_default_name(y: Seq<char>, m: Seq<char>, d: Seq<char>)
    requires
        y.len() == 4,
        m.len() == 2,
        d.len() == 2,
        forall|i: int| 0 <= i < 4 ==> '0' <= #[trigger] y[i] <= '9',
        forall|i: int| 0 <= i < 2 ==> '0' <= #[trigger] m[i] <= '9',
        forall|i: int| 0 <= i < 2 ==> '0' <= #[trigger] d[i] <= '9',
    ensures
        date_cuttable(iso_date(y, m, d)),
        daily_file_name(None, iso_date(y, m, d)) == iso_date(y, m, d),
{
    let date = iso_date(y, m, d);
    assert(date.len() == 10);
    assert(forall|i: int| 0 <= i < 4 ==> #[trigger] date[i] == y[i]);
    assert(forall|i: int| 0 <= i < 2 ==> #[trigger] date[5 + i] == m[i]);
    assert(forall|i: int| 0 <= i < 2 ==> #[trigger] date[8 + i] == d[i]);
    assert(date[4] == '-' && date[7] == '-');
    assert forall|i: int| 0 <= i < date.len() implies (date[i] as u32) < 0x80 by {
        if i < 4 {
            assert(date[i] == y[i]);
        } else if 5 <= i < 7 {
            assert(date[5 + (i - 5)] == m[i - 5]);
        } else if 8 <= i {
            assert(date[8 + (i - 8)] == d[i - 8]);
        }
    }
    lemma_byte_to_char_ascii(date, 4, 0);
    lemma_byte_to_char_ascii(date, 5, 0);
    lemma_byte_to_char_ascii(date, 7, 0);
    lemma_byte_to_char_ascii(date, 8, 0);
    lemma_byte_to_char_ascii(date, 10, 0);
    assert(date_part(date, 0, 4) =~= y);
    assert(date_part(date, 5, 7) =~= m);
    assert(date_part(date, 8, 10) =~= d);
    let f = lit_default_daily_format();
    // `YYYY`
    assert(f.subrange(0, 4) =~= lit_yyyy());
    assert forall|k: int| 4 <= k implies !occurs_at(f, lit_yyyy(), k) by {
        if occurs_at(f, lit_yyyy(), k) {
            assert(f.subrange(k, k + 4)[0] == f[k]);
        }
    }
    lemma_replace_once(f, lit_yyyy(), y, 0);
    let n1 = replace_all(f, lit_yyyy(), y);
    assert(n1 =~= y + seq!['-', 'M', 'M', '-', 'D', 'D']);
    // `MM`
    assert(n1.subrange(5, 7) =~= lit_mm());
    assert forall|k: int| 0 <= k < 5 implies !occurs_at(n1, lit_mm(), k) by {
        if occurs_at(n1, lit_mm(), k) {
            assert(n1.subrange(k, k + 2)[0] == n1[k]);
            if k < 4 {
                assert(n1[k] == y[k]);
            }
        }
    }
    assert forall|k: int| 7 <= k implies !occurs_at(n1, lit_mm(), k) by {
        if occurs_at(n1, lit_mm(), k) {
            assert(n1.subrange(k, k + 2)[0] == n1[k]);
        }
    }
    lemma_replace_once(n1, lit_mm(), m, 5);
    let n2 = replace_all(n1, lit_mm(), m);
    assert(n2 =~= y + seq!['-'] + m + seq!['-', 'D', 'D']);
    // `DD`
    assert(n2.subrange(8, 10) =~= lit_dd());
    assert forall|k: int| 0 <= k < 8 implies !occurs_at(n2, lit_dd(), k) by {
        if occurs_at(n2, lit_dd(), k) {
            assert(n2.subrange(k, k + 2)[0] == n2[k]);
            if k < 4 {
                assert(n2[k] == y[k]);
            } else if 5 <= k < 7 {
                assert(n2[5 + (k - 5)] == m[k - 5]);
            }
        }
    }
    assert forall|k: int| 10 <= k implies !occurs_at(n2, lit_dd(), k) by {}
    lemma_replace_once(n2, lit_dd(), d, 8);
    let n3 = replace_all(n2, lit_dd(), d);
    assert(n3 =~= date);
}

/// Whether the date can be cut into year, month and day.
pub fn date_cuttable_exec(date: &str) -> (r: bool)
    ensures
        r == date_cuttable(date@),
{
    let d = chars_of(date);
    byte_to_char_exec(&d, 4).is_some() && byte_to_char_exec(&d, 5).is_some() && byte_to_char_exec(&d, 7).is_some()
        && byte_to_char_exec(&d, 8).is_some() && byte_to_char_exec(&d, 10).is_some()
}

/// The path of the daily note of `date`.
pub fn daily_note_path(vault: &Vault, date: &str) -> (r: String)
    requires
        date_cuttable(date@),
    ensures
        r@ == daily_path(*vault, date@),
{
    let d = chars_of(date);
    let a4 = byte_to_char_exec(&d, 4).unwrap();
    let a5 = byte_to_char_exec(&d, 5).unwrap();
    let a7 = byte_to_char_exec(&d, 7).unwrap();
    let a8 = byte_to_char_exec(&d, 8).unwrap();
    let a10 = byte_to_char_exec(&d, 10).unwrap();
    proof {
        crate::kernel::output::lemma_byte_to_char_bound(d@, 4, 0);
        crate::kernel::output::lemma_byte_to_char_bound(d@, 5, 0);
        crate::kernel::output::lemma_byte_to_char_bound(d@, 7, 0);
        crate::kernel::output::lemma_byte_to_char_bound(d@, 8, 0);
        crate::kernel::output::lemma_byte_to_char_bound(d@, 10, 0);
        if a7 < a5 {
            crate::kernel::output::lemma_utf8_prefix_mono_pub(d@, a7 as int, a5 as int);
        }
        if a10 < a8 {
            crate::kernel::output::lemma_utf8_prefix_mono_pub(d@, a10 as int, a8 as int);
        }
    }
    let f = match &vault.daily.format {
        Some(f) => chars_of(f.as_str()),
        None => lit_default_daily_format_exec(),
    };
    let n1 = replace_all_exec(&f, &lit_yyyy_exec(), &slice(&d, 0, a4));
    let n2 = replace_all_exec(&n1, &lit_mm_exec(), &slice(&d, a5, a7));
    let mut n3 = replace_all_exec(&n2, &lit_dd_exec(), &slice(&d, a8, a10));
    push_all(&mut n3, &lit_dot_md_exec());
    join(vault.daily_folder().as_str(), string_of(&n3).as_str())
}

/// A new daily note without a template: `# <date>` and a blank line.
pub open spec fn daily_default_text(date: Seq<char>) -> Seq<char> {
    lit_heading_prefix() + date + lit_blank_after()
}

/// The variables of a daily note template, in the order they are
/// substituted.
pub open spec fn daily_vars(date: Seq<char>, datetime: Seq<char>) -> Seq<(Seq<char>, Seq<char>)> {
    seq![
        (seq!['d', 'a', 't', 'e'], date),
        (seq!['t', 'i', 't', 'l', 'e'], date),
        (seq!['d', 'a', 't', 'e', 't', 'i', 'm', 'e'], datetime),
    ]
}

/// A new daily note's text: the template with its variables filled, or
/// the default text.
pub open spec fn daily_text_spec(template: Option<Seq<char>>, date: Seq<char>, datetime: Seq<char>) -> Seq<char> {
    match template {
        Some(t) => substituted(t, daily_vars(date, datetime)),
        None => daily_default_text(date),
    }
}

/// The default text of a new daily note.
pub fn daily_default(date: &str) -> (r: String)
    ensures
        r@ == daily_default_text(date@),
{
    let mut c = lit_heading_prefix_exec();
    push_all(&mut c, &chars_of(date));
    push_all(&mut c, &lit_blank_after_exec());
    string_of(&c)
}

/// A new daily note's text, the time taken from the clock.
pub fn daily_content(template: Option<&str>, date: &str) -> (r: String)
    ensures
        exists|datetime: Seq<char>| r@ == #[trigger] daily_text_spec(opt_s(template), date@, datetime),
{
    let dt = now_minutes();
    let r = match template {
        Some(t) => {
            let mut pairs: Vec<(String, String)> = Vec::new();
            let d1 = date.to_string();
            let d2 = date.to_string();
            proof {
                vstd::string::to_string_from_display_ensures_for_str(date, d1);
                vstd::string::to_string_from_display_ensures_for_str(date, d2);
            }
            let k0 = vec!['d', 'a', 't', 'e'];
            let k1 = vec!['t', 'i', 't', 'l', 'e'];
            let k2 = vec!['d', 'a', 't', 'e', 't', 'i', 'm', 'e'];
            pairs.push((string_of(&k0), d1));
            pairs.push((string_of(&k1), d2));
            pairs.push((string_of(&k2), dt.clone()));
            assert(pair_views(pairs@) =~= daily_vars(date@, dt@));
            substitute(t, &pairs)
        },
        None => daily_default(date),
    };
    assert(r@ == daily_text_spec(opt_s(template), date@, dt@));
    r
}

/// The names of the daily notes, newest first: the `.md` files of the
/// folder in reverse path order.
pub open spec fn daily_names(paths: Seq<Seq<char>>) -> Seq<Seq<char>> {
    sort_by(paths.filter(|p: Seq<char>| extension_of(p) == Some(lit_md())), path_before()).reverse().map_values(
        |p: Seq<char>| note_name_of(p),
    )
}

/// The names of the daily notes among the folder's entries.
pub fn daily_listing(paths: &Vec<String>) -> (r: Vec<String>)
    ensures
        str_views(r@) == daily_names(str_views(paths@)),
{
    let md = string_of(&lit_md_exec());
    let sorted = crate::plugins::files::list_files(paths, md.as_str());
    let ghost sv = str_views(sorted@);
    let mut out: Vec<String> = Vec::new();
    let mut i: usize = sorted.len();
    while i > 0
        invariant
            i <= sorted.len(),
            sv == str_views(sorted@),
            str_views(out@) == sv.subrange(i as int, sorted.len() as int).reverse().map_values(
                |p: Seq<char>| note_name_of(p),
            ),
        decreases i,
    {
        let n = Vault::note_name(sorted[i - 1].as_str());
        proof {
            lemma_str_views_push(out@, n);
        }
        out.push(n);
        assert(str_views(out@) =~= sv.subrange(i - 1, sorted.len() as int).reverse().map_values(
            |p: Seq<char>| note_name_of(p),
        ));
        i = i - 1;
    }
    assert(sv.subrange(0, sorted.len() as int) =~= sv);
    out
}

} // verus!
