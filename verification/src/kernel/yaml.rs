//! Reading YAML frontmatter with `serde_yaml`.
//!
//! A document is read once into a [`YamlDoc`], which keeps the text it was
//! read from. What `serde_yaml` makes of the text is reached entry by entry
//! through the wrappers below, whose results are named as functions of that
//! text and the entry's position.

use vstd::prelude::*;
use serde_yaml::Value;
use crate::kernel::note::{find_key, keys_unique, str_views, FmSpec, FrontmatterValue};
use crate::kernel::text::chars_of;

verus! {

#[verifier::external_type_specification]
#[verifier::external_body]
pub struct ExYamlValue(serde_yaml::Value);

/// The number of entries of the YAML mapping `serde_yaml::from_str` reads
/// from `text` (entries in document order); 0 when the text is not valid
/// YAML or its document is not a mapping.
pub uninterp spec fn yaml_count(text: Seq<char>) -> nat;

/// The key of entry `i` of that mapping, when the key is a string.
pub uninterp spec fn yaml_key(text: Seq<char>, i: nat) -> Option<Seq<char>>;

/// The value of entry `i` of that mapping, by kind (see [`YamlScalar`]).
pub uninterp spec fn yaml_value(text: Seq<char>, i: nat) -> YamlSpec;

/// The items of entry `i`'s value when it is a sequence: a string item as
/// its text, any other item as its `Debug` text; empty when the value is
/// not a sequence.
pub uninterp spec fn yaml_items(text: Seq<char>, i: nat) -> Seq<Seq<char>>;

/// A YAML document read by `serde_yaml`, with the text it was read from.
pub struct YamlDoc {
    source: String,
    value: serde_yaml::Value,
}

impl View for YamlDoc {
    type V = Seq<char>;

    closed spec fn view(&self) -> Seq<char> {
        self.source@
    }
}

/// One YAML value told apart by kind: a string as it is; a number as the
/// text of its `f64` reading (`as_f64`, 0 where there is none); a boolean;
/// a sequence or a mapping by kind only; null; any other value (a tagged
/// one) as its `Debug` text.
pub enum YamlScalar {
    Str(String),
    Num(String),
    Bool(bool),
    List,
    Mapping,
    Null,
    Other(String),
}

/// A [`YamlScalar`] as plain values.
pub enum YamlSpec {
    Str(Seq<char>),
    Num(Seq<char>),
    Bool(bool),
    List,
    Mapping,
    Null,
    Other(Seq<char>),
}

impl View for YamlScalar {
    type V = YamlSpec;

    open spec fn view(&self) -> YamlSpec {
        match self {
            YamlScalar::Str(s) => YamlSpec::Str(s@),
            YamlScalar::Num(t) => YamlSpec::Num(t@),
            YamlScalar::Bool(b) => YamlSpec::Bool(*b),
            YamlScalar::List => YamlSpec::List,
            YamlScalar::Mapping => YamlSpec::Mapping,
            YamlScalar::Null => YamlSpec::Null,
            YamlScalar::Other(t) => YamlSpec::Other(t@),
        }
    }
}

/// `serde_yaml::from_str::<serde_yaml::Value>`: the document read from
/// `text` (an invalid text reads as null).
#[verifier::external_body]
fn parse_yaml(text: &str) -> (r: YamlDoc)
    ensures
        r@ == text@,
{
    YamlDoc { source: text.to_string(), value: serde_yaml::from_str(text).unwrap_or(Value::Null) }
}

/// `Value::as_mapping` and `Mapping::len`: the number of entries.
#[verifier::external_body]
fn yaml_entry_count(d: &YamlDoc) -> (r: usize)
    ensures
        r as nat == yaml_count(d@),
{
    d.value.as_mapping().map_or(0, |m| m.len())
}

/// The key of entry `i` (`Mapping::iter`, `Value::as_str`), when it is a
/// string.
#[verifier::external_body]
fn yaml_entry_key(d: &YamlDoc, i: usize) -> (r: Option<String>)
    requires
        i < yaml_count(d@),
    ensures
        match r {
            Some(k) => yaml_key(d@, i as nat) == Some(k@),
            None => yaml_key(d@, i as nat) is None,
        },
{
    d.value.as_mapping().and_then(|m| m.iter().nth(i)).and_then(|(k, _)| k.as_str()).map(|k| k.to_string())
}

/// The value of entry `i`, told apart by kind (`Number::as_f64` for a
/// number, `Debug` for a tagged value).
#[verifier::external_body]
fn yaml_entry_value(d: &YamlDoc, i: usize) -> (r: YamlScalar)
    requires
        i < yaml_count(d@),
    ensures
        r@ == yaml_value(d@, i as nat),
{
    match d.value.as_mapping().and_then(|m| m.iter().nth(i)).map(|(_, v)| v) {
        Some(Value::String(s)) => YamlScalar::Str(s.clone()),
        Some(Value::Number(n)) => YamlScalar::Num(n.as_f64().unwrap_or_default().to_string()),
        Some(Value::Bool(b)) => YamlScalar::Bool(*b),
        Some(Value::Sequence(_)) => YamlScalar::List,
        Some(Value::Mapping(_)) => YamlScalar::Mapping,
        Some(Value::Null) | None => YamlScalar::Null,
        Some(other) => YamlScalar::Other(format!("{:?}", other)),
    }
}

/// The items of entry `i`'s sequence (`Value::as_sequence`): a string item
/// as it is, any other as its `Debug` text.
#[verifier::external_body]
fn yaml_entry_items(d: &YamlDoc, i: usize) -> (r: Vec<String>)
    requires
        i < yaml_count(d@),
    ensures
        str_views(r@) == yaml_items(d@, i as nat),
{
    match d.value.as_mapping().and_then(|m| m.iter().nth(i)).and_then(|(_, v)| v.as_sequence()) {
        Some(xs) => xs.iter().map(|x| x.as_str().map(|s| s.to_string()).unwrap_or_else(|| format!("{:?}", x))).collect(),
        None => Vec::new(),
    }
}

/// The frontmatter value for a YAML value: strings, numbers (as text),
/// booleans and null as they are, a sequence as the list of its items'
/// texts, a nested mapping as `Mapping`, any other value as the string of
/// its `Debug` text.
pub open spec fn fm_of(v: YamlSpec, items: Seq<Seq<char>>) -> FmSpec {
    match v {
        YamlSpec::Str(s) => FmSpec::Str(s),
        YamlSpec::Num(t) => FmSpec::Num(t),
        YamlSpec::Bool(b) => FmSpec::Bool(b),
        YamlSpec::List => FmSpec::Arr(items),
        YamlSpec::Mapping => FmSpec::Mapping,
        YamlSpec::Null => FmSpec::Null,
        YamlSpec::Other(t) => FmSpec::Str(t),
    }
}

/// The frontmatter value of entry `i` of the document read from `text`.
pub open spec fn entry_value(text: Seq<char>, i: nat) -> FmSpec {
    fm_of(yaml_value(text, i), yaml_items(text, i))
}

/// The frontmatter value of entry `i` of the document.
fn frontmatter_value(d: &YamlDoc, i: usize) -> (r: FrontmatterValue)
    requires
        i < yaml_count(d@),
    ensures
        r@ == entry_value(d@, i as nat),
{
    match yaml_entry_value(d, i) {
        YamlScalar::Str(s) => FrontmatterValue::String(s),
        YamlScalar::Num(t) => FrontmatterValue::Number(t),
        YamlScalar::Bool(b) => FrontmatterValue::Bool(b),
        YamlScalar::List => FrontmatterValue::Array(yaml_entry_items(d, i)),
        YamlScalar::Mapping => FrontmatterValue::Mapping,
        YamlScalar::Null => FrontmatterValue::Null,
        YamlScalar::Other(t) => FrontmatterValue::String(t),
    }
}

/// Frontmatter entries as plain values.
pub open spec fn fm_views(fm: Seq<(String, FrontmatterValue)>) -> Seq<(Seq<char>, FmSpec)> {
    fm.map_values(|e: (String, FrontmatterValue)| (e.0@, e.1@))
}

/// The first index at or after `i` whose entry has key `k`.
pub open spec fn first_key(m: Seq<(Seq<char>, FmSpec)>, k: Seq<char>, i: int) -> Option<int>
    decreases m.len() - i,
{
    if i < 0 || i >= m.len() {
        None
    } else if m[i].0 == k {
        Some(i)
    } else {
        first_key(m, k, i + 1)
    }
}

/// `m` with key `k` set to `v`: the entry with that key replaced in place,
/// or a new entry at the end.
pub open spec fn fm_set(m: Seq<(Seq<char>, FmSpec)>, k: Seq<char>, v: FmSpec) -> Seq<(Seq<char>, FmSpec)> {
    match first_key(m, k, 0) {
        Some(i) => m.update(i, (k, v)),
        None => m.push((k, v)),
    }
}

/// The entries of the first `n` entries of the document read from `text`
/// whose keys are strings, each key set in turn (a later duplicate
/// replaces the earlier value in its place).
pub open spec fn yaml_entries_upto(text: Seq<char>, n: nat) -> Seq<(Seq<char>, FmSpec)>
    decreases n,
{
    if n == 0 {
        Seq::empty()
    } else {
        let prev = yaml_entries_upto(text, (n - 1) as nat);
        match yaml_key(text, (n - 1) as nat) {
            Some(k) => fm_set(prev, k, entry_value(text, (n - 1) as nat)),
            None => prev,
        }
    }
}

/// The frontmatter entries of a YAML text: the string-keyed entries of its
/// mapping, in document order (none when it is not a mapping).
pub open spec fn yaml_frontmatter(text: Seq<char>) -> Seq<(Seq<char>, FmSpec)> {
    yaml_entries_upto(text, yaml_count(text))
}

proof fn lemma_first_key(m: Seq<(Seq<char>, FmSpec)>, k: Seq<char>, j: int, i: int)
    requires
        0 <= j <= i < m.len(),
        m[i].0 == k,
        forall|x: int| j <= x < i ==> (#[trigger] m[x]).0 != k,
    ensures
        first_key(m, k, j) == Some(i),
    decreases i - j,
{
    if j < i {
        lemma_first_key(m, k, j + 1, i);
    }
}

proof fn lemma_no_key(m: Seq<(Seq<char>, FmSpec)>, k: Seq<char>, j: int)
    requires
        0 <= j,
        forall|x: int| j <= x < m.len() ==> (#[trigger] m[x]).0 != k,
    ensures
        first_key(m, k, j) is None,
    decreases m.len() - j,
{
    if j < m.len() {
        lemma_no_key(m, k, j + 1);
    }
}

/// The entries of a YAML frontmatter block whose keys are strings, with
/// their values (later duplicates replace earlier ones). Text that is not
/// a YAML mapping gives no entries.
pub fn frontmatter_from_yaml(text: &str) -> (r: Vec<(String, FrontmatterValue)>)
    ensures
        keys_unique(r@),
        fm_views(r@) == yaml_frontmatter(text@),
{
    let d = parse_yaml(text);
    let n = yaml_entry_count(&d);
    let mut out: Vec<(String, FrontmatterValue)> = Vec::new();
    let mut i: usize = 0;
    while i < n
        invariant
            i <= n,
            n as nat == yaml_count(d@),
            d@ == text@,
            keys_unique(out@),
            fm_views(out@) == yaml_entries_upto(text@, i as nat),
        decreases n - i,
    {
        match yaml_entry_key(&d, i) {
            Some(key) => {
                let value = frontmatter_value(&d, i);
                let kc = chars_of(key.as_str());
                let ghost before = fm_views(out@);
                match find_key(&out, &kc) {
                    Some(j) => {
                        proof {
                            lemma_first_key(before, key@, 0, j as int);
                        }
                        out.set(j, (key, value));
                        assert(fm_views(out@) =~= before.update(j as int, (kc@, value@)));
                    },
                    None => {
                        proof {
                            lemma_no_key(before, key@, 0);
                        }
                        out.push((key, value));
                        assert(fm_views(out@) =~= before.push((kc@, value@)));
                    },
                }
            },
            None => {},
        }
        i = i + 1;
    }
    out
}

} // verus!
