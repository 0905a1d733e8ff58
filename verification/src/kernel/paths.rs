//! Path handling. Paths are strings; the component logic of `std::path`
//! is reached through the wrappers below.

use vstd::prelude::*;
use crate::kernel::text::{chars_of, no_char, slice, string_of};

verus! {

/// What `Path::file_name` returns for `p`.
pub uninterp spec fn path_file_name(p: Seq<char>) -> Option<Seq<char>>;

/// What `Path::parent` returns for `p`.
pub uninterp spec fn path_parent(p: Seq<char>) -> Option<Seq<char>>;

/// What `Path::strip_prefix` returns for `p` and `base` (`None` for an error).
pub uninterp spec fn path_strip_prefix(p: Seq<char>, base: Seq<char>) -> Option<Seq<char>>;

/// What `Path::join` returns.
pub uninterp spec fn path_join(base: Seq<char>, p: Seq<char>) -> Seq<char>;

/// What `Path::with_extension` returns.
pub uninterp spec fn path_with_extension(p: Seq<char>, ext: Seq<char>) -> Seq<char>;

/// A path is absolute on Unix when it starts with `/`.
pub open spec fn is_absolute(p: Seq<char>) -> bool {
    p.len() > 0 && p[0] == '/'
}

/// `Path::file_name`: the final component, unless the path ends in `..`
/// or has no final normal component.
#[verifier::external_body]
pub(crate) fn file_name(p: &str) -> (r: Option<String>)
    ensures
        match r {
            Some(s) => path_file_name(p@) == Some(s@),
            None => path_file_name(p@) is None,
        },
{
    match std::path::Path::new(p).file_name() {
        Some(s) => Some(s.to_string_lossy().to_string()),
        None => None,
    }
}

/// `Path::parent`: the path without its final component.
#[verifier::external_body]
pub(crate) fn parent(p: &str) -> (r: Option<String>)
    ensures
        match r {
            Some(s) => path_parent(p@) == Some(s@),
            None => path_parent(p@) is None,
        },
{
    match std::path::Path::new(p).parent() {
        Some(s) => Some(s.to_string_lossy().to_string()),
        None => None,
    }
}

/// `Path::strip_prefix`: `p` relative to `base` when `base` is a prefix of
/// `p` component by component.
#[verifier::external_body]
pub(crate) fn strip_prefix(p: &str, base: &str) -> (r: Option<String>)
    ensures
        match r {
            Some(s) => path_strip_prefix(p@, base@) == Some(s@),
            None => path_strip_prefix(p@, base@) is None,
        },
{
    match std::path::Path::new(p).strip_prefix(base) {
        Ok(s) => Some(s.to_string_lossy().to_string()),
        Err(_) => None,
    }
}

/// `Path::join`: `p` appended to `base` with a separator; an absolute `p`
/// replaces `base` (documented behaviour of `PathBuf::push`).
#[verifier::external_body]
pub(crate) fn join(base: &str, p: &str) -> (r: String)
    ensures
        r@ == path_join(base@, p@),
        is_absolute(p@) ==> r@ == p@,
{
    std::path::Path::new(base).join(p).to_string_lossy().to_string()
}

/// `Path::with_extension`: the path with its extension set to `ext`. It
/// panics when `ext` holds a path separator (`/`), so such an extension is
/// not admitted.
#[verifier::external_body]
pub(crate) fn with_extension(p: &str, ext: &str) -> (r: String)
    requires
        no_char(ext@, '/'),
    ensures
        r@ == path_with_extension(p@, ext@),
{
    std::path::Path::new(p).with_extension(ext).to_string_lossy().to_string()
}

/// Where the stem of a file name ends: before its last `.`, unless the name
/// is `..`, has no `.`, or its only `.` is the first character.
pub open spec fn stem_end(name: Seq<char>) -> nat
    decreases name.len(),
{
    last_dot(name, name.len())
}

/// Index of the last `.` before `e` if it is not at index 0; else the
/// length of the name.
pub open spec fn last_dot(name: Seq<char>, e: nat) -> nat
    decreases e,
{
    if e == 0 || e > name.len() {
        name.len()
    } else if name[e - 1] == '.' {
        if e - 1 == 0 {
            name.len()
        } else {
            (e - 1) as nat
        }
    } else {
        last_dot(name, (e - 1) as nat)
    }
}

/// `Path::file_stem` given the file name: the name up to its last `.`
/// (the whole name for `..`, names without `.`, and names whose only `.`
/// leads).
pub open spec fn stem_of_name(name: Seq<char>) -> Seq<char> {
    if name == seq!['.', '.'] {
        name
    } else {
        name.subrange(0, stem_end(name) as int)
    }
}

/// `Path::extension` given the file name.
pub open spec fn extension_of_name(name: Seq<char>) -> Option<Seq<char>> {
    if name == seq!['.', '.'] || stem_end(name) >= name.len() {
        None
    } else {
        Some(name.subrange(stem_end(name) + 1int, name.len() as int))
    }
}

/// `Path::file_stem`.
pub open spec fn file_stem_of(p: Seq<char>) -> Option<Seq<char>> {
    match path_file_name(p) {
        Some(n) => Some(stem_of_name(n)),
        None => None,
    }
}

/// `Path::extension`.
pub open spec fn extension_of(p: Seq<char>) -> Option<Seq<char>> {
    match path_file_name(p) {
        Some(n) => extension_of_name(n),
        None => None,
    }
}

/// The note name of a path: its file stem, or empty when it has none.
pub open spec fn note_name_of(p: Seq<char>) -> Seq<char> {
    match file_stem_of(p) {
        Some(s) => s,
        None => Seq::empty(),
    }
}

proof fn lemma_last_dot_skip(name: Seq<char>, m: nat, e: nat)
    requires
        m <= e <= name.len(),
        forall|i: int| m <= i < e ==> name[i] != '.',
    ensures
        last_dot(name, e) == last_dot(name, m),
    decreases e,
{
    if e > m {
        lemma_last_dot_skip(name, m, (e - 1) as nat);
    }
}

/// The stem of a file name is everything before its last `.`, and the
/// extension everything after it, as long as something comes before that
/// `.`: `a.b.md` has stem `a.b` and extension `md`. A name without `.` is
/// its own stem and has no extension.
pub proof fn law_stem_and_extension(stem: Seq<char>, ext: Seq<char>, name: Seq<char>)
    ensures
        stem.len() >= 1 && (forall|i: int| 0 <= i < ext.len() ==> #[trigger] ext[i] != '.') && !(stem
            == seq!['.'] && ext.len() == 0) ==> stem_of_name(stem + seq!['.'] + ext) == stem
            && extension_of_name(stem + seq!['.'] + ext) == Some(ext),
        (forall|i: int| 0 <= i < name.len() ==> #[trigger] name[i] != '.') ==> stem_of_name(name) == name
            && extension_of_name(name) is None,
{
    if stem.len() >= 1 && (forall|i: int| 0 <= i < ext.len() ==> #[trigger] ext[i] != '.') && !(stem
        == seq!['.'] && ext.len() == 0) {
        let n = stem + seq!['.'] + ext;
        let d = stem.len() + 1;
        assert forall|i: int| d <= i < n.len() implies n[i] != '.' by {
            assert(n[i] == ext[i - d]);
        }
        lemma_last_dot_skip(n, d, n.len());
        assert(n[d - 1] == '.');
        assert(stem_end(n) == stem.len());
        if n == seq!['.', '.'] {
            assert(n.len() == 2);
            assert(stem.len() == 1 && ext.len() == 0);
            assert(stem =~= seq!['.']);
        }
        assert(n.subrange(0, stem.len() as int) =~= stem);
        assert(n.subrange(d as int, n.len() as int) =~= ext);
    }
    if forall|i: int| 0 <= i < name.len() ==> #[trigger] name[i] != '.' {
        lemma_last_dot_skip(name, 0, name.len());
        assert(name.subrange(0, name.len() as int) =~= name);
        if name == seq!['.', '.'] {
            assert(name[0] == '.');
        }
    }
}

fn last_dot_exec(name: &[char]) -> (r: usize)
    ensures
        r == last_dot(name@, name.len() as nat),
        r <= name.len(),
{
    let mut e = name.len();
    while e > 0
        invariant
            e <= name.len(),
            last_dot(name@, name.len() as nat) == last_dot(name@, e as nat),
        decreases e,
    {
        if name[e - 1] == '.' {
            if e - 1 == 0 {
                return name.len();
            } else {
                return e - 1;
            }
        }
        e = e - 1;
    }
    name.len()
}

fn is_dot_dot(name: &[char]) -> (r: bool)
    ensures
        r == (name@ == seq!['.', '.']),
{
    if name.len() == 2 && name[0] == '.' && name[1] == '.' {
        assert(name@ =~= seq!['.', '.']);
        true
    } else {
        false
    }
}

/// `Path::file_stem`.
pub fn file_stem(p: &str) -> (r: Option<String>)
    ensures
        opt_str_view(r) == file_stem_of(p@),
{
    match file_name(p) {
        None => None,
        Some(n) => {
            let c = chars_of(n.as_str());
            if is_dot_dot(&c) {
                Some(n)
            } else {
                let e = last_dot_exec(&c);
                Some(string_of(&slice(&c, 0, e)))
            }
        },
    }
}

/// `Path::extension`.
pub fn extension(p: &str) -> (r: Option<String>)
    ensures
        opt_str_view(r) == extension_of(p@),
{
    match file_name(p) {
        None => None,
        Some(n) => {
            let c = chars_of(n.as_str());
            if is_dot_dot(&c) {
                None
            } else {
                let e = last_dot_exec(&c);
                if e >= c.len() {
                    None
                } else {
                    Some(string_of(&slice(&c, e + 1, c.len())))
                }
            }
        },
    }
}

/// The view of an optional string.
pub open spec fn opt_str_view(o: Option<String>) -> Option<Seq<char>> {
    match o {
        Some(s) => Some(s@),
        None => None,
    }
}

/// Whether a path is absolute (starts with `/`).
pub fn is_absolute_exec(p: &str) -> (r: bool)
    ensures
        r == is_absolute(p@),
{
    let c = chars_of(p);
    c.len() > 0 && c[0] == '/'
}


/// What `Path::starts_with` returns: whether `base` is a prefix of `p`,
/// component by component.
pub uninterp spec fn path_starts_with(p: Seq<char>, base: Seq<char>) -> bool;

/// `Path::starts_with`: `base` is a prefix of `p`, component by component.
#[verifier::external_body]
pub(crate) fn starts_with_path(p: &str, base: &str) -> (r: bool)
    ensures
        r == path_starts_with(p@, base@),
{
    std::path::Path::new(p).starts_with(base)
}

} // verus!
