//! Note and template lookup, and link rewriting after a move.

use vstd::prelude::*;
use crate::kernel::error::Error;
use crate::kernel::index::{first_with_path, keys_distinct, lookup, VaultIndex};
use crate::kernel::note::{contains_string, str_views};
use crate::kernel::paths::{
    extension, extension_of, join, note_name_of, path_join, path_with_extension, with_extension,
};
use crate::kernel::text::{
    no_char,
    lemma_replace_same,
    chars_of, contains, contains_exec, lower, push_all, replace_all, replace_all_exec, string_of,
    to_lower,
};
use crate::kernel::vault::{exists_in, resolved_path, Vault};
use crate::kernel::order::sort_by;
use crate::kernel::search::{fuzzy_find, fuzzy_hits, pair_before};

verus! {

/// `md`.
pub open spec fn md_text() -> Seq<char> {
    seq!['m', 'd']
}

/// Where the note named by `input` resolves: the resolved path if it
/// exists; else, when that path has no extension, the path with extension
/// `md` if it exists (a path with an extension is tried once more as it
/// is); else the path of the note found by name (ignoring case); else the
/// path of the note whose name the input fuzzy-matches best (the first of
/// the best scores, in index order).
pub open spec fn note_resolution(vault: Vault, input: Seq<char>, existing: Seq<String>, index: VaultIndex) -> Option<Seq<char>> {
    let path = resolved_path(vault.root@, input, existing);
    let with_ext = if extension_of(path) is None {
        path_with_extension(path, md_text())
    } else {
        path
    };
    if exists_in(existing, path) {
        Some(path)
    } else if exists_in(existing, with_ext) {
        Some(with_ext)
    } else {
        let ps = lookup(index.by_name@, lower(input));
        let exact = if ps.len() > 0 {
            match first_with_path(index.notes@, ps[0]) {
                Some(i) => Some(index.notes@[i].path@),
                None => None,
            }
        } else {
            None
        };
        let fuzzy = sort_by(fuzzy_hits(index.notes@, input), pair_before());
        match exact {
            Some(p) => Some(p),
            None => if fuzzy.len() > 0 {
                Some(fuzzy[0].0.path@)
            } else {
                None
            },
        }
    }
}

/// Resolves a note from user input: exact path, then with `.md`, then by
/// name through the index, then by fuzzy name match. `existing` lists the paths known to exist.
pub fn resolve_note(vault: &Vault, input: &str, existing: &Vec<String>, index: &VaultIndex) -> (r: Result<String, Error>)
    requires
        keys_distinct(index.by_name@),
    ensures
        match note_resolution(*vault, input@, existing@, *index) {
            Some(p) => r matches Ok(q) && q@ == p,
            None => r matches Err(e) && (e matches Error::NoteNotFound(n) && n@ == input@),
        },
{
    let path = vault.resolve_path(input, existing);
    if contains_string(existing, path.as_str()) {
        return Ok(path);
    }
    let with_ext = match extension(path.as_str()) {
        None => {
            let md = vec!['m', 'd'];
            assert(md@ =~= md_text());
            assert(no_char(md@, '/')) by {
                assert forall|i: int| 0 <= i < md@.len() implies md@[i] != '/' by {}
            }
            with_extension(path.as_str(), string_of(&md).as_str())
        },
        Some(_) => path.clone(),
    };
    if contains_string(existing, with_ext.as_str()) {
        return Ok(with_ext);
    }
    match index.find_by_name(input) {
        Some(note) => Ok(note.path.clone()),
        None => {
            let hits = fuzzy_find(index, input);
            if hits.len() > 0 {
                Ok(hits[0].0.path.clone())
            } else {
                Err(Error::NoteNotFound(string_of(&chars_of(input))))
            }
        },
    }
}

/// The template directory names, in the order they are tried.
pub open spec fn template_dir_names() -> Seq<Seq<char>> {
    seq![
        seq!['t', 'e', 'm', 'p', 'l', 'a', 't', 'e', 's'],
        seq!['T', 'e', 'm', 'p', 'l', 'a', 't', 'e', 's'],
        seq!['t', 'e', 'm', 'p', 'l', 'a', 't', 'e'],
        seq!['T', 'e', 'm', 'p', 'l', 'a', 't', 'e'],
    ]
}

/// The first of `root/templates`, `root/Templates`, `root/template`,
/// `root/Template` that exists.
pub open spec fn template_dir(root: Seq<char>, existing: Seq<String>) -> Option<Seq<char>> {
    let c = template_dir_names();
    if exists_in(existing, path_join(root, c[0])) {
        Some(path_join(root, c[0]))
    } else if exists_in(existing, path_join(root, c[1])) {
        Some(path_join(root, c[1]))
    } else if exists_in(existing, path_join(root, c[2])) {
        Some(path_join(root, c[2]))
    } else if exists_in(existing, path_join(root, c[3])) {
        Some(path_join(root, c[3]))
    } else {
        None
    }
}

/// Finds the vault's template directory.
pub fn find_template_dir(vault: &Vault, existing: &Vec<String>) -> (r: Result<String, Error>)
    ensures
        match template_dir(vault.root@, existing@) {
            Some(d) => r matches Ok(q) && q@ == d,
            None => r matches Err(e) && (e matches Error::NoTemplatesDir(n) && n@ == vault.root@),
        },
{
    let names: Vec<Vec<char>> = vec![
        vec!['t', 'e', 'm', 'p', 'l', 'a', 't', 'e', 's'],
        vec!['T', 'e', 'm', 'p', 'l', 'a', 't', 'e', 's'],
        vec!['t', 'e', 'm', 'p', 'l', 'a', 't', 'e'],
        vec!['T', 'e', 'm', 'p', 'l', 'a', 't', 'e'],
    ];
    assert(names@[0]@ =~= template_dir_names()[0]);
    assert(names@[1]@ =~= template_dir_names()[1]);
    assert(names@[2]@ =~= template_dir_names()[2]);
    assert(names@[3]@ =~= template_dir_names()[3]);
    let mut i: usize = 0;
    while i < 4
        invariant
            i <= 4,
            names.len() == 4,
            forall|k: int| 0 <= k < 4 ==> (#[trigger] names@[k])@ == template_dir_names()[k],
            forall|k: int| 0 <= k < i ==> !exists_in(existing@, path_join(vault.root@, #[trigger] template_dir_names()[k])),
        decreases 4 - i,
    {
        let d = join(vault.root.as_str(), string_of(&names[i]).as_str());
        if contains_string(existing, d.as_str()) {
            proof {
                let c = template_dir_names();
                if i >= 1 {
                    assert(!exists_in(existing@, path_join(vault.root@, c[0])));
                }
                if i >= 2 {
                    assert(!exists_in(existing@, path_join(vault.root@, c[1])));
                }
                if i >= 3 {
                    assert(!exists_in(existing@, path_join(vault.root@, c[2])));
                }
            }
            return Ok(d);
        }
        i = i + 1;
    }
    proof {
        let c = template_dir_names();
        assert(!exists_in(existing@, path_join(vault.root@, c[0])));
        assert(!exists_in(existing@, path_join(vault.root@, c[1])));
        assert(!exists_in(existing@, path_join(vault.root@, c[2])));
        assert(!exists_in(existing@, path_join(vault.root@, c[3])));
    }
    Err(Error::NoTemplatesDir(vault.root.clone()))
}

/// `name.md`.
pub open spec fn md_file(name: Seq<char>) -> Seq<char> {
    name + seq!['.', 'm', 'd']
}

/// The first entry of `listing` with extension `md` whose lowercased note
/// name contains the lowercased `name`.
pub open spec fn fuzzy_template(listing: Seq<String>, name: Seq<char>) -> Option<Seq<char>>
    decreases listing.len(),
{
    if listing.len() == 0 {
        None
    } else {
        let p = listing[0]@;
        if extension_of(p) == Some(md_text()) && contains(lower(note_name_of(p)), lower(name)) {
            Some(p)
        } else {
            fuzzy_template(listing.drop_first(), name)
        }
    }
}

/// Where template `name` is: `dir/name.md` if it exists, else `dir/name`
/// if it exists, else the first `.md` entry of the directory listing whose
/// name contains `name` (ignoring case).
pub open spec fn template_path(dir: Seq<char>, name: Seq<char>, existing: Seq<String>, listing: Seq<String>) -> Option<Seq<char>> {
    if exists_in(existing, path_join(dir, md_file(name))) {
        Some(path_join(dir, md_file(name)))
    } else if exists_in(existing, path_join(dir, name)) {
        Some(path_join(dir, name))
    } else {
        fuzzy_template(listing, name)
    }
}

/// Finds a template by name (exact, then fuzzy). `listing` is the
/// template directory's entries, in the order the directory lists them.
pub fn find_template(vault: &Vault, name: &str, existing: &Vec<String>, listing: &Vec<String>) -> (r: Result<String, Error>)
    ensures
        match template_dir(vault.root@, existing@) {
            None => r matches Err(e) && (e matches Error::NoTemplatesDir(n) && n@ == vault.root@),
            Some(d) => match template_path(d, name@, existing@, listing@) {
                Some(p) => r matches Ok(q) && q@ == p,
                None => r matches Err(e) && (e matches Error::TemplateNotFound(n) && n@ == name@),
            },
        },
{
    let dir = match find_template_dir(vault, existing) {
        Ok(d) => d,
        Err(e) => return Err(e),
    };
    let mut fname = chars_of(name);
    let md = vec!['.', 'm', 'd'];
    push_all(&mut fname, &md);
    assert(fname@ =~= md_file(name@));
    let exact = join(dir.as_str(), string_of(&fname).as_str());
    if contains_string(existing, exact.as_str()) {
        return Ok(exact);
    }
    let no_ext = join(dir.as_str(), name);
    if contains_string(existing, no_ext.as_str()) {
        return Ok(no_ext);
    }
    let lname = chars_of(to_lower(name).as_str());
    let mdx = vec!['m', 'd'];
    assert(mdx@ =~= md_text());
    let mut i: usize = 0;
    assert(listing@.subrange(0, listing.len() as int) =~= listing@);
    while i < listing.len()
        invariant
            i <= listing.len(),
            lname@ == lower(name@),
            mdx@ == md_text(),
            template_dir(vault.root@, existing@) == Some(dir@),
            !exists_in(existing@, path_join(dir@, md_file(name@))),
            !exists_in(existing@, path_join(dir@, name@)),
            fuzzy_template(listing@, name@) == fuzzy_template(listing@.subrange(i as int, listing.len() as int), name@),
        decreases listing.len() - i,
    {
        let p = &listing[i];
        let ghost rest = listing@.subrange(i as int, listing.len() as int);
        assert(rest[0] == listing@[i as int]);
        assert(rest.drop_first() =~= listing@.subrange(i + 1, listing.len() as int));
        let is_md = match extension(p.as_str()) {
            Some(e) => crate::kernel::text::eq_exec(&chars_of(e.as_str()), &mdx),
            None => false,
        };
        if is_md {
            let stem = chars_of(to_lower(Vault::note_name(p.as_str()).as_str()).as_str());
            if contains_exec(&stem, &lname) {
                assert(extension_of(p@) == Some(md_text()));
                assert(contains(lower(note_name_of(p@)), lower(name@)));
                assert(fuzzy_template(rest, name@) == Some(p@));
                let q = p.clone();
                assert(q@ == p@);
                return Ok(q);
            }
        }
        i = i + 1;
    }
    Err(Error::TemplateNotFound(string_of(&chars_of(name))))
}

/// A directory entry name that starts with `.` (hidden).
pub fn is_hidden_entry(name: &str) -> (r: bool)
    ensures
        r == (name@.len() > 0 && name@[0] == '.'),
{
    let c = chars_of(name);
    c.len() > 0 && c[0] == '.'
}

/// `[[name]]`.
pub open spec fn link_text(name: Seq<char>) -> Seq<char> {
    seq!['[', '['] + name + seq![']', ']']
}

/// `[[name|`.
pub open spec fn link_pipe_text(name: Seq<char>) -> Seq<char> {
    seq!['[', '['] + name + seq!['|']
}

/// A note's content after a note named `old_name` was renamed to
/// `new_name`: `[[old]]` becomes `[[new]]`, then `[[old|` becomes `[[new|`.
pub open spec fn relinked(content: Seq<char>, old_name: Seq<char>, new_name: Seq<char>) -> Seq<char> {
    replace_all(
        replace_all(content, link_text(old_name), link_text(new_name)),
        link_pipe_text(old_name),
        link_pipe_text(new_name),
    )
}

fn link_text_exec(name: &[char], pipe: bool) -> (r: Vec<char>)
    ensures
        r@ == if pipe {
            link_pipe_text(name@)
        } else {
            link_text(name@)
        },
{
    let mut v = vec!['[', '['];
    push_all(&mut v, name);
    if pipe {
        v.push('|');
        assert(v@ =~= link_pipe_text(name@));
    } else {
        v.push(']');
        v.push(']');
        assert(v@ =~= link_text(name@));
    }
    v
}

/// Rewrites the links to a moved note in one note's content.
pub fn update_links_in_content(content: &str, old_name: &str, new_name: &str) -> (r: String)
    ensures
        r@ == relinked(content@, old_name@, new_name@),
{
    let c = chars_of(content);
    let o = chars_of(old_name);
    let n = chars_of(new_name);
    let step = replace_all_exec(&c, &link_text_exec(&o, false), &link_text_exec(&n, false));
    string_of(&replace_all_exec(&step, &link_text_exec(&o, true), &link_text_exec(&n, true)))
}


/// Moving a note without changing its name leaves linking notes' text as
/// it was.
pub proof fn law_relink_same_name(content: Seq<char>, name: Seq<char>)
    ensures
        relinked(content, name, name) == content,
{
    lemma_replace_same(content, link_text(name), 0);
    assert(content.subrange(0, content.len() as int) =~= content);
    lemma_replace_same(content, link_pipe_text(name), 0);
}

} // verus!
