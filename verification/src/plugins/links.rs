//! Renaming a note and the links to it.

use vstd::prelude::*;
use crate::kernel::error::Error;
use crate::kernel::fs::link_text;
use crate::kernel::index::{derefs, keys_distinct, lookup, notes_at, VaultIndex};
use crate::kernel::note::{lemma_str_views_push, str_views, Note};
use crate::kernel::paths::{join, note_name_of, parent, path_join, path_parent};
use crate::kernel::text::{
    lemma_replace_same,
    chars_of, contains, contains_exec, ends_with, ends_with_exec, push_all, replace_all, replace_all_exec,
    string_of,
};
use crate::kernel::vault::Vault;
use crate::plugins::files::{lit_dot_md, lit_dot_md_exec, with_md, with_md_exec};

verus! {

/// `![[name]]`.
pub open spec fn embed_text(name: Seq<char>) -> Seq<char> {
    seq!['!'] + link_text(name)
}

fn link_exec(name: &[char], embed: bool) -> (r: Vec<char>)
    ensures
        r@ == if embed {
            embed_text(name@)
        } else {
            link_text(name@)
        },
{
    let mut v: Vec<char> = Vec::new();
    if embed {
        v.push('!');
    }
    v.push('[');
    v.push('[');
    push_all(&mut v, name);
    v.push(']');
    v.push(']');
    assert(v@ =~= if embed {
        embed_text(name@)
    } else {
        link_text(name@)
    });
    v
}

/// The new name holds a path separator (`/` or `\`).
pub open spec fn has_separator(n: Seq<char>) -> bool {
    contains(n, seq!['/']) || contains(n, seq!['\\'])
}

/// Where a renamed note goes: a new name with a separator is a path under
/// the vault root (`.md` added when it has no extension); a bare name stays
/// in the old note's folder (`.md` added unless it ends so). Nothing when
/// the old path has no parent.
pub open spec fn rename_target(root: Seq<char>, old_path: Seq<char>, new_name: Seq<char>) -> Option<Seq<char>> {
    if has_separator(new_name) {
        Some(with_md(path_join(root, new_name)))
    } else {
        match path_parent(old_path) {
            Some(par) => Some(
                path_join(
                    par,
                    if ends_with(new_name, lit_dot_md()) {
                        new_name
                    } else {
                        new_name + lit_dot_md()
                    },
                ),
            ),
            None => None,
        }
    }
}

/// Where a renamed note goes.
pub fn rename_target_path(root: &str, old_path: &str, new_name: &str) -> (r: Result<String, Error>)
    ensures
        match rename_target(root@, old_path@, new_name@) {
            Some(p) => r matches Ok(s) && s@ == p,
            None => r matches Err(e) && e is NoParentDir,
        },
{
    let n = chars_of(new_name);
    let slash = vec!['/'];
    let back = vec!['\\'];
    assert(slash@ =~= seq!['/']);
    assert(back@ =~= seq!['\\']);
    if contains_exec(&n, &slash) || contains_exec(&n, &back) {
        return Ok(with_md_exec(join(root, new_name)));
    }
    match parent(old_path) {
        None => Err(Error::NoParentDir),
        Some(par) => {
            let mut f = chars_of(new_name);
            if !ends_with_exec(&f, &lit_dot_md_exec()) {
                push_all(&mut f, &lit_dot_md_exec());
            }
            Ok(join(par.as_str(), string_of(&f).as_str()))
        },
    }
}

/// What renaming does to one linking note's text: when it holds an embed
/// `![[old]]` or a link `[[old]]`, every embed becomes `![[new]]` and then,
/// in that text, every link becomes `[[new]]`; else nothing is written.
pub open spec fn relinked_text(c: Seq<char>, old: Seq<char>, new: Seq<char>) -> Option<Seq<char>> {
    if contains(c, embed_text(old)) || contains(c, link_text(old)) {
        Some(replace_all(replace_all(c, embed_text(old), embed_text(new)), link_text(old), link_text(new)))
    } else {
        None
    }
}

/// The outcome of relinking one note: the new text, if any, and whether it
/// held a link and an embed of the old name.
pub struct Relink {
    pub content: Option<String>,
    pub link: bool,
    pub embed: bool,
}

/// Relinks one note's text from `old` to `new`.
pub fn relink_note(content: &str, old: &str, new: &str) -> (r: Relink)
    ensures
        match relinked_text(content@, old@, new@) {
            Some(t) => r.content matches Some(s) && s@ == t,
            None => r.content is None,
        },
        r.link == contains(content@, link_text(old@)),
        r.embed == contains(content@, embed_text(old@)),
{
    let c = chars_of(content);
    let o = chars_of(old);
    let n = chars_of(new);
    let ol = link_exec(&o, false);
    let oe = link_exec(&o, true);
    let link = contains_exec(&c, &ol);
    let embed = contains_exec(&c, &oe);
    let out = if embed || link {
        let step = replace_all_exec(&c, &oe, &link_exec(&n, true));
        Some(string_of(&replace_all_exec(&step, &ol, &link_exec(&n, false))))
    } else {
        None
    };
    Relink { content: out, link, embed }
}

/// A rename worked out: the new path, the old and new note names, and the
/// paths of the notes linking to the old name (one per link).
pub struct RenamePlan {
    pub new_path: String,
    pub old_name: String,
    pub new_name: String,
    pub sources: Vec<String>,
}

/// What a rename does next, once its plan is known.
#[derive(Debug, Clone, Copy, PartialEq, Eq, Structural)]
pub enum RenameStep {
    /// The destination exists and the rename is not forced: an error.
    Refuse,
    /// A dry run: show what would change, write nothing.
    Preview,
    /// Ask the user before writing.
    Confirm,
    /// Write the changes.
    Apply,
}

/// The next step of a rename: refused when the destination exists unless
/// forced; else a preview for a dry run; else a confirmation unless forced;
/// else the changes are written.
pub fn rename_step(dest_exists: bool, force: bool, dry_run: bool) -> (r: RenameStep)
    ensures
        r == (if dest_exists && !force {
            RenameStep::Refuse
        } else if dry_run {
            RenameStep::Preview
        } else if !force {
            RenameStep::Confirm
        } else {
            RenameStep::Apply
        }),
{
    if dest_exists && !force {
        RenameStep::Refuse
    } else if dry_run {
        RenameStep::Preview
    } else if !force {
        RenameStep::Confirm
    } else {
        RenameStep::Apply
    }
}

/// The paths of the notes linking to `name`.
pub open spec fn linking_paths(index: VaultIndex, name: Seq<char>) -> Seq<Seq<char>> {
    notes_at(index.notes@, lookup(index.backlinks@, name)).map_values(|n: Note| n.path@)
}

/// Works out a rename of the note at `old_path` to `new_name`.
pub fn plan_rename(index: &VaultIndex, root: &str, old_path: &str, new_name: &str) -> (r: Result<RenamePlan, Error>)
    requires
        keys_distinct(index.backlinks@),
    ensures
        match rename_target(root@, old_path@, new_name@) {
            Some(p) => r matches Ok(plan) && plan.new_path@ == p && plan.old_name@ == note_name_of(old_path@)
                && plan.new_name@ == note_name_of(p) && str_views(plan.sources@) == linking_paths(
                *index,
                note_name_of(old_path@),
            ),
            None => r matches Err(e) && e is NoParentDir,
        },
{
    let new_path = match rename_target_path(root, old_path, new_name) {
        Ok(p) => p,
        Err(e) => return Err(e),
    };
    let old_name = Vault::note_name(old_path);
    let new_note = Vault::note_name(new_path.as_str());
    let notes = index.get_backlinks(old_name.as_str());
    let ghost nv = derefs(notes@);
    let mut sources: Vec<String> = Vec::new();
    let mut i: usize = 0;
    while i < notes.len()
        invariant
            i <= notes.len(),
            nv == derefs(notes@),
            str_views(sources@) == nv.subrange(0, i as int).map_values(|n: Note| n.path@),
        decreases notes.len() - i,
    {
        let s = notes[i].path.clone();
        assert(nv[i as int] == *notes@[i as int]);
        proof {
            lemma_str_views_push(sources@, s);
        }
        sources.push(s);
        assert(str_views(sources@) =~= nv.subrange(0, i + 1).map_values(|n: Note| n.path@));
        i = i + 1;
    }
    assert(nv.subrange(0, notes.len() as int) =~= nv);
    Ok(RenamePlan { new_path, old_name, new_name: new_note, sources })
}


/// Renaming a note to its own name leaves every linking note's text as it
/// was.
pub proof fn law_rename_to_same_name(c: Seq<char>, name: Seq<char>)
    ensures
        relinked_text(c, name, name) matches Some(t) ==> t == c,
{
    lemma_replace_same(c, embed_text(name), 0);
    assert(c.subrange(0, c.len() as int) =~= c);
    lemma_replace_same(c, link_text(name), 0);
}

} // verus!
