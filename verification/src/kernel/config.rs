//! Configuration: the default vault and named vaults.

use vstd::prelude::*;
use crate::kernel::text::{chars_of, eq_exec};

verus! {

/// The named vaults of a list, as a map: a later entry for a name replaces
/// an earlier one.
pub open spec fn vault_map(v: Seq<(String, String)>) -> Map<Seq<char>, Seq<char>>
    decreases v.len(),
{
    if v.len() == 0 {
        Map::empty()
    } else {
        vault_map(v.drop_last()).insert(v.last().0@, v.last().1@)
    }
}

/// The entries of `v` whose name is not `k`, in order.
pub open spec fn without_name(v: Seq<(String, String)>, k: Seq<char>) -> Seq<(String, String)>
    decreases v.len(),
{
    if v.len() == 0 {
        v
    } else if v.last().0@ == k {
        without_name(v.drop_last(), k)
    } else {
        without_name(v.drop_last(), k).push(v.last())
    }
}

pub proof fn lemma_without_name(v: Seq<(String, String)>, k: Seq<char>)
    ensures
        vault_map(without_name(v, k)) == vault_map(v).remove(k),
    decreases v.len(),
{
    if v.len() > 0 {
        lemma_without_name(v.drop_last(), k);
        let w = without_name(v.drop_last(), k);
        if v.last().0@ == k {
            assert(vault_map(v).remove(k) =~= vault_map(v.drop_last()).remove(k));
        } else {
            assert(w.push(v.last()).drop_last() =~= w);
            assert(vault_map(w.push(v.last())) =~= vault_map(v.drop_last()).remove(k).insert(
                v.last().0@,
                v.last().1@,
            ));
            assert(vault_map(v).remove(k) =~= vault_map(v.drop_last()).remove(k).insert(
                v.last().0@,
                v.last().1@,
            ));
        }
    }
}

/// Application configuration.
#[derive(Debug, Clone)]
pub struct Config {
    /// Default vault path.
    pub default_vault: Option<String>,
    /// Named vaults (name → path).
    pub vaults: Vec<(String, String)>,
}

impl Default for Config {
    fn default() -> (r: Config)
        ensures
            r.default_vault is None,
            r.vaults@.len() == 0,
    {
        Config { default_vault: None, vaults: Vec::new() }
    }
}

impl Config {
    /// The default vault path.
    pub fn get_vault(&self) -> (r: Option<&str>)
        ensures
            match self.default_vault {
                Some(s) => r matches Some(t) && t@ == s@,
                None => r is None,
            },
    {
        match &self.default_vault {
            Some(s) => Some(s.as_str()),
            None => None,
        }
    }

    /// Sets the default vault path.
    pub fn set_vault(&mut self, path: String)
        ensures
            final(self).default_vault == Some(path),
            final(self).vaults == old(self).vaults,
    {
        self.default_vault = Some(path);
    }

    /// Removes the default vault path.
    pub fn unset_vault(&mut self)
        ensures
            final(self).default_vault is None,
            final(self).vaults == old(self).vaults,
    {
        self.default_vault = None;
    }

    fn drop_name(&mut self, name: &str)
        ensures
            final(self).vaults@ == without_name(old(self).vaults@, name@),
            final(self).default_vault == old(self).default_vault,
    {
        let nc = chars_of(name);
        let mut kept: Vec<(String, String)> = Vec::new();
        let mut i: usize = 0;
        while i < self.vaults.len()
            invariant
                i <= self.vaults.len(),
                nc@ == name@,
                kept@ == without_name(self.vaults@.subrange(0, i as int), name@),
            decreases self.vaults.len() - i,
        {
            assert(self.vaults@.subrange(0, i + 1).drop_last() =~= self.vaults@.subrange(0, i as int));
            let kc = chars_of(self.vaults[i].0.as_str());
            if !eq_exec(&kc, &nc) {
                kept.push((self.vaults[i].0.clone(), self.vaults[i].1.clone()));
                assert(kept@ =~= without_name(self.vaults@.subrange(0, i + 1), name@));
            }
            i = i + 1;
        }
        assert(self.vaults@.subrange(0, self.vaults.len() as int) =~= self.vaults@);
        self.vaults = kept;
    }

    /// Adds a named vault (replacing any vault of that name).
    pub fn add_vault(&mut self, name: String, path: String)
        ensures
            vault_map(final(self).vaults@) == vault_map(old(self).vaults@).insert(name@, path@),
            final(self).default_vault == old(self).default_vault,
    {
        self.drop_name(name.as_str());
        proof {
            lemma_without_name(old(self).vaults@, name@);
        }
        let ghost before = self.vaults@;
        self.vaults.push((name, path));
        assert(self.vaults@.drop_last() =~= before);
        assert(vault_map(self.vaults@) =~= vault_map(old(self).vaults@).insert(name@, path@));
    }

    /// Removes a named vault, returning its path.
    pub fn remove_vault(&mut self, name: &str) -> (r: Option<String>)
        ensures
            vault_map(final(self).vaults@) == vault_map(old(self).vaults@).remove(name@),
            final(self).default_vault == old(self).default_vault,
            match r {
                Some(p) => vault_map(old(self).vaults@).contains_key(name@) && p@ == vault_map(
                    old(self).vaults@,
                )[name@],
                None => !vault_map(old(self).vaults@).contains_key(name@),
            },
    {
        let found = match self.get_named_vault(name) {
            Some(p) => {
                let s = p.to_string();
                proof {
                    vstd::string::to_string_from_display_ensures_for_str(p, s);
                }
                Some(s)
            },
            None => None,
        };
        self.drop_name(name);
        proof {
            lemma_without_name(old(self).vaults@, name@);
        }
        found
    }

    /// A named vault path.
    pub fn get_named_vault(&self, name: &str) -> (r: Option<&str>)
        ensures
            match r {
                Some(p) => vault_map(self.vaults@).contains_key(name@) && p@ == vault_map(
                    self.vaults@,
                )[name@],
                None => !vault_map(self.vaults@).contains_key(name@),
            },
    {
        let nc = chars_of(name);
        let mut i = self.vaults.len();
        assert(self.vaults@.subrange(0, i as int) =~= self.vaults@);
        while i > 0
            invariant
                i <= self.vaults.len(),
                nc@ == name@,
                forall|m: int| i <= m < self.vaults.len() ==> (#[trigger] self.vaults@[m]).0@ != name@,
                vault_map(self.vaults@).contains_key(name@) == vault_map(self.vaults@.subrange(0, i as int)).contains_key(name@),
                vault_map(self.vaults@).contains_key(name@) ==> vault_map(self.vaults@)[name@] == vault_map(self.vaults@.subrange(0, i as int))[name@],
            decreases i,
        {
            let kc = chars_of(self.vaults[i - 1].0.as_str());
            let ghost pre = self.vaults@.subrange(0, i as int);
            assert(pre.drop_last() =~= self.vaults@.subrange(0, i - 1));
            if eq_exec(&kc, &nc) {
                return Some(self.vaults[i - 1].1.as_str());
            }
            i = i - 1;
        }
        None
    }
}


// ---------------------------------------------------------------------------
// Laws
// ---------------------------------------------------------------------------

/// After adding a named vault, looking the name up gives its path; other
/// names keep theirs.
pub proof fn law_add_then_get(v: Seq<(String, String)>, name: Seq<char>, path: Seq<char>, other: Seq<char>)
    ensures
        vault_map(v).insert(name, path).contains_key(name),
        vault_map(v).insert(name, path)[name] == path,
        other != name ==> (vault_map(v).insert(name, path).contains_key(other) == vault_map(v).contains_key(other)),
        other != name && vault_map(v).contains_key(other) ==> vault_map(v).insert(name, path)[other] == vault_map(v)[other],
{
}

/// After removing a named vault the name is gone; other names keep their
/// paths.
pub proof fn law_remove_then_get(v: Seq<(String, String)>, name: Seq<char>, other: Seq<char>)
    ensures
        !vault_map(v).remove(name).contains_key(name),
        other != name ==> (vault_map(v).remove(name).contains_key(other) == vault_map(v).contains_key(other)),
{
}

/// Adding a named vault and then removing it gives back the vaults as they
/// were when the name was not there before.
pub proof fn law_add_then_remove(v: Seq<(String, String)>, name: Seq<char>, path: Seq<char>)
    requires
        !vault_map(v).contains_key(name),
    ensures
        vault_map(v).insert(name, path).remove(name) == vault_map(v),
{
    assert(vault_map(v).insert(name, path).remove(name) =~= vault_map(v));
}

} // verus!
