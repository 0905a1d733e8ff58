//! Vault configuration and path resolution.

use vstd::prelude::*;
use crate::kernel::error::Error;
use crate::kernel::note::{contains_string, str_views};
use crate::kernel::paths::{
    file_stem, is_absolute, is_absolute_exec, join, note_name_of, path_join, path_strip_prefix,
    strip_prefix,
};
use crate::kernel::text::{chars_of, push_all, string_of};

verus! {

/// `folder`.
pub open spec fn folder_text() -> Seq<char> {
    seq!['f', 'o', 'l', 'd', 'e', 'r']
}

/// `Daily`.
pub open spec fn daily_text() -> Seq<char> {
    seq!['D', 'a', 'i', 'l', 'y']
}

/// `Note`.
pub open spec fn note_text() -> Seq<char> {
    seq!['N', 'o', 't', 'e']
}

/// `.md`.
pub open spec fn md_suffix() -> Seq<char> {
    seq!['.', 'm', 'd']
}

/// `.obsidian`.
pub open spec fn obsidian_dir() -> Seq<char> {
    seq!['.', 'o', 'b', 's', 'i', 'd', 'i', 'a', 'n']
}

/// `app.json` configuration.
#[derive(Debug, Clone)]
pub struct AppConfig {
    pub always_update_links: bool,
    pub new_file_location: String,
    pub new_file_folder_path: Option<String>,
    pub attachment_folder_path: Option<String>,
    pub prompt_delete: bool,
}

/// The default `newFileLocation`: `folder`.
pub fn default_new_file_location() -> (r: String)
    ensures
        r@ == folder_text(),
{
    let v = vec!['f', 'o', 'l', 'd', 'e', 'r'];
    assert(v@ =~= folder_text());
    string_of(&v)
}

impl Default for AppConfig {
    fn default() -> (r: AppConfig)
        ensures
            r.always_update_links,
            r.new_file_location@ == folder_text(),
            (r.new_file_folder_path matches Some(p) && p@ == note_text()),
            r.attachment_folder_path is None,
            !r.prompt_delete,
    {
        let n = vec!['N', 'o', 't', 'e'];
        assert(n@ =~= note_text());
        AppConfig {
            always_update_links: true,
            new_file_location: default_new_file_location(),
            new_file_folder_path: Some(string_of(&n)),
            attachment_folder_path: None,
            prompt_delete: false,
        }
    }
}

/// `daily-notes.json` configuration.
#[derive(Debug, Clone)]
pub struct DailyConfig {
    pub folder: String,
    pub format: Option<String>,
    pub template: Option<String>,
}

/// The default daily notes folder: `Daily`.
pub fn default_daily_folder() -> (r: String)
    ensures
        r@ == daily_text(),
{
    let v = vec!['D', 'a', 'i', 'l', 'y'];
    assert(v@ =~= daily_text());
    string_of(&v)
}

impl Default for DailyConfig {
    fn default() -> (r: DailyConfig)
        ensures
            r.folder@ == daily_text(),
            r.format is None,
            r.template is None,
    {
        DailyConfig { folder: default_daily_folder(), format: None, template: None }
    }
}

/// Core plugins state.
#[derive(Debug, Clone)]
pub struct CorePlugins {
    pub daily_notes: bool,
    pub templates: bool,
    pub bookmarks: bool,
    pub properties: bool,
    pub outline: bool,
    pub word_count: bool,
}

impl Default for CorePlugins {
    fn default() -> (r: CorePlugins)
        ensures
            !r.daily_notes && !r.templates && !r.bookmarks && !r.properties && !r.outline
                && !r.word_count,
    {
        CorePlugins {
            daily_notes: false,
            templates: false,
            bookmarks: false,
            properties: false,
            outline: false,
            word_count: false,
        }
    }
}

/// An Obsidian vault: its root and its configuration.
#[derive(Debug, Clone)]
pub struct Vault {
    /// Root path of the vault.
    pub root: String,
    /// App configuration.
    pub app: AppConfig,
    /// Daily notes configuration.
    pub daily: DailyConfig,
    /// Core plugins state.
    pub core_plugins: CorePlugins,
}

/// Whether `p` is among the paths known to exist.
pub open spec fn exists_in(existing: Seq<String>, p: Seq<char>) -> bool {
    str_views(existing).contains(p)
}

/// Where `path` resolves in a vault rooted at `root`: an absolute path as
/// it is; else the path under the root if it exists; else that path with
/// `.md` appended if it exists; else the path under the root.
pub open spec fn resolved_path(root: Seq<char>, path: Seq<char>, existing: Seq<String>) -> Seq<char> {
    if is_absolute(path) {
        path
    } else if exists_in(existing, path_join(root, path)) {
        path_join(root, path)
    } else if exists_in(existing, path_join(root, path + md_suffix())) {
        path_join(root, path + md_suffix())
    } else {
        path_join(root, path)
    }
}

impl Vault {
    /// Opens the vault rooted at `path`. It is a vault when it has a
    /// `.obsidian` directory (`has_obsidian_dir`); each configuration file
    /// that could not be read or parsed (`None`) takes its defaults.
    pub fn open(
        path: &str,
        has_obsidian_dir: bool,
        app: Option<AppConfig>,
        daily: Option<DailyConfig>,
        core_plugins: Option<CorePlugins>,
    ) -> (r: Result<Vault, Error>)
        ensures
            match r {
                Ok(v) => has_obsidian_dir && v.root@ == path@ && (match app {
                    Some(a) => v.app == a,
                    None => v.app.always_update_links && v.app.new_file_location@ == folder_text()
                        && (v.app.new_file_folder_path matches Some(f) && f@ == note_text())
                        && v.app.attachment_folder_path is None && !v.app.prompt_delete,
                }) && (match daily {
                    Some(d) => v.daily == d,
                    None => v.daily.folder@ == daily_text() && v.daily.format is None
                        && v.daily.template is None,
                }) && (match core_plugins {
                    Some(c) => v.core_plugins == c,
                    None => !v.core_plugins.daily_notes && !v.core_plugins.templates
                        && !v.core_plugins.bookmarks && !v.core_plugins.properties && !v.core_plugins.outline
                        && !v.core_plugins.word_count,
                }),
                Err(e) => !has_obsidian_dir && (e matches Error::NotAVault(p) && p@ == path@),
            },
    {
        let root = string_of(&chars_of(path));
        if !has_obsidian_dir {
            return Err(Error::NotAVault(root));
        }
        let app = match app {
            Some(a) => a,
            None => AppConfig::default(),
        };
        let daily = match daily {
            Some(d) => d,
            None => DailyConfig::default(),
        };
        let core_plugins = match core_plugins {
            Some(c) => c,
            None => CorePlugins::default(),
        };
        Ok(Vault { root, app, daily, core_plugins })
    }

    /// The `.obsidian` directory of the vault.
    pub fn obsidian_path(&self) -> (r: String)
        ensures
            r@ == path_join(self.root@, obsidian_dir()),
    {
        let v = vec!['.', 'o', 'b', 's', 'i', 'd', 'i', 'a', 'n'];
        assert(v@ =~= obsidian_dir());
        join(self.root.as_str(), string_of(&v).as_str())
    }

    /// The daily notes folder.
    pub fn daily_folder(&self) -> (r: String)
        ensures
            r@ == path_join(self.root@, self.daily.folder@),
    {
        join(self.root.as_str(), self.daily.folder.as_str())
    }

    /// The folder new files go to: the configured folder under the root, or
    /// the root.
    pub fn new_file_folder(&self) -> (r: String)
        ensures
            r@ == match self.app.new_file_folder_path {
                Some(f) => path_join(self.root@, f@),
                None => self.root@,
            },
    {
        match &self.app.new_file_folder_path {
            Some(folder) => join(self.root.as_str(), folder.as_str()),
            None => self.root.clone(),
        }
    }

    /// The attachment folder: the configured folder under the root, or the
    /// root.
    pub fn attachment_folder(&self) -> (r: String)
        ensures
            r@ == match self.app.attachment_folder_path {
                Some(f) => path_join(self.root@, f@),
                None => self.root@,
            },
    {
        match &self.app.attachment_folder_path {
            Some(folder) => join(self.root.as_str(), folder.as_str()),
            None => self.root.clone(),
        }
    }

    /// Resolves a note path relative to the vault root, given which paths
    /// exist.
    pub fn resolve_path(&self, path: &str, existing: &Vec<String>) -> (r: String)
        ensures
            r@ == resolved_path(self.root@, path@, existing@),
    {
        if is_absolute_exec(path) {
            return string_of(&chars_of(path));
        }
        let full = join(self.root.as_str(), path);
        if contains_string(existing, full.as_str()) {
            return full;
        }
        let mut pc = chars_of(path);
        let md = vec!['.', 'm', 'd'];
        assert(md@ =~= md_suffix());
        push_all(&mut pc, &md);
        let with_ext = join(self.root.as_str(), string_of(&pc).as_str());
        if contains_string(existing, with_ext.as_str()) {
            with_ext
        } else {
            full
        }
    }

    /// The vault-relative form of a path (the path itself when it is not
    /// under the root).
    pub fn relative_path(&self, path: &str) -> (r: String)
        ensures
            r@ == match path_strip_prefix(path@, self.root@) {
                Some(rel) => rel,
                None => path@,
            },
    {
        match strip_prefix(path, self.root.as_str()) {
            Some(rel) => rel,
            None => string_of(&chars_of(path)),
        }
    }

    /// The note name of a path: its file stem (empty when there is none).
    pub fn note_name(path: &str) -> (r: String)
        ensures
            r@ == note_name_of(path@),
    {
        match file_stem(path) {
            Some(s) => s,
            None => String::new(),
        }
    }
}


/// An absolute path resolves to itself, whatever exists.
pub proof fn law_resolve_absolute(root: Seq<char>, path: Seq<char>, existing: Seq<String>)
    requires
        is_absolute(path),
    ensures
        resolved_path(root, path, existing) == path,
{
}

} // verus!
