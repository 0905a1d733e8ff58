use obsidian_cli::kernel::config::Config;
use obsidian_cli::kernel::error::Error;
use obsidian_cli::kernel::vault::{default_daily_folder, default_new_file_location, AppConfig, CorePlugins, DailyConfig, Vault};

#[test]
fn config_default_vault_round_trip() {
    let mut c = Config::default();
    assert_eq!(c.get_vault(), None);
    c.set_vault("/home/me/vault".to_string());
    assert_eq!(c.get_vault(), Some("/home/me/vault"));
    c.unset_vault();
    assert_eq!(c.get_vault(), None);
}

#[test]
fn config_named_vaults() {
    let mut c = Config::default();
    c.add_vault("work".to_string(), "/w".to_string());
    c.add_vault("home".to_string(), "/h".to_string());
    assert_eq!(c.get_named_vault("work"), Some("/w"));
    c.add_vault("work".to_string(), "/w2".to_string());
    assert_eq!(c.get_named_vault("work"), Some("/w2"));
    assert_eq!(c.vaults.len(), 2);
    assert_eq!(c.remove_vault("work"), Some("/w2".to_string()));
    assert_eq!(c.get_named_vault("work"), None);
    assert_eq!(c.remove_vault("work"), None);
    assert_eq!(c.get_named_vault("home"), Some("/h"));
}

fn vault() -> Vault {
    Vault::open("/v", true, None, None, None).unwrap()
}

#[test]
fn open_requires_obsidian_dir() {
    match Vault::open("/nope", false, None, None, None) {
        Err(Error::NotAVault(p)) => assert_eq!(p, "/nope"),
        other => panic!("unexpected {:?}", other.map(|v| v.root)),
    }
    let v = vault();
    assert_eq!(v.root, "/v");
    assert!(v.app.always_update_links);
    assert_eq!(v.daily.folder, "Daily");
}

#[test]
fn defaults() {
    assert_eq!(default_new_file_location(), "folder");
    assert_eq!(default_daily_folder(), "Daily");
    let a = AppConfig::default();
    assert_eq!(a.new_file_folder_path, Some("Note".to_string()));
    let d = DailyConfig::default();
    assert_eq!(d.format, None);
    let p = CorePlugins::default();
    assert!(!p.daily_notes);
}

#[test]
fn vault_folders_and_paths() {
    let v = vault();
    assert_eq!(v.daily_folder(), "/v/Daily");
    assert_eq!(v.new_file_folder(), "/v/Note");
    assert_eq!(v.attachment_folder(), "/v");
    assert_eq!(v.obsidian_path(), "/v/.obsidian");
    assert_eq!(v.relative_path("/v/sub/a.md"), "sub/a.md");
    assert_eq!(v.relative_path("/other/a.md"), "/other/a.md");
    assert_eq!(Vault::note_name("/v/sub/My Note.md"), "My Note");
    assert_eq!(Vault::note_name("/"), "");
}

#[test]
fn resolve_path_prefers_existing() {
    let v = vault();
    let existing = vec!["/v/b.md".to_string()];
    assert_eq!(v.resolve_path("/abs/x.md", &existing), "/abs/x.md");
    assert_eq!(v.resolve_path("b", &existing), "/v/b.md");
    assert_eq!(v.resolve_path("c", &existing), "/v/c");
    let existing2 = vec!["/v/b".to_string(), "/v/b.md".to_string()];
    assert_eq!(v.resolve_path("b", &existing2), "/v/b");
}
