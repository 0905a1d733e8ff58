use obsidian_cli::kernel::error::Error;
use obsidian_cli::kernel::fs::{find_template, find_template_dir, is_hidden_entry, resolve_note, update_links_in_content};
use obsidian_cli::kernel::index::VaultIndex;
use obsidian_cli::kernel::vault::Vault;

fn vault() -> Vault {
    Vault::open("/v", true, None, None, None).unwrap()
}

#[test]
fn resolve_note_tries_path_then_md_then_name() {
    let v = vault();
    let idx = VaultIndex::build(vec![("/v/deep/Target.md".to_string(), "x".to_string())]);
    let existing = vec!["/v/a.md".to_string(), "/v/dir/b.md".to_string()];
    assert_eq!(resolve_note(&v, "a.md", &existing, &idx).unwrap(), "/v/a.md");
    assert_eq!(resolve_note(&v, "a", &existing, &idx).unwrap(), "/v/a.md");
    assert_eq!(resolve_note(&v, "dir/b", &existing, &idx).unwrap(), "/v/dir/b.md");
    assert_eq!(resolve_note(&v, "target", &existing, &idx).unwrap(), "/v/deep/Target.md");
    match resolve_note(&v, "nothing", &existing, &idx) {
        Err(Error::NoteNotFound(n)) => assert_eq!(n, "nothing"),
        other => panic!("unexpected {:?}", other),
    }
}

#[test]
fn template_dir_and_templates() {
    let v = vault();
    match find_template_dir(&v, &vec![]) {
        Err(Error::NoTemplatesDir(r)) => assert_eq!(r, "/v"),
        other => panic!("unexpected {:?}", other),
    }
    let existing = vec!["/v/Templates".to_string(), "/v/Templates/Daily.md".to_string(), "/v/Templates/raw".to_string()];
    assert_eq!(find_template_dir(&v, &existing).unwrap(), "/v/Templates");
    let listing = vec!["/v/Templates/Daily.md".to_string(), "/v/Templates/Meeting Notes.md".to_string()];
    assert_eq!(find_template(&v, "Daily", &existing, &listing).unwrap(), "/v/Templates/Daily.md");
    assert_eq!(find_template(&v, "raw", &existing, &listing).unwrap(), "/v/Templates/raw");
    assert_eq!(find_template(&v, "meeting", &existing, &listing).unwrap(), "/v/Templates/Meeting Notes.md");
    match find_template(&v, "zzz", &existing, &listing) {
        Err(Error::TemplateNotFound(n)) => assert_eq!(n, "zzz"),
        other => panic!("unexpected {:?}", other),
    }
}

#[test]
fn links_follow_a_moved_note() {
    let c = "See [[Old]] and [[Old|alias]] and [[Older]]";
    assert_eq!(update_links_in_content(c, "Old", "New"), "See [[New]] and [[New|alias]] and [[Older]]");
    assert_eq!(update_links_in_content(c, "Old", "Old"), c);
}

#[test]
fn hidden_entries() {
    assert!(is_hidden_entry(".git"));
    assert!(is_hidden_entry(".obsidian"));
    assert!(!is_hidden_entry("notes"));
    assert!(!is_hidden_entry(""));
}
