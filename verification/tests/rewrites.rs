use obsidian_cli::kernel::fs::resolve_note;
use obsidian_cli::kernel::index::VaultIndex;
use obsidian_cli::kernel::vault::Vault;
use obsidian_cli::plugins::batch::{apply_properties, plan_replace};
use obsidian_cli::plugins::frontmatter::{rebuild_frontmatter_with_tags, set_property};
use obsidian_cli::plugins::links::{relink_note, rename_step, RenameStep};
use obsidian_cli::plugins::tasks::toggle_task;

fn strings(v: &[&str]) -> Vec<String> {
    v.iter().map(|s| s.to_string()).collect()
}

#[test]
fn set_property_key_inside_another_key_is_added() {
    assert_eq!(set_property("---\ndata: x\n---\nB", "a", "1").unwrap(), "---\n\ndata: x\na: 1\n---\nB");
}

#[test]
fn set_property_value_with_dollar_is_literal() {
    assert_eq!(set_property("---\nk: old\n---\n", "k", "$1 and $$").unwrap(), "---\n\nk: $1 and $$\n---\n");
}

#[test]
fn apply_properties_line_test_and_literal_values() {
    let props = vec![("a".to_string(), "1".to_string()), ("data".to_string(), "$2".to_string())];
    assert_eq!(apply_properties("---\ndata: x\n---\nB", &props).unwrap(), "---\n\ndata: $2\na: 1\n---\nB");
}

#[test]
fn rebuild_replaces_an_inline_tags_line() {
    assert_eq!(
        rebuild_frontmatter_with_tags("---\ntags: [a]\n---\nBody", &strings(&["a", "b"])),
        "---\n\ntags:\n  - a\n  - b\n---\nBody"
    );
    assert_eq!(
        rebuild_frontmatter_with_tags("---\ntitle: T\ntags: [a]\nx: 1\ntags:\n  - c\n---\nBody", &strings(&["d"])),
        "---\n\ntags:\n  - d\ntitle: T\nx: 1\n---\nBody"
    );
}

#[test]
fn literal_replace_keeps_dollar() {
    let files = vec![("/v/a.md".to_string(), "price: X".to_string())];
    let r = plan_replace(&files, "X", "$5", false, true).unwrap();
    assert_eq!(r[0].1, "price: $5");
    let files = vec![("/v/a.md".to_string(), "a1".to_string())];
    let r = plan_replace(&files, "([0-9])", "<$1>", true, true).unwrap();
    assert_eq!(r[0].1, "a<1>");
}

#[test]
fn resolve_note_falls_back_to_fuzzy_name() {
    let v = Vault::open("/v", true, None, None, None).unwrap();
    let idx = VaultIndex::build(vec![
        ("/v/Meeting Notes.md".to_string(), "x".to_string()),
        ("/v/Other.md".to_string(), "y".to_string()),
    ]);
    assert_eq!(resolve_note(&v, "meeting", &vec![], &idx).unwrap(), "/v/Meeting Notes.md");
    assert_eq!(resolve_note(&v, "other", &vec![], &idx).unwrap(), "/v/Other.md");
}

#[test]
fn vault_open_defaults() {
    let v = Vault::open("/v", true, None, None, None).unwrap();
    assert_eq!(v.app.new_file_folder_path, Some("Note".to_string()));
    assert_eq!(v.app.attachment_folder_path, None);
    assert!(!v.app.prompt_delete);
    assert!(v.app.always_update_links);
    let c = &v.core_plugins;
    assert!(!c.daily_notes && !c.templates && !c.bookmarks && !c.properties && !c.outline && !c.word_count);
}

#[test]
fn rename_steps() {
    assert_eq!(rename_step(true, false, true), RenameStep::Refuse);
    assert_eq!(rename_step(true, true, true), RenameStep::Preview);
    assert_eq!(rename_step(false, false, false), RenameStep::Confirm);
    assert_eq!(rename_step(false, true, false), RenameStep::Apply);
}

#[test]
fn task_done_then_undone_gives_the_lines_back() {
    let c = "a\n- [ ] t #x\nb\n";
    let done = toggle_task(c, 2, true).unwrap();
    assert_eq!(done, "a\n- [x] t #x\nb");
    assert_eq!(toggle_task(&done, 2, false).unwrap(), "a\n- [ ] t #x\nb");
}

#[test]
fn relink_both_forms() {
    let r = relink_note("[[Old]] and ![[Old]]", "Old", "New");
    assert_eq!(r.content, Some("[[New]] and ![[New]]".to_string()));
}

#[test]
fn repair_plan_skips_existing_and_repeated_targets() {
    let unresolved = vec![
        ("/v/a.md".to_string(), "X".to_string()),
        ("/v/b.md".to_string(), "Y".to_string()),
        ("/v/c.md".to_string(), "X".to_string()),
    ];
    let existing = vec!["/v/Y.md".to_string()];
    let plan = obsidian_cli::plugins::misc::repair_plan("/v", &unresolved, &existing);
    assert_eq!(plan, vec![("/v/X.md".to_string(), "# X\n\n> Auto-created by vault repair.\n".to_string())]);
}

#[test]
fn ascii_lines_always_highlight() {
    colored::control::set_override(false);
    let r = obsidian_cli::kernel::output::try_highlight_match("Hello World", "WORLD");
    assert_eq!(r, Some("Hello World".to_string()));
    assert!(obsidian_cli::kernel::output::try_highlight_match("abc", "").is_some());
}
