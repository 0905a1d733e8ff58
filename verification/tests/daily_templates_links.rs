use obsidian_cli::kernel::error::Error;
use obsidian_cli::kernel::index::VaultIndex;
use obsidian_cli::kernel::vault::{DailyConfig, Vault};
use obsidian_cli::plugins::daily::{daily_content, daily_default, daily_listing, daily_note_path, date_cuttable_exec};
use obsidian_cli::plugins::links::{plan_rename, relink_note, rename_target_path};
use obsidian_cli::plugins::templates::{
    apply_template, apply_template_with, template_listing, template_note_name_exec, template_vars_exec,
};

fn vault() -> Vault {
    Vault::open("/v", true, None, None, None).unwrap()
}

fn strings(v: &[&str]) -> Vec<String> {
    v.iter().map(|s| s.to_string()).collect()
}

#[test]
fn daily_path_default_format() {
    let v = vault();
    assert!(date_cuttable_exec("2024-03-05"));
    assert_eq!(daily_note_path(&v, "2024-03-05"), "/v/Daily/2024-03-05.md");
}

#[test]
fn daily_path_custom_format_and_folder() {
    let daily = DailyConfig { folder: "Journal".to_string(), format: Some("YYYY/MM/DD".to_string()), template: None };
    let v = Vault::open("/v", true, None, Some(daily), None).unwrap();
    assert_eq!(daily_note_path(&v, "2024-03-05"), "/v/Journal/2024/03/05.md");
}

#[test]
fn daily_date_too_short_is_not_cuttable() {
    assert!(!date_cuttable_exec("2024-3"));
    assert!(!date_cuttable_exec(""));
}

#[test]
fn daily_default_text() {
    assert_eq!(daily_default("2024-03-05"), "# 2024-03-05\n\n");
    assert_eq!(daily_content(None, "2024-03-05"), "# 2024-03-05\n\n");
}

#[test]
fn daily_content_fills_template() {
    let s = daily_content(Some("# {{title}} ({{date}})"), "2024-03-05");
    assert_eq!(s, "# 2024-03-05 (2024-03-05)");
}

#[test]
fn daily_listing_newest_first() {
    let paths = strings(&["/v/Daily/2024-01-02.md", "/v/Daily/notes.txt", "/v/Daily/2024-03-01.md", "/v/Daily/2023-12-31.md"]);
    assert_eq!(daily_listing(&paths), strings(&["2024-03-01", "2024-01-02", "2023-12-31"]));
}

#[test]
fn template_vars_later_assignments_win_and_defaults_fill() {
    let vars = strings(&["a=1", "bad", "title=T", "a=2"]);
    let m = template_vars_exec(&vars, "N", "D", "DT");
    let want: Vec<(String, String)> = vec![
        ("a".to_string(), "2".to_string()),
        ("title".to_string(), "T".to_string()),
        ("name".to_string(), "N".to_string()),
        ("date".to_string(), "D".to_string()),
        ("datetime".to_string(), "DT".to_string()),
    ];
    assert_eq!(m, want);
}

#[test]
fn template_fill_replaces_every_occurrence() {
    let vars = strings(&["who=world"]);
    let s = apply_template_with("{{title}}: hello {{who}}, {{who}}! {{date}} {{unknown}}", &vars, "Note", "2024-01-01", "x");
    assert_eq!(s, "Note: hello world, world! 2024-01-01 {{unknown}}");
}

#[test]
fn template_note_name_strips_folder() {
    assert_eq!(template_note_name_exec("dir/My Note.md"), Some("My Note".to_string()));
    assert_eq!(template_note_name_exec("Plain"), Some("Plain".to_string()));
    assert!(apply_template("{{name}}", "Plain", &[]).unwrap() == "Plain");
}

#[test]
fn template_listing_sorted_md_stems() {
    let paths = strings(&["/t/b.md", "/t/A.md", "/t/x.txt"]);
    assert_eq!(template_listing(&paths), strings(&["A", "b"]));
}

#[test]
fn rename_target_bare_name_stays_in_folder() {
    assert_eq!(rename_target_path("/v", "/v/dir/old.md", "new").unwrap(), "/v/dir/new.md");
    assert_eq!(rename_target_path("/v", "/v/dir/old.md", "new.md").unwrap(), "/v/dir/new.md");
}

#[test]
fn rename_target_with_separator_is_under_root() {
    assert_eq!(rename_target_path("/v", "/v/dir/old.md", "x/y").unwrap(), "/v/x/y.md");
}

#[test]
fn rename_target_without_parent_fails() {
    assert!(matches!(rename_target_path("/v", "", "new"), Err(Error::NoParentDir)));
}

#[test]
fn relink_rewrites_links_and_embeds() {
    let r = relink_note("see [[Old]] and ![[Old]]", "Old", "New");
    assert_eq!(r.content, Some("see [[New]] and ![[New]]".to_string()));
    assert!(r.link);
    assert!(r.embed);
}

#[test]
fn relink_links_only() {
    let r = relink_note("see [[Old]] twice [[Old]]", "Old", "New");
    assert_eq!(r.content, Some("see [[New]] twice [[New]]".to_string()));
    assert!(r.link);
    assert!(!r.embed);
    let none = relink_note("nothing", "Old", "New");
    assert_eq!(none.content, None);
    assert!(!none.link && !none.embed);
}

#[test]
fn relink_to_same_name_keeps_text() {
    let r = relink_note("a [[X]] b ![[X]]", "X", "X");
    assert_eq!(r.content, Some("a [[X]] b ![[X]]".to_string()));
}

#[test]
fn plan_rename_lists_linking_notes() {
    let idx = VaultIndex::build(vec![
        ("/v/Old.md".to_string(), "self".to_string()),
        ("/v/A.md".to_string(), "to [[Old]]".to_string()),
        ("/v/B.md".to_string(), "none".to_string()),
    ]);
    let p = plan_rename(&idx, "/v", "/v/Old.md", "Fresh").unwrap();
    assert_eq!(p.new_path, "/v/Fresh.md");
    assert_eq!(p.old_name, "Old");
    assert_eq!(p.new_name, "Fresh");
    assert_eq!(p.sources, strings(&["/v/A.md"]));
}
