use obsidian_cli::kernel::config::Config;
use obsidian_cli::kernel::error::Error;
use obsidian_cli::kernel::note::Note;
use obsidian_cli::kernel::vault::Vault;
use obsidian_cli::plugins::batch::{
    apply_properties, glob_pattern, have_parents, parse_properties, plan_renames, plan_replace, select_notes,
    try_plan_renames,
};
use obsidian_cli::plugins::bookmarks::{format_bookmarks, JsonValue};
use obsidian_cli::plugins::misc::{is_hidden, is_note_file, recent_notes, repair_stub, sorted_vaults, wordcount_ranking};

fn strings(v: &[&str]) -> Vec<String> {
    v.iter().map(|s| s.to_string()).collect()
}

#[test]
fn hidden_walk_entries() {
    assert!(is_hidden(".git"));
    assert!(is_hidden(".trash"));
    assert!(!is_hidden(".obsidian"));
    assert!(!is_hidden("notes"));
    assert!(!is_hidden(""));
}

#[test]
fn note_files() {
    assert!(is_note_file("/v", "/v/a.md"));
    assert!(is_note_file("/v", "/v/sub/b.md"));
    assert!(!is_note_file("/v", "/v/a.txt"));
    assert!(!is_note_file("/v", "/v/.obsidian/x.md"));
    assert!(!is_note_file("/v", "/v/noext"));
}

#[test]
fn repair_stub_text() {
    let (p, c) = repair_stub("/v", "Missing");
    assert_eq!(p, "/v/Missing.md");
    assert_eq!(c, "# Missing\n\n> Auto-created by vault repair.\n");
}

#[test]
fn wordcount_ranking_most_first_ties_in_order() {
    let notes = vec![
        Note::parse_str("/v/a.md", "one"),
        Note::parse_str("/v/b.md", "one two three"),
        Note::parse_str("/v/c.md", "x y z"),
        Note::parse_str("/v/d.md", "p q"),
    ];
    let r: Vec<&str> = wordcount_ranking(&notes).iter().map(|n| n.name.as_str()).collect();
    assert_eq!(r, vec!["b", "c", "d", "a"]);
}

#[test]
fn wordcount_ranking_keeps_twenty() {
    let notes: Vec<Note> = (0..25).map(|i| Note::parse_str(&format!("/v/n{}.md", i), &"w ".repeat(i + 1))).collect();
    let r = wordcount_ranking(&notes);
    assert_eq!(r.len(), 20);
    assert_eq!(r[0].name, "n24");
    assert_eq!(r[19].name, "n5");
}

#[test]
fn recent_notes_newest_first() {
    let files: Vec<(String, i128)> = vec![
        ("/v/a.md".to_string(), 10),
        ("/v/b.txt".to_string(), 99),
        ("/v/c.md".to_string(), 30),
        ("/v/.obsidian/w.md".to_string(), 50),
        ("/v/d.md".to_string(), 20),
    ];
    let r = recent_notes("/v", &files, 2);
    assert_eq!(r, vec![("/v/c.md".to_string(), 30), ("/v/d.md".to_string(), 20)]);
    assert_eq!(recent_notes("/v", &files, 10).len(), 3);
    assert!(recent_notes("/v", &files, 0).is_empty());
}

#[test]
fn vaults_sorted_by_name() {
    let mut c = Config::default();
    c.add_vault("work".to_string(), "/w".to_string());
    c.add_vault("alpha".to_string(), "/a".to_string());
    c.add_vault("home".to_string(), "/h".to_string());
    let names: Vec<String> = sorted_vaults(&c).into_iter().map(|(n, _)| n).collect();
    assert_eq!(names, strings(&["alpha", "home", "work"]));
}

#[test]
fn glob_for_patterns() {
    assert_eq!(glob_pattern("/v", "*.md"), "/v/**/*.md");
    assert_eq!(glob_pattern("/v", "sub/*.md"), "/v/sub/*.md");
}

#[test]
fn select_notes_filters_and_sorts() {
    let v = Vault::open("/v", true, None, None, None).unwrap();
    let paths = strings(&["/v/z.md", "/v/sub/b.md", "/v/a.txt", "/v/.obsidian/c.md", "/v/a.md"]);
    assert_eq!(select_notes(&v, &paths, "*.md", false).unwrap(), strings(&["/v/a.md", "/v/sub/b.md", "/v/z.md"]));
    assert_eq!(select_notes(&v, &paths, "^sub/", true).unwrap(), strings(&["/v/sub/b.md"]));
    assert!(matches!(select_notes(&v, &paths, "(", true), Err(Error::InvalidPattern(_))));
}

#[test]
fn batch_renames_literal() {
    let paths = strings(&["/v/a-x.md", "/v/plain.md", "/v/d/b-y.md"]);
    assert!(have_parents(&paths));
    let r = plan_renames(&paths, "-", "_", false).unwrap();
    assert_eq!(
        r,
        vec![
            ("/v/a-x.md".to_string(), "/v/a_x.md".to_string(), "a-x".to_string(), "a_x".to_string()),
            ("/v/d/b-y.md".to_string(), "/v/d/b_y.md".to_string(), "b-y".to_string(), "b_y".to_string()),
        ]
    );
}

#[test]
fn batch_renames_regex_first_match() {
    let paths = strings(&["/v/a1b2.md"]);
    let r = plan_renames(&paths, "[0-9]", "#", true).unwrap();
    assert_eq!(r[0].3, "a#b2");
}

#[test]
fn batch_renames_without_parent() {
    let paths = strings(&["/"]);
    assert!(!have_parents(&paths));
    assert!(try_plan_renames(&paths, "a", "b", false).is_none());
    assert!(try_plan_renames(&strings(&["/v/a.md"]), "a", "b", false).unwrap().unwrap().len() == 1);
    assert!(matches!(try_plan_renames(&strings(&["/v/a.md"]), "(", "b", true), Some(Err(Error::InvalidPattern(_)))));
}

#[test]
fn replace_literal_case_insensitive() {
    let files = vec![("/v/a.md".to_string(), "Foo foo".to_string()), ("/v/b.md".to_string(), "bar".to_string())];
    let r = plan_replace(&files, "foo", "x", false, false).unwrap();
    assert_eq!(r, vec![("/v/a.md".to_string(), "x x".to_string(), 2)]);
    let r = plan_replace(&files, "foo", "x", false, true).unwrap();
    assert_eq!(r, vec![("/v/a.md".to_string(), "Foo x".to_string(), 1)]);
}

#[test]
fn replace_literal_escapes_metacharacters() {
    let files = vec![("/v/a.md".to_string(), "a.b axb".to_string())];
    let r = plan_replace(&files, "a.b", "!", false, true).unwrap();
    assert_eq!(r[0].1, "! axb");
    let r = plan_replace(&files, "a.b", "!", true, true).unwrap();
    assert_eq!(r[0].1, "! !");
}

#[test]
fn replace_invalid_regex() {
    let files = vec![("/v/a.md".to_string(), "x".to_string())];
    assert!(matches!(plan_replace(&files, "(", "y", true, true), Err(Error::InvalidPattern(_))));
}

#[test]
fn properties_parse() {
    let r = parse_properties(&strings(&["a=1", "b=2=3", "a=4"])).unwrap();
    assert_eq!(r, vec![("a".to_string(), "4".to_string()), ("b".to_string(), "2=3".to_string())]);
    match parse_properties(&strings(&["a=1", "oops", "nope"])) {
        Err(Error::InvalidProperty(p)) => assert_eq!(p, "oops"),
        _ => panic!("expected an invalid property"),
    }
}

#[test]
fn properties_apply_existing_frontmatter() {
    let props = vec![("title".to_string(), "U".to_string()), ("new".to_string(), "V".to_string())];
    assert_eq!(apply_properties("---\ntitle: T\n---\nB", &props).unwrap(), "---\n\ntitle: U\nnew: V\n---\nB");
}

#[test]
fn properties_apply_without_frontmatter() {
    let props = vec![("a".to_string(), "1".to_string())];
    assert_eq!(apply_properties("B", &props).unwrap(), "---\na: 1\n---\n\nB");
    assert_eq!(apply_properties("---\nno end", &props).unwrap(), "---\nno end");
}

#[test]
fn bookmarks_tree() {
    colored::control::set_override(false);
    let leaf = JsonValue::Object(vec![
        ("title".to_string(), JsonValue::Str("N".to_string())),
        ("path".to_string(), JsonValue::Str("n.md".to_string())),
    ]);
    let group = JsonValue::Object(vec![
        ("type".to_string(), JsonValue::Str("group".to_string())),
        ("title".to_string(), JsonValue::Str("G".to_string())),
        ("items".to_string(), JsonValue::Array(vec![leaf])),
    ]);
    let bare = JsonValue::Object(vec![("path".to_string(), JsonValue::Str("p.md".to_string()))]);
    let v = JsonValue::Array(vec![group, bare, JsonValue::Other]);
    assert_eq!(format_bookmarks(&v), "Bookmarks:\n📁 G\n    → N\n      n.md\n  → Untitled\n    p.md\n");
}

#[test]
fn bookmarks_untitled_group_and_non_string_title() {
    colored::control::set_override(false);
    let v = JsonValue::Object(vec![
        ("title".to_string(), JsonValue::Other),
        ("items".to_string(), JsonValue::Array(vec![])),
    ]);
    assert_eq!(format_bookmarks(&v), "Bookmarks:\n📁 Untitled\n");
}
