use obsidian_cli::kernel::error::Error;
use obsidian_cli::kernel::note::Note;
use obsidian_cli::plugins::frontmatter::{rebuild_frontmatter_with_tags, remove_property, set_property};
use obsidian_cli::plugins::tags::{add_tag, batch_tag, batch_untag, remove_tag, rename_tag};

fn strings(v: &[&str]) -> Vec<String> {
    v.iter().map(|s| s.to_string()).collect()
}

#[test]
fn set_property_replaces_adds_or_creates() {
    assert_eq!(set_property("---\ntitle: Old\n---\nBody", "title", "New").unwrap(), "---\n\ntitle: New\n---\nBody");
    assert_eq!(set_property("---\ntitle: A\n---\nB", "tags", "x").unwrap(), "---\n\ntitle: A\ntags: x\n---\nB");
    assert_eq!(set_property("Body", "k", "v").unwrap(), "---\nk: v\n---\n\nBody");
    assert_eq!(set_property("---\nno close", "k", "v").unwrap(), "---\nno close");
}

#[test]
fn set_property_with_odd_key_still_escapes() {
    assert_eq!(set_property("---\na.b: 1\n---\n", "a.b", "2").unwrap(), "---\n\na.b: 2\n---\n");
}

#[test]
fn remove_property_rewrites_block() {
    let n = Note::parse_str("n.md", "---\ntitle: A\nextra: 1\n---\nBody");
    assert_eq!(remove_property(&n, "extra"), Some("---\ntitle: A\n---\n\nBody".to_string()));
    assert_eq!(remove_property(&n, "missing"), None);
    let single = Note::parse_str("s.md", "---\nonly: x\n---\n\nText");
    assert_eq!(remove_property(&single, "only"), Some("Text".to_string()));
}

#[test]
fn rebuild_replaces_the_tags_list() {
    let c = "---\ntitle: A\ntags:\n  - old\n  - two\nstatus: x\n---\nBody";
    assert_eq!(
        rebuild_frontmatter_with_tags(c, &strings(&["new"])),
        "---\n\ntags:\n  - new\ntitle: A\nstatus: x\n---\nBody"
    );
    assert_eq!(rebuild_frontmatter_with_tags("Body", &strings(&["a", "b"])), "---\ntags:\n  - a\n  - b\n---\n\nBody");
    assert_eq!(rebuild_frontmatter_with_tags(c, &[]), "---\n\ntitle: A\nstatus: x\n---\nBody");
}

#[test]
fn tag_add_remove_rename() {
    let n = Note::parse_str("n.md", "---\ntags:\n  - a\n  - b\n---\nx #inl");
    assert_eq!(add_tag(&n, "inl"), None);
    assert_eq!(add_tag(&n, "a"), None);
    assert_eq!(add_tag(&n, "c").unwrap(), "---\n\ntags:\n  - a\n  - b\n  - c\n---\nx #inl");
    assert_eq!(remove_tag(&n, "a").unwrap(), "---\n\ntags:\n  - b\n---\nx #inl");
    assert_eq!(remove_tag(&n, "zz"), None);
    assert_eq!(rename_tag(&n, "a", "c"), "---\n\ntags:\n  - c\n  - b\n---\nx #inl");
}

#[test]
fn batch_tagging() {
    let n = Note::parse_str("n.md", "---\ntags:\n  - a\n  - b\n---\nx");
    assert_eq!(batch_tag(&n, &strings(&["b", "d", "d"])).unwrap(), "---\n\ntags:\n  - a\n  - b\n  - d\n---\nx");
    assert_eq!(batch_tag(&n, &strings(&["a"])), None);
    assert_eq!(batch_untag(&n, &strings(&["a", "z"])).unwrap(), "---\n\ntags:\n  - b\n---\nx");
    assert_eq!(batch_untag(&n, &strings(&["z"])), None);
}

#[test]
fn invalid_pattern_error_is_reported() {
    let files = vec![("/v/a.md".to_string(), "x".to_string())];
    match obsidian_cli::plugins::batch::plan_replace(&files, "a(", "b", true, true) {
        Err(Error::InvalidPattern(m)) => assert!(!m.is_empty()),
        _ => panic!("expected an error"),
    }
}
