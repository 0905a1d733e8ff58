use obsidian_cli::kernel::note::{FrontmatterValue, Note};

fn sample() -> Note {
    let raw = "---\ntags: [x, y]\ntitle: Hi\naliases: alt\ncount: 3\n---\n\n# Head\nSee [[b]] and #inline\n- [ ] t1 #tt\n  - [x] t2\n## Sub\n";
    Note::parse_str("/v/a.md", raw)
}

#[test]
fn parse_reads_name_body_and_frontmatter() {
    let n = sample();
    assert_eq!(n.name, "a");
    assert_eq!(n.path, "/v/a.md");
    assert_eq!(n.body, "# Head\nSee [[b]] and #inline\n- [ ] t1 #tt\n  - [x] t2\n## Sub\n");
    assert_eq!(n.property("title"), Some("Hi".to_string()));
    assert_eq!(n.property("tags"), Some("[x, y]".to_string()));
    assert_eq!(n.property("count"), Some("3".to_string()));
    assert_eq!(n.property("missing"), None);
    assert_eq!(n.property_tags(), vec!["x".to_string(), "y".to_string()]);
    assert_eq!(n.aliases(), vec!["alt".to_string()]);
}

#[test]
fn parse_collects_tags_sorted_without_repeats() {
    let n = sample();
    assert_eq!(n.tags, vec!["inline", "tt", "x", "y"]);
    assert!(n.has_tag("x"));
    assert!(n.has_tag("inline"));
    assert!(!n.has_tag("Head"));
}

#[test]
fn parse_finds_links_tasks_and_headings() {
    let n = sample();
    assert_eq!(n.wikilinks.len(), 1);
    assert_eq!(n.wikilinks[0].target, "b");
    assert_eq!(n.wikilinks[0].line, 2);
    assert!(!n.wikilinks[0].is_embed);
    assert_eq!(n.tasks.len(), 2);
    assert_eq!(n.tasks[0].text, "t1 #tt");
    assert!(!n.tasks[0].done);
    assert_eq!(n.tasks[0].tags, vec!["tt"]);
    assert_eq!(n.tasks[0].line, 3);
    assert_eq!(n.tasks[1].indent, 2);
    assert!(n.tasks[1].done);
    assert_eq!(n.pending_tasks().len(), 1);
    assert_eq!(n.get_tasks().len(), 2);
    assert_eq!(n.headings.len(), 2);
    assert_eq!(n.headings[0].text, "Head");
    assert_eq!(n.headings[0].level, 1);
    assert_eq!(n.headings[1].level, 2);
    assert_eq!(n.headings[1].line, 5);
}

#[test]
fn parse_links_with_refs_and_display() {
    let n = Note::parse_str("/v/c.md", "![[img.png]] [[Page#Part|shown]] [[Doc^blk]] [[X#^b2]]");
    assert_eq!(n.wikilinks.len(), 4);
    assert!(n.wikilinks[0].is_embed);
    assert_eq!(n.wikilinks[0].target, "img.png");
    assert_eq!(n.wikilinks[1].target, "Page");
    assert_eq!(n.wikilinks[1].heading_ref, Some("Part".to_string()));
    assert_eq!(n.wikilinks[1].display, Some("shown".to_string()));
    assert_eq!(n.wikilinks[2].target, "Doc");
    assert_eq!(n.wikilinks[2].block_ref, Some("blk".to_string()));
    assert_eq!(n.wikilinks[3].target, "X");
    assert_eq!(n.wikilinks[3].block_ref, Some("b2".to_string()));
}

#[test]
fn parse_without_frontmatter_keeps_everything_as_body() {
    let n = Note::parse_str("notes/plain.md", "Hello world 你好");
    assert!(n.frontmatter.is_empty());
    assert_eq!(n.body, "Hello world 你好");
    assert_eq!(n.word_count, 4);
    assert_eq!(n.char_count, 14);
    let unclosed = Note::parse_str("u.md", "---\ntitle: x\nno close");
    assert!(unclosed.frontmatter.is_empty());
    assert_eq!(unclosed.body, "---\ntitle: x\nno close");
}

#[test]
fn display_strings_of_values() {
    assert_eq!(FrontmatterValue::String("a".to_string()).to_display_string(), "a");
    assert_eq!(FrontmatterValue::Bool(true).to_display_string(), "true");
    assert_eq!(FrontmatterValue::Array(vec!["a".to_string(), "b".to_string()]).to_display_string(), "[a, b]");
    assert_eq!(FrontmatterValue::Null.to_display_string(), "null");
    assert_eq!(FrontmatterValue::Mapping.to_display_string(), "{...}");
    assert_eq!(FrontmatterValue::String("a".to_string()).as_str(), Some("a"));
    assert_eq!(FrontmatterValue::Null.as_str(), None);
    assert!(FrontmatterValue::Array(vec![]).as_array().is_some());
    assert!(FrontmatterValue::Bool(false).as_array().is_none());
}

#[test]
fn number_values_display_like_floats() {
    let n = Note::parse_str("n.md", "---\na: 1.5\nb: 2\n---\n");
    assert_eq!(n.property("a"), Some("1.5".to_string()));
    assert_eq!(n.property("b"), Some("2".to_string()));
}

#[test]
fn yaml_frontmatter_entries_in_document_order() {
    let fm = obsidian_cli::kernel::yaml::frontmatter_from_yaml("a: 1\nb: [x, 2]\nc:\n  d: e\n5: z\nn: ~\nt: true\n");
    let keys: Vec<&str> = fm.iter().map(|(k, _)| k.as_str()).collect();
    assert_eq!(keys, vec!["a", "b", "c", "n", "t"]);
    assert_eq!(fm[0].1.to_display_string(), "1");
    assert_eq!(fm[1].1.as_array().unwrap(), &vec!["x".to_string(), "Number(2)".to_string()]);
    assert!(matches!(fm[2].1, FrontmatterValue::Mapping));
    assert!(matches!(fm[3].1, FrontmatterValue::Null));
    assert!(matches!(fm[4].1, FrontmatterValue::Bool(true)));
}

#[test]
fn yaml_frontmatter_not_a_mapping() {
    assert!(obsidian_cli::kernel::yaml::frontmatter_from_yaml("- a\n- b\n").is_empty());
    assert!(obsidian_cli::kernel::yaml::frontmatter_from_yaml("a: [unclosed").is_empty());
}
