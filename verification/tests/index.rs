use obsidian_cli::kernel::index::VaultIndex;

fn files() -> Vec<(String, String)> {
    vec![
        ("/v/Alpha.md".to_string(), "---\ntags: [proj]\n---\nLinks to [[Beta]] and [[Missing]] and ![[Gamma]]\n#proj #idea".to_string()),
        ("/v/Beta.md".to_string(), "Back to [[alpha]] #idea".to_string()),
        ("/v/Gamma.md".to_string(), "Nothing here".to_string()),
        ("/v/sub/Delta.md".to_string(), "Only [[Nowhere]]".to_string()),
    ]
}

#[test]
fn build_indexes_names_and_tags() {
    let idx = VaultIndex::build(files());
    assert_eq!(idx.notes.len(), 4);
    assert_eq!(idx.find_by_name("ALPHA").unwrap().path, "/v/Alpha.md");
    assert_eq!(idx.find_by_name("delta").unwrap().name, "Delta");
    assert!(idx.find_by_name("zeta").is_none());
    let idea: Vec<&str> = idx.find_by_tag("idea").iter().map(|n| n.name.as_str()).collect();
    assert_eq!(idea, vec!["Alpha", "Beta"]);
    let proj: Vec<&str> = idx.find_by_tag("proj").iter().map(|n| n.name.as_str()).collect();
    assert_eq!(proj, vec!["Alpha"]);
    assert!(idx.find_by_tag("none").is_empty());
}

#[test]
fn backlinks_and_unresolved_partition_links() {
    let idx = VaultIndex::build(files());
    let to_beta: Vec<&str> = idx.get_backlinks("Beta").iter().map(|n| n.name.as_str()).collect();
    assert_eq!(to_beta, vec!["Alpha"]);
    let to_alpha: Vec<&str> = idx.get_backlinks("alpha").iter().map(|n| n.name.as_str()).collect();
    assert_eq!(to_alpha, vec!["Beta"]);
    assert!(idx.get_backlinks("Gamma").is_empty());
    let unresolved: Vec<(String, String)> = idx.unresolved.clone();
    assert_eq!(
        unresolved,
        vec![
            ("/v/Alpha.md".to_string(), "Missing".to_string()),
            ("/v/sub/Delta.md".to_string(), "Nowhere".to_string()),
        ]
    );
}

#[test]
fn all_tags_most_used_first() {
    let idx = VaultIndex::build(files());
    let tags: Vec<(String, usize)> = idx.all_tags().iter().map(|(t, c)| ((*t).clone(), *c)).collect();
    assert_eq!(tags, vec![("idea".to_string(), 2), ("proj".to_string(), 1)]);
}

#[test]
fn orphans_and_deadends() {
    let idx = VaultIndex::build(files());
    let orphans: Vec<&str> = idx.orphans().iter().map(|n| n.name.as_str()).collect();
    assert_eq!(orphans, Vec::<&str>::new());
    let dead: Vec<&str> = idx.deadends().iter().map(|n| n.name.as_str()).collect();
    assert_eq!(dead, vec!["Delta"]);
    let lonely = VaultIndex::build(vec![("/v/L.md".to_string(), "alone".to_string())]);
    let orphans: Vec<&str> = lonely.orphans().iter().map(|n| n.name.as_str()).collect();
    assert_eq!(orphans, vec!["L"]);
}
