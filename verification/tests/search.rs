use obsidian_cli::kernel::error::Error;
use obsidian_cli::kernel::index::VaultIndex;
use obsidian_cli::kernel::search::{fuzzy_find, search, SearchOptions};

fn index() -> VaultIndex {
    VaultIndex::build(vec![
        ("/v/rust.md".to_string(), "---\ntags: [lang]\nstatus: draft one\n---\nRust is fast\nl2\nl3\nRUST again\nl5\nl6".to_string()),
        ("/v/go.md".to_string(), "Go is simple\nno mention".to_string()),
        ("/v/notes/rusty.md".to_string(), "nothing relevant".to_string()),
    ])
}

#[test]
fn default_options() {
    let o = SearchOptions::default();
    assert!(!o.regex && !o.case_sensitive && !o.path_only);
    assert_eq!(o.context_lines, 2);
    assert!(o.tag.is_none() && o.property.is_none());
}

#[test]
fn literal_search_ignores_case_and_scores() {
    let idx = index();
    let res = search(&idx, "rust", &SearchOptions::default()).unwrap();
    let names: Vec<&str> = res.iter().map(|r| r.note.name.as_str()).collect();
    assert_eq!(names, vec!["rust", "rusty"]);
    let first = &res[0];
    let lines: Vec<usize> = first.matches.iter().map(|m| m.line_num).collect();
    assert_eq!(lines, vec![5, 8, 0]);
    assert_eq!(first.matches[1].context_before, Some("l2\nl3".to_string()));
    assert_eq!(first.matches[1].context_after, Some("l5\nl6".to_string()));
    assert_eq!(first.matches[0].context_before, Some("status: draft one\n---".to_string()));
    assert!(res[0].score >= res[1].score);
}

#[test]
fn case_sensitive_and_regex() {
    let idx = index();
    let mut o = SearchOptions::default();
    o.case_sensitive = true;
    let res = search(&idx, "RUST", &o).unwrap();
    assert_eq!(res.len(), 1);
    assert_eq!(res[0].matches.len(), 1);
    o.regex = true;
    let res = search(&idx, "^(Go|Rust) is", &o).unwrap();
    assert_eq!(res.len(), 2);
    match search(&idx, "(", &o) {
        Err(Error::InvalidPattern(_)) => {}
        Err(e) => panic!("unexpected {:?}", e),
        Ok(_) => panic!("expected an error"),
    }
}

#[test]
fn filters_and_path_only() {
    let idx = index();
    let mut o = SearchOptions::default();
    o.tag = Some("lang".to_string());
    let res = search(&idx, "is", &o).unwrap();
    let names: Vec<&str> = res.iter().map(|r| r.note.name.as_str()).collect();
    assert_eq!(names, vec!["rust"]);
    let mut p = SearchOptions::default();
    p.property = Some(("status".to_string(), "draft".to_string()));
    let res = search(&idx, "is", &p).unwrap();
    assert_eq!(res.len(), 1);
    let mut q = SearchOptions::default();
    q.path_only = true;
    let res = search(&idx, "notes/", &q).unwrap();
    assert_eq!(res.len(), 1);
    assert_eq!(res[0].note.name, "rusty");
    assert!(res[0].matches.is_empty());
}

#[test]
fn fuzzy_by_name() {
    let idx = index();
    let found: Vec<&str> = fuzzy_find(&idx, "rst").iter().map(|(n, _)| n.name.as_str()).collect();
    assert!(found.contains(&"rust"));
    assert!(found.contains(&"rusty"));
    assert!(!found.contains(&"go"));
    let all = fuzzy_find(&idx, "");
    assert_eq!(all.len(), 3);
    assert!(all.iter().all(|(_, s)| *s == 0));
}
