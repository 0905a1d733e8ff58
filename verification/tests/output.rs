use obsidian_cli::kernel::index::VaultIndex;
use obsidian_cli::kernel::note::Note;
use obsidian_cli::kernel::output::{
    format_links, format_note, format_note_with_times, format_outline, format_search_results, format_tasks,
    format_wordcount, highlight_match, try_format_search_results, try_highlight_match,
};
use obsidian_cli::kernel::search::{search, SearchOptions};

fn plain() {
    colored::control::set_override(false);
}

#[test]
fn tasks_listing() {
    plain();
    let n = Note::parse_str("t.md", "- [ ] a\n    - [x] b\n");
    let ts: Vec<_> = n.tasks.iter().collect();
    assert_eq!(format_tasks(&ts), "Tasks: 2 total, 1 pending, 1 done\n\n[ ] a\n    [x] b\n");
    assert_eq!(format_tasks(&[]), "No tasks found.");
}

#[test]
fn outline_listing() {
    plain();
    let n = Note::parse_str("t.md", "# A\ntext\n### C\n");
    assert_eq!(format_outline(&n.headings), "# A (L1)\n    ### C (L3)\n");
    assert_eq!(format_outline(&[]), "No headings found.");
}

#[test]
fn links_listing() {
    plain();
    let n = Note::parse_str("t.md", "[[A]] ![[B#h]] [[C|see c]] [[D^x|D^x]]");
    assert_eq!(format_links(&n.wikilinks), "  → A\n  → !B#h\n  → C|see c\n  → D^x\n");
    assert_eq!(format_links(&[]), "No links found.");
}

#[test]
fn wordcount_listing() {
    plain();
    let n = Note::parse_str("t.md", "one two\n- [ ] three\n");
    assert_eq!(
        format_wordcount(&n),
        "Word Count:\n  Words: 3\n  Characters: 20\n  Lines: 2\n  Tasks: 1"
    );
}

#[test]
fn note_header() {
    plain();
    let n = Note::parse_str("/v/n.md", "hi #t [[x]]");
    assert_eq!(format_note(&n, false), "▸ n\n");
    assert_eq!(
        format_note_with_times(&n, true, Some("2024-01-02 03:04"), None),
        "▸ n\n  Path: /v/n.md\n  Created: 2024-01-02 03:04\n  Stats: 3 words, 11 chars\n  Tags: #t\n  Links: 1 links\n"
    );
}

#[test]
fn highlighting() {
    plain();
    assert_eq!(highlight_match("Hello World", "world"), "Hello World");
    assert_eq!(try_highlight_match("abc", "zz"), Some("abc".to_string()));
    // Lowercasing `İ` grows it by a byte, so the offset found in the
    // lowercased line falls inside a character of the line as given.
    assert_eq!(try_highlight_match("İx", "x"), None);
}

#[test]
fn search_results_listing() {
    plain();
    let idx = VaultIndex::build(vec![
        ("/v/a.md".to_string(), "first\nneedle here\nlast".to_string()),
        ("/v/b.md".to_string(), "nothing".to_string()),
    ]);
    let res = search(&idx, "needle", &SearchOptions::default()).unwrap();
    assert_eq!(res.len(), 1);
    assert_eq!(format_search_results(&res, 10), "Found 1 result(s)\n\n1. ▸ a\n   L2 needle here\n\n");
    assert_eq!(format_search_results(&res, 0), "Found 1 result(s)\n\n");
    assert_eq!(try_format_search_results(&[], 5), Some("No results found.".to_string()));
}
