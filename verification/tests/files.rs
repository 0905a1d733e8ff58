use obsidian_cli::kernel::note::Note;
use obsidian_cli::plugins::files::{
    append_text, destination_path, list_files, merge_texts, note_content_with, note_path_in, prepend_text,
    safe_name_exec, section_path_exec, split_sections, substitute, vault_totals,
};

fn strings(v: &[&str]) -> Vec<String> {
    v.iter().map(|s| s.to_string()).collect()
}

#[test]
fn where_new_notes_go() {
    assert_eq!(note_path_in("/v", "sub/n"), "/v/sub/n.md");
    assert_eq!(note_path_in("/v", "/abs/x"), "/abs/x");
    assert_eq!(note_path_in("/v", "a.txt"), "/v/a.txt");
    assert_eq!(destination_path("/v", "/abs/x"), "/abs/x.md");
    assert_eq!(destination_path("/v", "d/e.md"), "/v/d/e.md");
}

#[test]
fn new_note_content() {
    let none: Vec<String> = vec![];
    assert_eq!(
        note_content_with(Some("# {{title}} {{date}}\n{{name}}"), "N", "2024-01-01", "2024-01-01 10:00", &none, "now", None, None),
        "# N 2024-01-01\nN\n"
    );
    assert_eq!(
        note_content_with(Some("---\ntitle: x\n---\n"), "N", "d", "dt", &strings(&["a", "b"]), "now", None, None),
        "---\ntags:\n  - a\n  - b\n\ntitle: x\n---\n"
    );
    assert_eq!(
        note_content_with(None, "N", "d", "dt", &strings(&["t"]), "NOW", Some("Body"), None),
        "---\ntags:\n  - t\ncreated: NOW\n---\n\nBody\n"
    );
    assert_eq!(note_content_with(None, "N", "d", "dt", &none, "n", None, Some("from stdin")), "from stdin\n");
    assert_eq!(note_content_with(None, "N", "d", "dt", &none, "n", None, None), "\n");
}

#[test]
fn substitution_in_order() {
    let pairs = vec![("a".to_string(), "{{b}}".to_string()), ("b".to_string(), "B".to_string())];
    assert_eq!(substitute("{{a}}-{{b}}", &pairs), "B-B");
    assert_eq!(substitute("no vars", &pairs), "no vars");
}

#[test]
fn append_and_prepend() {
    assert_eq!(append_text("a", "b"), "a\nb\n");
    assert_eq!(append_text("a\n", "b\n"), "a\nb\n");
    assert_eq!(prepend_text("---\nt: 1\n---\nBody", "Top"), "---\nt: 1\n---\nTop\n\nBody");
    assert_eq!(prepend_text("Body", "Top"), "Top\nBody");
    assert_eq!(merge_texts(&strings(&["a", "b"]), "\n---\n"), "a\n---\nb");
    assert_eq!(merge_texts(&vec![], "x"), "");
}

#[test]
fn splitting_by_headings() {
    let parts = split_sections("Intro\n# One\ntext1\n# Two\ntext2\n", 1);
    assert_eq!(
        parts,
        vec![
            ("untitled".to_string(), "Intro\n".to_string()),
            ("One".to_string(), "text1\n".to_string()),
            ("Two".to_string(), "text2\n".to_string()),
        ]
    );
    let with_fm = split_sections("---\na: 1\n---\n# S\nx", 1);
    assert_eq!(
        with_fm,
        vec![
            ("untitled".to_string(), "---\na: 1\n---\n".to_string()),
            ("S".to_string(), "---\na: 1\n---\nx\n".to_string()),
        ]
    );
    let level2 = split_sections("# B\n## A\ny", 2);
    assert_eq!(level2, vec![("untitled".to_string(), "# B\n".to_string()), ("A".to_string(), "y\n".to_string())]);
    assert!(split_sections("", 1).is_empty());
}

#[test]
fn section_file_names() {
    assert_eq!(safe_name_exec("My Note: v2/final"), "My-Note_-v2_final");
    assert_eq!(safe_name_exec("日本 ok"), "日本-ok");
    assert_eq!(section_path_exec("/out", "A B"), "/out/A-B.md");
}

#[test]
fn listing_and_totals() {
    let paths = strings(&["/v/b.md", "/v/a.md", "/v/c.txt", "/v/a-b/x.md", "/v/a/y.md"]);
    assert_eq!(list_files(&paths, "md"), strings(&["/v/a/y.md", "/v/a-b/x.md", "/v/a.md", "/v/b.md"]));
    let notes = vec![Note::parse_str("a.md", "one two [[x]]"), Note::parse_str("b.md", "- [ ] three")];
    assert_eq!(vault_totals(&notes), (4, 1, 1));
}
