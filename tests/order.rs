use keep_export_splitter::names::ScanEntry;
use keep_export_splitter::order::{path_le, select_notes, sort_paths};

fn strings(v: &[&str]) -> Vec<String> {
    v.iter().map(|s| s.to_string()).collect()
}

#[test]
fn paths_sorted_lexicographically() {
    let sorted = sort_paths(strings(&["keep/b.html", "keep/a/c.html", "keep/a.html", "keep/B.html"]));
    assert_eq!(sorted, strings(&["keep/B.html", "keep/a/c.html", "keep/a.html", "keep/b.html"]));
}

#[test]
fn duplicates_kept() {
    let sorted = sort_paths(strings(&["z", "a", "z", "m"]));
    assert_eq!(sorted, strings(&["a", "m", "z", "z"]));
}

#[test]
fn sorting_empty_list() {
    assert!(sort_paths(Vec::new()).is_empty());
}

#[test]
fn order_of_two_paths() {
    assert!(path_le(&"a".to_string(), &"ab".to_string()));
    assert!(!path_le(&"ab".to_string(), &"a".to_string()));
    assert!(path_le(&"abc".to_string(), &"abc".to_string()));
    assert!(path_le(&"".to_string(), &"x".to_string()));
    assert!(!path_le(&"b".to_string(), &"a".to_string()));
}

#[test]
fn separator_orders_before_other_characters() {
    assert!(path_le(&"a/c".to_string(), &"a.b".to_string()));
    assert!(path_le(&"a/z".to_string(), &"a-b".to_string()));
    assert!(!path_le(&"ab/c".to_string(), &"a/c".to_string()));
}

fn scanned(path: &str, is_file: bool) -> ScanEntry {
    let name = path.rsplit('/').next().unwrap().to_string();
    ScanEntry { path: path.to_string(), name, is_file }
}

#[test]
fn notes_selected_and_sorted() {
    let entries = vec![
        scanned("keep", false),
        scanned("keep/z.html", true),
        scanned("keep/old.html", false),
        scanned("keep/a.html", true),
        scanned("keep/a.json", true),
        scanned("keep/.html", true),
        scanned("keep/sub/b.html", true),
    ];
    assert_eq!(select_notes(entries), strings(&["keep/a.html", "keep/sub/b.html", "keep/z.html"]));
}

#[test]
fn no_entries_no_notes() {
    assert!(select_notes(Vec::new()).is_empty());
}
