use keep_export_splitter::names::{
    file_name_of, find_first, has_html_extension, is_note, is_pool_match, ScanEntry,
};

#[test]
fn reference_reduced_to_file_name() {
    assert_eq!(file_name_of("photos/cat.jpg"), "cat.jpg");
}

#[test]
fn backslash_reference_reduced_to_file_name() {
    assert_eq!(file_name_of("C:\\images\\photos\\cat.jpg"), "cat.jpg");
}

#[test]
fn mixed_separators_use_the_last() {
    assert_eq!(file_name_of("a\\b/c\\d.png"), "d.png");
}

#[test]
fn bare_name_kept() {
    assert_eq!(file_name_of("cat.jpg"), "cat.jpg");
}

#[test]
fn trailing_separator_gives_empty_name() {
    assert_eq!(file_name_of("photos/"), "");
    assert_eq!(file_name_of(""), "");
}

#[test]
fn html_extension_detected() {
    assert!(has_html_extension("note.html"));
    assert!(has_html_extension("my note 2020.html"));
    assert!(has_html_extension("..html"));
}

#[test]
fn other_names_are_not_html() {
    assert!(!has_html_extension(".html"));
    assert!(!has_html_extension("html"));
    assert!(!has_html_extension("note.htm"));
    assert!(!has_html_extension("note.HTML"));
    assert!(!has_html_extension("note.html.json"));
    assert!(!has_html_extension(""));
}

fn entry(name: &str, is_file: bool) -> ScanEntry {
    ScanEntry { path: format!("pool/{}", name), name: name.to_string(), is_file }
}

#[test]
fn first_match_in_walk_order() {
    let entries = vec![entry("a.png", true), entry("cat.jpg", true), entry("cat.jpg", true)];
    assert_eq!(find_first(&entries, &"cat.jpg".to_string()), Some(1));
}

#[test]
fn missing_image_not_found() {
    let entries = vec![entry("a.png", true), entry("dog.jpg", true)];
    assert_eq!(find_first(&entries, &"cat.jpg".to_string()), None);
    assert_eq!(find_first(&Vec::new(), &"cat.jpg".to_string()), None);
}

#[test]
fn match_is_exact() {
    let entries = vec![entry("Cat.jpg", true), entry("cat.jpeg", true), entry("xcat.jpg", true)];
    assert_eq!(find_first(&entries, &"cat.jpg".to_string()), None);
}

#[test]
fn directory_named_like_image_skipped() {
    let entries = vec![entry("cat.jpg", false), entry("cat.jpg", true)];
    assert_eq!(find_first(&entries, &"cat.jpg".to_string()), Some(1));
    assert!(!is_pool_match(&entry("cat.jpg", false), &"cat.jpg".to_string()));
    assert!(is_pool_match(&entry("cat.jpg", true), &"cat.jpg".to_string()));
}

#[test]
fn notes_are_html_files() {
    assert!(is_note(&entry("n.html", true)));
    assert!(!is_note(&entry("n.html", false)));
    assert!(!is_note(&entry("n.json", true)));
}
