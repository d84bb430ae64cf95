use keep_export_splitter::html::{image_keys, lookup_keys, present_values, MAX_DOCUMENT_BYTES};

#[test]
fn img_src_resolves_by_file_name() {
    let doc = "<html><body><img src=\"photos/cat.jpg\"></body></html>";
    assert_eq!(image_keys(doc), vec!["cat.jpg".to_string()]);
}

#[test]
fn images_in_document_order() {
    let doc = "<p>x</p><img src=\"b/two.png\"><div><img src=\"one.jpg\"></div><img src=\"c\\three.gif\">";
    assert_eq!(
        image_keys(doc),
        vec!["two.png".to_string(), "one.jpg".to_string(), "three.gif".to_string()]
    );
}

#[test]
fn img_without_src_skipped() {
    let doc = "<img alt=\"none\"><img src=\"a.png\"><a href=\"b.png\">b</a>";
    assert_eq!(image_keys(doc), vec!["a.png".to_string()]);
}

#[test]
fn malformed_html_still_parsed() {
    let doc = "<div><p>unclosed <img src=\"x/y.png\" <b>bold";
    assert_eq!(image_keys(doc), vec!["y.png".to_string()]);
}

#[test]
fn no_images_no_keys() {
    assert!(image_keys("").is_empty());
    assert!(image_keys("<html><body><p>text</p></body></html>").is_empty());
}

#[test]
fn keys_of_references() {
    let srcs = vec!["photos/cat.jpg".to_string(), "dog.png".to_string(), "a\\b.gif".to_string()];
    assert_eq!(
        lookup_keys(&srcs),
        vec!["cat.jpg".to_string(), "dog.png".to_string(), "b.gif".to_string()]
    );
}

#[test]
fn absent_src_values_dropped_in_order() {
    let attrs = vec![None, Some("a.png".to_string()), None, Some("b/c.gif".to_string())];
    assert_eq!(present_values(&attrs), vec!["a.png".to_string(), "b/c.gif".to_string()]);
    assert!(present_values(&vec![None, None]).is_empty());
}

#[test]
fn document_bound_is_a_third_of_two_gib() {
    assert_eq!(MAX_DOCUMENT_BYTES, 715_827_882);
    assert!(MAX_DOCUMENT_BYTES * 3 < 1usize << 31);
}
