use differy::rewrite::{
    is_index_file, replace, replace_all_app, replace_all_web, rewrite_variant, RewriteError,
    Variant,
};

#[test]
fn test_replace_web() {
    let raw = r#"<iframe src=\"https://live-samples.mdn.mozilla.net/foo\">"#;
    let out = replace_all_web(raw.to_string());
    assert_eq!(r#"<iframe src=\"/foo\">"#, &out);
    let raw = r#"<iframe src=\"https://interactive-examples.mdn.mozilla.net/foo\">"#;
    let out = replace_all_web(raw.to_string());
    assert_eq!(r#"<iframe src=\"/examples/foo\">"#, &out);
}

#[test]
fn replace_app_rewrites_both_hosts() {
    let raw = r#"<a src=\"https://interactive-examples.mdn.mozilla.net/x\"><b src=\"https://live-samples.mdn.mozilla.net/y\">"#;
    let out = replace_all_app(raw.to_string());
    assert_eq!(
        r#"<a src=\"mdn-app://examples/examples/x\"><b src=\"mdn-app://live-samples/y\">"#,
        out
    );
}

#[test]
fn replace_without_sources_is_identity() {
    let text = "plain text with no example urls at all".to_string();
    assert_eq!(replace_all_app(text.clone()), text);
    assert_eq!(replace_all_web(text.clone()), text);
    assert_eq!(replace(String::new(), &[("a", "b")]).unwrap(), "");
}

#[test]
fn replace_twice_is_idempotent_once_sources_are_gone() {
    let raw = r#"x src=\"https://live-samples.mdn.mozilla.net/z y"#.to_string();
    let once = replace_all_web(raw);
    let twice = replace_all_web(once.clone());
    assert_eq!(once, twice);
    assert_eq!(once, r#"x src=\"/z y"#);
}

#[test]
fn replace_generic_rules_in_order_of_position() {
    let out = replace("abcabc".to_string(), &[("c", "3"), ("a", "1")]).unwrap();
    assert_eq!(out, "1b31b3");
    let out = replace("aaaa".to_string(), &[("aa", "b")]).unwrap();
    assert_eq!(out, "bb");
    let out = replace("aaa".to_string(), &[("aa", "b")]).unwrap();
    assert_eq!(out, "ba");
}

#[test]
fn replace_overlap_is_an_error() {
    assert_eq!(
        replace("abc".to_string(), &[("ab", "x"), ("bc", "y")]),
        Err(RewriteError::Overlap)
    );
    assert_eq!(
        replace("abc".to_string(), &[("ab", "x"), ("ab", "y")]),
        Err(RewriteError::Overlap)
    );
    assert_eq!(
        replace("ab ab".to_string(), &[("ab", "x"), ("b ", "y")]),
        Err(RewriteError::Overlap)
    );
}

#[test]
fn replace_overlap_elsewhere_is_fine() {
    assert_eq!(
        replace("ab-bc".to_string(), &[("ab", "x"), ("bc", "y")]).unwrap(),
        "x-y"
    );
}

#[test]
fn replace_empty_source_is_an_error() {
    assert_eq!(
        replace("abc".to_string(), &[("", "x")]),
        Err(RewriteError::EmptySource)
    );
}

#[test]
fn rewrite_variant_raw_keeps_text() {
    let raw = r#"src=\"https://live-samples.mdn.mozilla.net/q"#.to_string();
    assert_eq!(rewrite_variant(raw.clone(), Variant::Raw), raw);
    assert_eq!(
        rewrite_variant(raw, Variant::App),
        r#"src=\"mdn-app://live-samples/q"#
    );
}

#[test]
fn index_files_are_recognised_by_suffix() {
    assert!(is_index_file("b/index.json"));
    assert!(is_index_file("index.json"));
    assert!(!is_index_file("b/index.json.bak"));
    assert!(!is_index_file("a.txt"));
    assert!(!is_index_file("json"));
}
