use differy::package::{
    build_name, checksum_archive_name, checksum_entry_name, content_listing, entry_content,
    update_prefix, EntryData, PackageError, CONTENT_FILENAME, UPDATE_FILENAME,
};
use differy::rewrite::Variant;

#[test]
fn output_names() {
    assert_eq!(build_name("v5-v4", UPDATE_FILENAME, false), "v5-v4-update.zip");
    assert_eq!(build_name("v5-v4", UPDATE_FILENAME, true), "v5-v4-app-update.zip");
    assert_eq!(build_name("v5", CONTENT_FILENAME, true), "v5-app-content.zip");
    assert_eq!(update_prefix("v5", "v1"), "v5-v1");
    assert_eq!(checksum_entry_name("v3"), "v3-checksums");
    assert_eq!(checksum_archive_name("v3"), "v3-checksums.zip");
}

fn text_of(e: EntryData) -> String {
    match e {
        EntryData::Text(t) => t,
        EntryData::Bytes(_) => panic!("expected text"),
    }
}

fn bytes_of(e: EntryData) -> Vec<u8> {
    match e {
        EntryData::Bytes(b) => b,
        EntryData::Text(_) => panic!("expected bytes"),
    }
}

#[test]
fn index_entry_is_rewritten_per_variant() {
    let content = br#"{"x": "<iframe src=\"https://interactive-examples.mdn.mozilla.net/x\">"}"#.to_vec();
    let app = text_of(entry_content("b/index.json", content.clone(), Variant::App).unwrap());
    assert_eq!(app, r#"{"x": "<iframe src=\"mdn-app://examples/examples/x\">"}"#);
    let web = text_of(entry_content("b/index.json", content.clone(), Variant::Web).unwrap());
    assert_eq!(web, r#"{"x": "<iframe src=\"/examples/x\">"}"#);
    let raw = bytes_of(entry_content("b/index.json", content.clone(), Variant::Raw).unwrap());
    assert_eq!(raw, content);
}

#[test]
fn other_entries_are_identical_in_both_variants() {
    let content = br#"src=\"https://interactive-examples.mdn.mozilla.net/x"#.to_vec();
    let app = bytes_of(entry_content("a.txt", content.clone(), Variant::App).unwrap());
    let web = bytes_of(entry_content("a.txt", content.clone(), Variant::Web).unwrap());
    assert_eq!(app, content);
    assert_eq!(web, content);
}

#[test]
fn index_entry_must_be_text() {
    let r = entry_content("index.json", vec![0xff, 0xfe, 0x00], Variant::Web);
    assert!(matches!(r, Err(PackageError::NotText)));
    let r = entry_content("other.bin", vec![0xff, 0xfe, 0x00], Variant::Web);
    assert_eq!(bytes_of(r.unwrap()), vec![0xff, 0xfe, 0x00]);
}

#[test]
fn index_entry_without_urls_is_kept() {
    let ok = entry_content("index.json", b"no urls".to_vec(), Variant::App);
    assert_eq!(text_of(ok.unwrap()), "no urls");
}

#[test]
fn content_listing_is_json_array_of_paths() {
    let m = vec![
        ("h1".to_string(), "a.txt".to_string()),
        ("h2".to_string(), "b/index.json".to_string()),
    ];
    assert_eq!(content_listing(&m).unwrap(), r#"["a.txt","b/index.json"]"#);
    assert_eq!(content_listing(&[]).unwrap(), "[]");
    assert!(content_listing(&m).is_some());
}

#[test]
fn content_listing_escapes_like_json() {
    let m = vec![
        ("h1".to_string(), "a\"b\\c".to_string()),
        ("h2".to_string(), "t\tn\nu\u{1}é".to_string()),
    ];
    assert_eq!(
        content_listing(&m).unwrap(),
        "[\"a\\\"b\\\\c\",\"t\\tn\\nu\\u0001é\"]"
    );
}
