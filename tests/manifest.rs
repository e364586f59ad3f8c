use differy::manifest::{
    checksum_text, manifest_entry, parse_hashes, path_le_exec, relative_path, sort_by_path,
};

fn pairs(v: &[(&str, &str)]) -> Vec<(String, String)> {
    v.iter()
        .map(|(h, p)| (h.to_string(), p.to_string()))
        .collect()
}

#[test]
fn parse_hashes_reads_two_words_per_line() {
    let parsed = parse_hashes("h1 a.txt\n\nbad\n  h2   b/c.json  extra\nh3 d\n");
    assert_eq!(parsed, pairs(&[("h1", "a.txt"), ("h2", "b/c.json"), ("h3", "d")]));
}

#[test]
fn parse_hashes_of_empty_text() {
    assert!(parse_hashes("").is_empty());
    assert!(parse_hashes("\n\n").is_empty());
}

#[test]
fn checksum_text_format() {
    let m = pairs(&[("h1", "a.txt"), ("h2", "b/index.json")]);
    assert_eq!(checksum_text(&m), "h1 a.txt\nh2 b/index.json\n");
    assert_eq!(checksum_text(&[]), "");
}

#[test]
fn checksum_round_trip() {
    let m = pairs(&[("ff00", "z.txt"), ("00aa", "a/b.txt"), ("1234", "m")]);
    assert_eq!(parse_hashes(&checksum_text(&m)), m);
}

#[test]
fn manifest_entry_hashes_content() {
    let (h, p) = manifest_entry(b"abc", "x/y.txt".to_string());
    assert_eq!(
        h,
        "ba7816bf8f01cfea414140de5dae2223b00361a396177a9cb410ff61f20015ad"
    );
    assert_eq!(p, "x/y.txt");
    let (h, _) = manifest_entry(b"", "e".to_string());
    assert_eq!(
        h,
        "e3b0c44298fc1c149afbf4c8996fb92427ae41e4649b934ca495991b7852b855"
    );
}

#[test]
fn relative_path_joins_components() {
    let parts = vec!["b".to_string(), "c".to_string(), "index.json".to_string()];
    assert_eq!(relative_path(&parts), "b/c/index.json");
    assert_eq!(relative_path(&vec!["a.txt".to_string()]), "a.txt");
    assert_eq!(relative_path(&vec![]), "");
}

#[test]
fn sort_by_path_orders_whole_paths() {
    let m = pairs(&[("h1", "b"), ("h2", "a/b"), ("h3", "a.txt"), ("h4", "A"), ("h5", "a")]);
    let sorted = sort_by_path(&m);
    assert_eq!(
        sorted,
        pairs(&[("h4", "A"), ("h5", "a"), ("h3", "a.txt"), ("h2", "a/b"), ("h1", "b")])
    );
    assert!(sort_by_path(&vec![]).is_empty());
}

#[test]
fn sort_by_path_keeps_duplicates() {
    let m = pairs(&[("h1", "z"), ("h2", "y"), ("h3", "z"), ("h4", "x")]);
    let sorted = sort_by_path(&m);
    assert_eq!(sorted.len(), 4);
    let paths: Vec<&str> = sorted.iter().map(|(_, p)| p.as_str()).collect();
    assert_eq!(paths, vec!["x", "y", "z", "z"]);
}

#[test]
fn path_order_compares_characters_then_length() {
    assert!(path_le_exec(&"a".to_string(), &"a.txt".to_string()));
    assert!(!path_le_exec(&"a/b".to_string(), &"a.txt".to_string()));
    assert!(path_le_exec(&"".to_string(), &"".to_string()));
    assert!(!path_le_exec(&"b".to_string(), &"a".to_string()));
}

#[test]
fn manifest_hash_is_lowercase_hex() {
    let (h, _) = manifest_entry(b"hello world", "f".to_string());
    assert_eq!(h.len(), 64);
    assert!(h.chars().all(|c| c.is_ascii_digit() || ('a'..='f').contains(&c)));
}
