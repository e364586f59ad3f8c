use differy::diff::{diff, Diff};
use differy::manifest::diff_hash_texts;

fn manifest(entries: &[(&str, &str)]) -> Vec<(String, String)> {
    entries
        .iter()
        .map(|(h, p)| (h.to_string(), p.to_string()))
        .collect()
}

#[test]
fn diff_reports_added_and_modified() {
    let old = manifest(&[("H1", "a.txt"), ("H2", "b/index.json")]);
    let new = manifest(&[("H1", "a.txt"), ("H3", "b/index.json"), ("H4", "c.txt")]);
    let d = diff(&old, &new);
    assert_eq!(d.added, vec!["c.txt".to_string()]);
    assert!(d.removed.is_empty());
    assert_eq!(d.modified, vec!["b/index.json".to_string()]);
}

#[test]
fn diff_of_manifest_with_itself_is_empty() {
    let m = manifest(&[("H1", "a.txt"), ("H2", "b/index.json"), ("H1", "c.txt")]);
    let d = diff(&m, &m);
    assert!(d.added.is_empty());
    assert!(d.removed.is_empty());
    assert!(d.modified.is_empty());
    let e: Vec<(String, String)> = Vec::new();
    let d = diff(&e, &e);
    assert!(d.added.is_empty() && d.removed.is_empty() && d.modified.is_empty());
}

#[test]
fn diff_partitions_paths() {
    let old = manifest(&[("H1", "keep"), ("H2", "gone"), ("H3", "changed")]);
    let new = manifest(&[("H9", "changed"), ("H1", "keep"), ("H2", "moved")]);
    let d = diff(&old, &new);
    assert_eq!(d.removed, vec!["gone".to_string()]);
    assert_eq!(d.added, vec!["moved".to_string()]);
    assert_eq!(d.modified, vec!["changed".to_string()]);
}

#[test]
fn diff_change_to_hash_of_another_file_is_modified() {
    let old = manifest(&[("H1", "a"), ("H2", "b")]);
    let new = manifest(&[("H2", "a"), ("H2", "b")]);
    let d = diff(&old, &new);
    assert_eq!(d.modified, vec!["a".to_string()]);
    assert!(d.added.is_empty() && d.removed.is_empty());
}

#[test]
fn diff_text_lists_removed_added_modified() {
    let d = Diff {
        added: vec!["n".to_string()],
        removed: vec!["r1".to_string(), "r2".to_string()],
        modified: vec!["m".to_string()],
    };
    assert_eq!(d.to_text(), "- r1\n- r2\n+ n\n~ m\n");
    let back = Diff::from_text(&d.to_text());
    assert_eq!(back.added, d.added);
    assert_eq!(back.removed, d.removed);
    assert_eq!(back.modified, d.modified);
}

#[test]
fn diff_from_text_skips_other_lines() {
    let d = Diff::from_text("+ a\nnoise\n~b\n~ c\n- d\n\n+ e");
    assert_eq!(d.added, vec!["a".to_string(), "e".to_string()]);
    assert_eq!(d.modified, vec!["c".to_string()]);
    assert_eq!(d.removed, vec!["d".to_string()]);
}

#[test]
fn update_iter_and_removed_listing() {
    let d = Diff {
        added: vec!["a".to_string(), "b".to_string()],
        removed: vec!["x".to_string(), "y".to_string()],
        modified: vec!["m".to_string()],
    };
    assert_eq!(
        d.update_iter(),
        vec!["a".to_string(), "b".to_string(), "m".to_string()]
    );
    assert_eq!(d.removed_listing(), "x\ny");
    let empty = Diff {
        added: vec![],
        removed: vec![],
        modified: vec![],
    };
    assert_eq!(empty.removed_listing(), "");
}

#[test]
fn diff_of_checksum_texts() {
    let d = diff_hash_texts("h1 a\nh2 b\n", "h1 a\nh3 b\nh4 c\n");
    assert_eq!(d.added, vec!["c".to_string()]);
    assert_eq!(d.modified, vec!["b".to_string()]);
    assert!(d.removed.is_empty());
}

#[test]
fn diff_of_large_manifests() {
    let old: Vec<(String, String)> = (0..500)
        .map(|i| (format!("h{}", i % 7), format!("dir{}/file{}.txt", i % 13, i)))
        .collect();
    let new: Vec<(String, String)> = (100..600)
        .map(|i| {
            let h = if i % 50 == 0 { 99 } else { i % 7 };
            (format!("h{}", h), format!("dir{}/file{}.txt", i % 13, i))
        })
        .collect();
    let d = diff(&old, &new);
    let removed: Vec<String> = (0..100)
        .map(|i| format!("dir{}/file{}.txt", i % 13, i))
        .collect();
    let added: Vec<String> = (500..600)
        .map(|i| format!("dir{}/file{}.txt", i % 13, i))
        .collect();
    let modified: Vec<String> = (100..500)
        .filter(|i| i % 50 == 0)
        .map(|i| format!("dir{}/file{}.txt", i % 13, i))
        .collect();
    assert_eq!(d.removed, removed);
    assert_eq!(d.added, added);
    assert_eq!(d.modified, modified);
}
