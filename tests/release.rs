use differy::manifest::checksum_text;
use differy::release::{select_candidates, Release, Timestamp, Update, DEFAULT_WINDOW};

fn revs(v: &[&str]) -> Vec<String> {
    v.iter().map(|s| s.to_string()).collect()
}

fn state(latest: Option<&str>, updates: &[&str]) -> Update {
    Update {
        date: None,
        latest: latest.map(|s| s.to_string()),
        updates: revs(updates),
    }
}

#[test]
fn window_takes_latest_then_prior_revisions() {
    let s = state(Some("v4"), &["v1", "v2", "v3"]);
    assert_eq!(select_candidates(&s, "v5", 2), revs(&["v4", "v1"]));
    assert_eq!(select_candidates(&s, "v5", DEFAULT_WINDOW), revs(&["v4", "v1", "v2", "v3"]));
    assert_eq!(select_candidates(&s, "v4", 2), revs(&["v1", "v2"]));
    assert_eq!(select_candidates(&s, "v5", 0), revs(&["v4"]));
    assert!(select_candidates(&Update::empty(), "v1", 3).is_empty());
}

fn manifest() -> Vec<(String, String)> {
    vec![
        ("H1".to_string(), "a.txt".to_string()),
        ("H3".to_string(), "b/index.json".to_string()),
    ]
}

#[test]
fn run_builds_exactly_the_window_deltas() {
    let s = state(Some("v4"), &["v1", "v2", "v3"]);
    let mut run = Release::start(&s, "v5".to_string(), 2, manifest());
    let old = checksum_text(&[("H1".to_string(), "a.txt".to_string())]);
    let mut prefixes = vec![];
    while let Some(c) = run.pending() {
        let _ = c;
        let job = run.record(Some(&old)).unwrap();
        prefixes.push(job.prefix.clone());
        assert_eq!(job.diff.added, revs(&["b/index.json"]));
    }
    assert_eq!(prefixes, revs(&["v5-v4", "v5-v1"]));
    let date = Timestamp::new(1_700_000_000, 5).unwrap();
    let next = run.finish(date);
    assert_eq!(next.latest.as_deref(), Some("v5"));
    assert_eq!(next.updates, revs(&["v4", "v1"]));
    assert_eq!(next.date, Some(date));
}

#[test]
fn run_skips_candidate_without_checksums() {
    let s = state(Some("v2"), &["v1"]);
    let mut run = Release::start(&s, "v3".to_string(), DEFAULT_WINDOW, manifest());
    assert_eq!(run.pending().as_deref(), Some("v2"));
    let old = checksum_text(&manifest());
    let job = run.record(Some(&old)).unwrap();
    assert!(job.diff.added.is_empty() && job.diff.removed.is_empty() && job.diff.modified.is_empty());
    assert_eq!(run.pending().as_deref(), Some("v1"));
    assert!(run.record(None).is_none());
    assert!(run.pending().is_none());
    let next = run.finish(Timestamp::new(0, 0).unwrap());
    assert_eq!(next.updates, revs(&["v2"]));
    assert_eq!(next.latest.as_deref(), Some("v3"));
}

#[test]
fn first_run_has_no_candidates() {
    let run = Release::start(&Update::default(), "v1".to_string(), DEFAULT_WINDOW, manifest());
    assert!(run.pending().is_none());
    let next = run.finish(Timestamp::new(1, 0).unwrap());
    assert!(next.updates.is_empty());
    assert_eq!(next.latest.as_deref(), Some("v1"));
}

#[test]
fn timestamp_nanos_stay_within_second() {
    assert!(Timestamp::new(5, 999_999_999).is_some());
    assert!(Timestamp::new(5, 1_000_000_000).is_none());
}
