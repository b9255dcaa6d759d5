use gitlab_collector::model::{
    is_fresh, Commit, Contributors, GitData, RepositoryGitData, Timestamp, GITLAB_CACHE_TTL,
};

const DAY: i64 = 86_400;

fn at(secs: i64, nanos: u32) -> Timestamp {
    Timestamp { secs, nanos }
}

fn snapshot(stars: i64) -> RepositoryGitData {
    RepositoryGitData {
        generated_at: at(1_700_000_000, 0),
        contributors: Contributors { count: 1, url: "c".to_string() },
        description: String::new(),
        first_commit: None,
        good_first_issues: None,
        languages: None,
        latest_commit: Commit { url: "l".to_string(), ts: None },
        latest_release: None,
        license: None,
        stars,
        topics: vec![],
        url: "u".to_string(),
    }
}

#[test]
fn ttl_is_seven_days() {
    assert_eq!(GITLAB_CACHE_TTL, 7);
}

#[test]
fn six_days_old_is_fresh() {
    let now = at(1_700_000_000, 5);
    assert!(is_fresh(at(now.secs - 6 * DAY, 5), now));
}

#[test]
fn eight_days_old_is_not_fresh() {
    let now = at(1_700_000_000, 5);
    assert!(!is_fresh(at(now.secs - 8 * DAY, 5), now));
}

#[test]
fn boundary_at_exactly_seven_days() {
    let generated = at(1_700_000_000, 500);
    assert!(!is_fresh(generated, at(generated.secs + 7 * DAY, 500)));
    assert!(is_fresh(generated, at(generated.secs + 7 * DAY, 499)));
    assert!(!is_fresh(generated, at(generated.secs + 7 * DAY, 501)));
    assert!(is_fresh(generated, at(generated.secs + 7 * DAY - 1, 999_999_999)));
}

#[test]
fn snapshot_from_the_future_is_fresh() {
    assert!(is_fresh(at(2_000_000_000, 0), at(1_000_000_000, 0)));
}

#[test]
fn freshness_at_the_ends_of_the_range() {
    assert!(!is_fresh(at(i64::MIN, 0), at(i64::MAX, 999_999_999)));
    assert!(is_fresh(at(i64::MAX, 999_999_999), at(i64::MIN, 0)));
    assert!(is_fresh(at(i64::MAX, 0), at(i64::MAX, 1)));
}

#[test]
fn git_data_starts_empty() {
    let data = GitData::new();
    assert_eq!(data.len(), 0);
    assert!(data.get(&"https://gitlab.com/a/b".to_string()).is_none());
    assert!(!data.contains_key(&"https://gitlab.com/a/b".to_string()));
}

#[test]
fn git_data_insert_get_remove() {
    let mut data = GitData::new();
    let a = "https://gitlab.com/a/a".to_string();
    let b = "https://gitlab.com/b/b".to_string();
    data.insert(a.clone(), snapshot(1));
    data.insert(b.clone(), snapshot(2));
    assert_eq!(data.len(), 2);
    assert_eq!(data.get(&a).unwrap().stars, 1);
    assert_eq!(data.get(&b).unwrap().stars, 2);
    assert_eq!(data.remove(&a).unwrap().stars, 1);
    assert!(data.remove(&a).is_none());
    assert!(!data.contains_key(&a));
    assert_eq!(data.get(&b).unwrap().stars, 2);
    assert_eq!(data.len(), 1);
}

#[test]
fn git_data_insert_replaces() {
    let mut data = GitData::new();
    let a = "https://gitlab.com/a/a".to_string();
    data.insert(a.clone(), snapshot(1));
    data.insert(a.clone(), snapshot(7));
    assert_eq!(data.len(), 1);
    assert_eq!(data.get(&a).unwrap().stars, 7);
    let entries = data.into_entries();
    assert_eq!(entries.len(), 1);
    assert_eq!(entries[0].0, a);
    assert_eq!(entries[0].1, snapshot(7));
}
