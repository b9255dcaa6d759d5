use gitlab_collector::api::{
    api_host, contributors_count, contributors_url, first_commit, good_first_issues_count,
    good_first_issues_url, languages, languages_url, latest_commit, latest_release, releases_url,
    status_is_success, GitLabCommit, GitLabContributor, GitLabRelease, GitLabReleaseLinks, HttpReply,
};
use gitlab_collector::model::{Commit, Release, Timestamp};

fn at(secs: i64) -> Timestamp {
    Timestamp { secs, nanos: 0 }
}

fn commit(url: &str, secs: i64) -> GitLabCommit {
    GitLabCommit { web_url: url.to_string(), committed_date: at(secs) }
}

fn release(released: Option<i64>, created: Option<i64>, link: Option<&str>) -> GitLabRelease {
    GitLabRelease {
        released_at: released.map(at),
        created_at: created.map(at),
        links: GitLabReleaseLinks { self_link: link.map(|l| l.to_string()) },
    }
}

#[test]
fn issue_statistics_url_encodes_the_path() {
    assert_eq!(
        good_first_issues_url("https://gitlab.com", "group/sub group/project"),
        "https://gitlab.com/api/v4/projects/group%2Fsub%20group%2Fproject/issues_statistics?labels=good first issue&state=opened"
    );
}

#[test]
fn languages_url_encodes_the_path() {
    assert_eq!(
        languages_url("https://gl.example", "a/b"),
        "https://gl.example/api/v4/projects/a%2Fb/languages"
    );
    assert_eq!(
        languages_url("https://gl.example", "A-z_0.9~"),
        "https://gl.example/api/v4/projects/A-z_0.9~/languages"
    );
    assert_eq!(
        languages_url("https://gl.example", "gr\u{fc}ppe/\u{1f47e}"),
        "https://gl.example/api/v4/projects/gr%C3%BCppe%2F%F0%9F%91%BE/languages"
    );
    assert_eq!(languages_url("", ""), "/api/v4/projects//languages");
}

#[test]
fn page_urls() {
    assert_eq!(
        contributors_url("https://gitlab.com", "g/p"),
        "https://gitlab.com/g/p/-/graphs/main?ref_type=heads"
    );
    assert_eq!(releases_url("https://gitlab.com", "g/p"), "https://gitlab.com/g/p/-/releases");
}

#[test]
fn api_host_drops_the_scheme() {
    assert_eq!(api_host("https://gitlab.com"), "gitlab.com");
    assert_eq!(api_host("http://gl.example:8080"), "gl.example:8080");
    assert_eq!(api_host("gl.example"), "gl.example");
    assert_eq!(api_host("https://https://x"), "x");
    assert_eq!(api_host("https://http://x"), "x");
    assert_eq!(api_host("http://https://x"), "https://x");
    assert_eq!(api_host(""), "");
    let samples = ["https://a", "http://http://b", "ftp://c", "https://", "httphttp://"];
    for sample in samples {
        assert_eq!(
            api_host(sample),
            sample.trim_start_matches("https://").trim_start_matches("http://")
        );
    }
}

#[test]
fn success_is_200_to_299() {
    assert!(!status_is_success(199));
    assert!(status_is_success(200));
    assert!(status_is_success(204));
    assert!(status_is_success(299));
    assert!(!status_is_success(300));
    assert!(!status_is_success(404));
    assert!(!status_is_success(500));
}

#[test]
fn issue_count_degrades_to_unknown() {
    assert_eq!(good_first_issues_count(Some(HttpReply { status: 200, body: Some(5) })), Some(5));
    assert_eq!(good_first_issues_count(Some(HttpReply { status: 200, body: Some(0) })), Some(0));
    assert_eq!(good_first_issues_count(Some(HttpReply { status: 404, body: Some(5) })), None);
    assert_eq!(good_first_issues_count(Some(HttpReply { status: 404, body: None })), None);
    assert_eq!(good_first_issues_count(Some(HttpReply { status: 200, body: None })), None);
    assert_eq!(good_first_issues_count(None), None);
}

#[test]
fn languages_degrade_to_none() {
    let shares = vec![("Rust".to_string(), 90_500), ("Shell".to_string(), 9_500)];
    assert_eq!(languages(Some(HttpReply { status: 200, body: Some(shares.clone()) })), Some(shares.clone()));
    assert_eq!(languages(Some(HttpReply { status: 200, body: Some(vec![]) })), None);
    assert_eq!(languages(Some(HttpReply { status: 500, body: Some(shares) })), None);
    assert_eq!(languages(Some(HttpReply { status: 200, body: None })), None);
    assert_eq!(languages(None), None);
}

#[test]
fn contributor_count_is_the_length_of_the_listing() {
    let list: Vec<GitLabContributor> =
        (0..250).map(|i| GitLabContributor { name: format!("c{}", i) }).collect();
    assert_eq!(contributors_count(&list), 250);
    assert_eq!(contributors_count(&vec![]), 0);
}

#[test]
fn first_commit_is_the_last_of_the_listing() {
    let commits = vec![commit("new", 30), commit("mid", 20), commit("old", 10)];
    assert_eq!(first_commit(commits), Some(Commit { url: "old".to_string(), ts: Some(at(10)) }));
    assert_eq!(first_commit(vec![commit("only", 1)]), Some(Commit { url: "only".to_string(), ts: Some(at(1)) }));
    assert_eq!(first_commit(vec![]), None);
}

#[test]
fn latest_commit_is_the_first_of_the_listing() {
    let commits = vec![commit("new", 30), commit("old", 10)];
    assert_eq!(latest_commit(commits), Some(Commit { url: "new".to_string(), ts: Some(at(30)) }));
    assert_eq!(latest_commit(vec![]), None);
}

#[test]
fn latest_release_falls_back() {
    assert_eq!(latest_release(vec![], "https://gitlab.com", "g/p"), None);
    assert_eq!(
        latest_release(
            vec![release(Some(5), Some(3), Some("https://x/r1")), release(Some(1), None, None)],
            "https://gitlab.com",
            "g/p"
        ),
        Some(Release { ts: Some(at(5)), url: "https://x/r1".to_string() })
    );
    assert_eq!(
        latest_release(vec![release(None, Some(3), None)], "https://gitlab.com", "g/p"),
        Some(Release { ts: Some(at(3)), url: "https://gitlab.com/g/p/-/releases".to_string() })
    );
    assert_eq!(
        latest_release(vec![release(None, None, None)], "https://gl.example", "p"),
        Some(Release { ts: None, url: "https://gl.example/p/-/releases".to_string() })
    );
}
