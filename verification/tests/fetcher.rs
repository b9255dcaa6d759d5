use gitlab_collector::api::{
    GitLabCommit, GitLabContributor, GitLabLicense, GitLabProject, GitLabRelease,
    GitLabReleaseLinks, HttpReply,
};
use gitlab_collector::fetcher::{
    collect_project_data, Fetch, FetchError, FetchProgress, SubFetch, SubFetchResult,
};
use gitlab_collector::model::{Commit, Contributors, Release, RepositoryGitData, Timestamp};

fn at(secs: i64) -> Timestamp {
    Timestamp { secs, nanos: 0 }
}

fn project() -> GitLabProject {
    GitLabProject {
        description: Some("A project".to_string()),
        default_branch: "main".to_string(),
        path_with_namespace: "group/project".to_string(),
        star_count: 42,
        topics: vec!["rust".to_string(), "cli".to_string()],
        web_url: "https://gitlab.com/group/project".to_string(),
        license: Some(GitLabLicense { name: "MIT License".to_string() }),
    }
}

fn commits() -> Vec<GitLabCommit> {
    vec![
        GitLabCommit { web_url: "https://gitlab.com/group/project/-/commit/c3".to_string(), committed_date: at(300) },
        GitLabCommit { web_url: "https://gitlab.com/group/project/-/commit/c2".to_string(), committed_date: at(200) },
        GitLabCommit { web_url: "https://gitlab.com/group/project/-/commit/c1".to_string(), committed_date: at(100) },
    ]
}

fn releases() -> Vec<GitLabRelease> {
    vec![GitLabRelease {
        released_at: None,
        created_at: Some(at(250)),
        links: GitLabReleaseLinks { self_link: None },
    }]
}

fn good_answers() -> Vec<SubFetchResult> {
    vec![
        SubFetchResult::Project(Some(project())),
        SubFetchResult::Contributors(Some(vec![
            GitLabContributor { name: "a".to_string() },
            GitLabContributor { name: "b".to_string() },
        ])),
        SubFetchResult::FirstCommit(Some(commits())),
        SubFetchResult::Languages(Some(HttpReply {
            status: 200,
            body: Some(vec![("Rust".to_string(), 66_690), ("C".to_string(), 33_310)]),
        })),
        SubFetchResult::GoodFirstIssues(Some(HttpReply { status: 200, body: Some(4) })),
        SubFetchResult::LatestCommit(Some(vec![commits().remove(0)])),
        SubFetchResult::LatestRelease(Some(releases())),
    ]
}

fn run(url: &str, answers: Vec<SubFetchResult>, now: Timestamp) -> FetchProgress {
    let mut fetch = Fetch::start(url).unwrap();
    let order = [
        SubFetch::Project,
        SubFetch::Contributors,
        SubFetch::FirstCommit,
        SubFetch::Languages,
        SubFetch::GoodFirstIssues,
        SubFetch::LatestCommit,
        SubFetch::LatestRelease,
    ];
    let mut step = 0;
    for answer in answers {
        assert_eq!(fetch.pending, order[step]);
        match fetch.advance_at(answer, now) {
            FetchProgress::Pending(next) => fetch = next,
            other => return other,
        }
        step += 1;
    }
    FetchProgress::Pending(fetch)
}

fn expected_snapshot(now: Timestamp) -> RepositoryGitData {
    RepositoryGitData {
        generated_at: now,
        contributors: Contributors {
            count: 2,
            url: "https://gitlab.com/group/project/-/graphs/main?ref_type=heads".to_string(),
        },
        description: "A project".to_string(),
        first_commit: Some(Commit {
            url: "https://gitlab.com/group/project/-/commit/c1".to_string(),
            ts: Some(at(100)),
        }),
        good_first_issues: Some(4),
        languages: Some(vec![("Rust".to_string(), 66_690), ("C".to_string(), 33_310)]),
        latest_commit: Commit {
            url: "https://gitlab.com/group/project/-/commit/c3".to_string(),
            ts: Some(at(300)),
        },
        latest_release: Some(Release {
            ts: Some(at(250)),
            url: "https://gitlab.com/group/project/-/releases".to_string(),
        }),
        license: Some("MIT License".to_string()),
        stars: 42,
        topics: vec!["rust".to_string(), "cli".to_string()],
        url: "https://gitlab.com/group/project".to_string(),
    }
}

#[test]
fn fetch_starts_with_the_route_of_the_url() {
    let fetch = Fetch::start("https://gitlab.com/group/project.git/").unwrap();
    assert_eq!(fetch.base_url, "https://gitlab.com");
    assert_eq!(fetch.project_path, "group/project");
    assert_eq!(fetch.pending, SubFetch::Project);
    assert_eq!(fetch.project, None);
    assert_eq!(fetch.latest_commit, None);
}

#[test]
fn fetch_of_an_unroutable_url_is_invalid() {
    assert_eq!(Fetch::start("https://github.com/group/project"), Err(FetchError::InvalidUrl));
    assert_eq!(Fetch::start("not a url"), Err(FetchError::InvalidUrl));
}

#[test]
fn full_fetch_gives_the_snapshot() {
    let now = at(1_700_000_000);
    assert_eq!(
        run("https://gitlab.com/group/project", good_answers(), now),
        FetchProgress::Done(expected_snapshot(now))
    );
}

#[test]
fn failed_latest_commit_gives_no_snapshot() {
    let mut answers = good_answers();
    answers[5] = SubFetchResult::LatestCommit(None);
    assert_eq!(
        run("https://gitlab.com/group/project", answers, at(1)),
        FetchProgress::Failed(FetchError::Transport(SubFetch::LatestCommit))
    );
}

#[test]
fn repository_without_commit_gives_no_snapshot() {
    let mut answers = good_answers();
    answers[5] = SubFetchResult::LatestCommit(Some(vec![]));
    assert_eq!(
        run("https://gitlab.com/group/project", answers, at(1)),
        FetchProgress::Failed(FetchError::NoCommits)
    );
}

#[test]
fn each_required_sub_fetch_can_fail_the_fetch() {
    let failures = [
        (0, SubFetchResult::Project(None), SubFetch::Project),
        (1, SubFetchResult::Contributors(None), SubFetch::Contributors),
        (2, SubFetchResult::FirstCommit(None), SubFetch::FirstCommit),
        (5, SubFetchResult::LatestCommit(None), SubFetch::LatestCommit),
        (6, SubFetchResult::LatestRelease(None), SubFetch::LatestRelease),
    ];
    for (position, failure, sub_fetch) in failures {
        let mut answers = good_answers();
        answers[position] = failure;
        assert_eq!(
            run("https://gitlab.com/group/project", answers, at(1)),
            FetchProgress::Failed(FetchError::Transport(sub_fetch))
        );
    }
}

#[test]
fn issues_endpoint_404_still_gives_a_full_snapshot() {
    let now = at(1_700_000_000);
    let mut answers = good_answers();
    answers[4] = SubFetchResult::GoodFirstIssues(Some(HttpReply { status: 404, body: None }));
    let mut expected = expected_snapshot(now);
    expected.good_first_issues = None;
    assert_eq!(run("https://gitlab.com/group/project", answers, now), FetchProgress::Done(expected));
}

#[test]
fn degradable_sub_fetches_never_fail_the_fetch() {
    let now = at(5);
    let mut answers = good_answers();
    answers[3] = SubFetchResult::Languages(None);
    answers[4] = SubFetchResult::GoodFirstIssues(None);
    let mut expected = expected_snapshot(now);
    expected.languages = None;
    expected.good_first_issues = None;
    assert_eq!(run("https://gitlab.com/group/project", answers, now), FetchProgress::Done(expected));

    let mut answers = good_answers();
    answers[3] = SubFetchResult::Languages(Some(HttpReply { status: 200, body: Some(vec![]) }));
    answers[4] = SubFetchResult::GoodFirstIssues(Some(HttpReply { status: 200, body: None }));
    let mut expected = expected_snapshot(now);
    expected.languages = None;
    expected.good_first_issues = None;
    assert_eq!(run("https://gitlab.com/group/project", answers, now), FetchProgress::Done(expected));
}

#[test]
fn absent_parts_degrade() {
    let now = at(9);
    let mut answers = good_answers();
    let mut bare = project();
    bare.description = None;
    bare.license = None;
    bare.topics = vec![];
    answers[0] = SubFetchResult::Project(Some(bare));
    answers[1] = SubFetchResult::Contributors(Some(vec![]));
    answers[2] = SubFetchResult::FirstCommit(Some(vec![]));
    answers[6] = SubFetchResult::LatestRelease(Some(vec![]));
    let mut expected = expected_snapshot(now);
    expected.description = String::new();
    expected.license = None;
    expected.topics = vec![];
    expected.contributors.count = 0;
    expected.first_commit = None;
    expected.latest_release = None;
    assert_eq!(run("https://gitlab.com/group/project", answers, now), FetchProgress::Done(expected));
}

#[test]
fn answer_out_of_turn_fails_the_fetch() {
    let fetch = Fetch::start("https://gitlab.com/group/project").unwrap();
    assert_eq!(
        fetch.advance_at(SubFetchResult::Contributors(Some(vec![])), at(1)),
        FetchProgress::Failed(FetchError::OutOfTurn)
    );
    let mut fetch = Fetch::start("https://gitlab.com/group/project").unwrap();
    fetch.pending = SubFetch::LatestRelease;
    assert_eq!(
        fetch.advance_at(SubFetchResult::LatestRelease(Some(vec![])), at(1)),
        FetchProgress::Failed(FetchError::OutOfTurn)
    );
}

#[test]
fn snapshot_is_dated_with_the_current_time() {
    let mut fetch = Fetch::start("https://gitlab.com/group/project").unwrap();
    let mut answers = good_answers();
    let last = answers.pop().unwrap();
    for answer in answers {
        match fetch.advance(answer) {
            FetchProgress::Pending(next) => fetch = next,
            other => panic!("unexpected {:?}", other),
        }
    }
    let before = std::time::SystemTime::now()
        .duration_since(std::time::UNIX_EPOCH)
        .unwrap()
        .as_secs() as i64;
    match fetch.advance(last) {
        FetchProgress::Done(snapshot) => {
            assert!(snapshot.generated_at.secs >= before - 1);
            assert!(snapshot.generated_at.secs <= before + 60);
            assert!(snapshot.generated_at.nanos < 2_000_000_000);
        }
        other => panic!("unexpected {:?}", other),
    }
}

#[test]
fn snapshot_is_assembled_from_the_parts() {
    let mut fetch = Fetch::start("https://gl.example/g/p").unwrap();
    fetch.project = Some(project());
    fetch.contributors_count = 3;
    fetch.latest_commit = Some(Commit { url: "c".to_string(), ts: None });
    let snapshot = collect_project_data(fetch, None, at(77));
    assert_eq!(snapshot.generated_at, at(77));
    assert_eq!(snapshot.contributors.count, 3);
    assert_eq!(snapshot.contributors.url, "https://gl.example/g/p/-/graphs/main?ref_type=heads");
    assert_eq!(snapshot.latest_commit, Commit { url: "c".to_string(), ts: None });
    assert_eq!(snapshot.latest_release, None);
    assert_eq!(snapshot.stars, 42);
}
