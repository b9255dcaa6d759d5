//! Repository fetcher: the protocol that assembles the snapshot of one
//! repository from the answers to its sub-fetches.
//!
//! The caller performs the sub-fetch that is pending and hands its answer to
//! `advance`. A required sub-fetch that fails ends the fetch without a
//! snapshot; a degradable one only leaves its part of the snapshot empty.

use crate::api::{
    contributors_count, contributors_url, contributors_url_of, first_commit, first_commit_of,
    good_first_issues_count, is_latest_release, is_success, issues_of, languages, languages_of,
    latest_commit, latest_commit_of, latest_release, GitLabCommit, GitLabContributor,
    GitLabProject, GitLabRelease, HttpReply,
};
use crate::model::{current_time, Commit, Contributors, Release, RepositoryGitData, Timestamp};
use crate::router::{parse_gitlab_url, route_of};
use vstd::prelude::*;

verus! {

/// The sub-fetches of a repository fetch, in the order in which they are
/// made.
#[derive(Debug, Clone, Copy, PartialEq, Eq, Structural)]
pub enum SubFetch {
    /// Project metadata. Required.
    Project,
    /// The full listing of contributors. Required.
    Contributors,
    /// The full listing of commits on the default branch. Required.
    FirstCommit,
    /// The language shares. Degradable.
    Languages,
    /// The statistics of open issues labelled "good first issue". Degradable.
    GoodFirstIssues,
    /// The most recent commit on the default branch. Required.
    LatestCommit,
    /// The most recent release. Required, though a project may have none.
    LatestRelease,
}

/// The answer to a sub-fetch. For a required sub-fetch `None` says that the
/// call failed; for a degradable one, that there was no answer.
#[derive(Debug, Clone, PartialEq, Eq)]
pub enum SubFetchResult {
    Project(Option<GitLabProject>),
    Contributors(Option<Vec<GitLabContributor>>),
    FirstCommit(Option<Vec<GitLabCommit>>),
    Languages(Option<HttpReply<Vec<(String, i64)>>>),
    GoodFirstIssues(Option<HttpReply<usize>>),
    LatestCommit(Option<Vec<GitLabCommit>>),
    LatestRelease(Option<Vec<GitLabRelease>>),
}

/// Why a repository fetch ended without a snapshot.
#[derive(Debug, Clone, Copy, PartialEq, Eq, Structural)]
pub enum FetchError {
    /// The repository URL has no route.
    InvalidUrl,
    /// The call for the pending sub-fetch failed.
    Transport(SubFetch),
    /// The default branch holds no commit.
    NoCommits,
    /// The answer is not one to the pending sub-fetch.
    OutOfTurn,
}

/// A repository fetch in progress: which sub-fetch is pending and what the
/// earlier ones gave.
#[derive(Debug, Clone, PartialEq, Eq)]
pub struct Fetch {
    pub base_url: String,
    pub project_path: String,
    pub pending: SubFetch,
    pub project: Option<GitLabProject>,
    pub contributors_count: usize,
    pub first_commit: Option<Commit>,
    pub languages: Option<Vec<(String, i64)>>,
    pub good_first_issues: Option<usize>,
    pub latest_commit: Option<Commit>,
}

/// Where a repository fetch stands after an answer.
#[derive(Debug, Clone, PartialEq, Eq)]
pub enum FetchProgress {
    /// Another sub-fetch is pending.
    Pending(Fetch),
    /// Every sub-fetch is done: the snapshot.
    Done(RepositoryGitData),
    /// The fetch failed; there is no snapshot.
    Failed(FetchError),
}

impl Fetch {
    /// What the earlier sub-fetches gave is there: the project once its
    /// sub-fetch is done, and the latest commit once only the release is
    /// pending.
    pub open spec fn wf(&self) -> bool {
        &&& self.pending != SubFetch::Project ==> self.project is Some
        &&& self.pending == SubFetch::LatestRelease ==> self.latest_commit is Some
    }
}

/// `fetch` is a fetch of the repository at `(base_url, project_path)` that
/// has not made any sub-fetch yet.
pub open spec fn is_new_fetch(fetch: Fetch, base_url: Seq<char>, project_path: Seq<char>) -> bool {
    &&& fetch.base_url@ == base_url
    &&& fetch.project_path@ == project_path
    &&& fetch.pending == SubFetch::Project
    &&& fetch.project is None
    &&& fetch.contributors_count == 0
    &&& fetch.first_commit is None
    &&& fetch.languages is None
    &&& fetch.good_first_issues is None
    &&& fetch.latest_commit is None
}

/// `snapshot` holds what `fetch` has gathered, the given release, and
/// `generated_at` as its time.
pub open spec fn is_snapshot(
    snapshot: RepositoryGitData,
    fetch: Fetch,
    latest_release: Option<Release>,
    generated_at: Timestamp,
) -> bool {
    let project = fetch.project->0;
    &&& snapshot.generated_at == generated_at
    &&& snapshot.contributors.count == fetch.contributors_count
    &&& snapshot.contributors.url@ == contributors_url_of(fetch.base_url@, fetch.project_path@)
    &&& snapshot.description@ == match project.description {
        Some(description) => description@,
        None => Seq::empty(),
    }
    &&& snapshot.first_commit == fetch.first_commit
    &&& snapshot.good_first_issues == fetch.good_first_issues
    &&& snapshot.languages == fetch.languages
    &&& Some(snapshot.latest_commit) == fetch.latest_commit
    &&& snapshot.latest_release == latest_release
    &&& snapshot.license == match project.license {
        Some(license) => Some(license.name),
        None => None,
    }
    &&& snapshot.stars == project.star_count
    &&& snapshot.topics == project.topics
    &&& snapshot.url == project.web_url
}

/// `progress` is where `fetch` stands after `result`, read at time `now`.
///
/// An answer to the pending sub-fetch stores what it gives and makes the
/// next sub-fetch pending; the answer to the last one gives the snapshot. A
/// required sub-fetch that failed, and a listing for the latest commit that
/// is empty, fail the fetch. An answer to another sub-fetch fails it too, and
/// so does the last answer to a fetch that lacks an earlier one.
pub open spec fn steps_to(
    fetch: Fetch,
    result: SubFetchResult,
    now: Timestamp,
    progress: FetchProgress,
) -> bool {
    match (fetch.pending, result) {
        (SubFetch::Project, SubFetchResult::Project(Some(project))) => progress
            == FetchProgress::Pending(
            Fetch { pending: SubFetch::Contributors, project: Some(project), ..fetch },
        ),
        (SubFetch::Contributors, SubFetchResult::Contributors(Some(contributors))) => progress
            == FetchProgress::Pending(
            Fetch {
                pending: SubFetch::FirstCommit,
                contributors_count: contributors@.len() as usize,
                ..fetch
            },
        ),
        (SubFetch::FirstCommit, SubFetchResult::FirstCommit(Some(commits))) => progress
            == FetchProgress::Pending(
            Fetch { pending: SubFetch::Languages, first_commit: first_commit_of(commits@), ..fetch },
        ),
        (SubFetch::Languages, SubFetchResult::Languages(reply)) => progress
            == FetchProgress::Pending(
            Fetch { pending: SubFetch::GoodFirstIssues, languages: languages_of(reply), ..fetch },
        ),
        (SubFetch::GoodFirstIssues, SubFetchResult::GoodFirstIssues(reply)) => progress
            == FetchProgress::Pending(
            Fetch { pending: SubFetch::LatestCommit, good_first_issues: issues_of(reply), ..fetch },
        ),
        (SubFetch::LatestCommit, SubFetchResult::LatestCommit(Some(commits))) => if commits@.len()
            == 0 {
            progress == FetchProgress::Failed(FetchError::NoCommits)
        } else {
            progress == FetchProgress::Pending(
                Fetch {
                    pending: SubFetch::LatestRelease,
                    latest_commit: latest_commit_of(commits@),
                    ..fetch
                },
            )
        },
        (SubFetch::LatestRelease, SubFetchResult::LatestRelease(Some(releases))) => if fetch.wf() {
            &&& progress is Done
            &&& is_latest_release(
                progress->Done_0.latest_release,
                releases@,
                fetch.base_url@,
                fetch.project_path@,
            )
            &&& is_snapshot(progress->Done_0, fetch, progress->Done_0.latest_release, now)
        } else {
            progress == FetchProgress::Failed(FetchError::OutOfTurn)
        },
        (SubFetch::Project, SubFetchResult::Project(None))
        | (SubFetch::Contributors, SubFetchResult::Contributors(None))
        | (SubFetch::FirstCommit, SubFetchResult::FirstCommit(None))
        | (SubFetch::LatestCommit, SubFetchResult::LatestCommit(None))
        | (SubFetch::LatestRelease, SubFetchResult::LatestRelease(None)) => progress
            == FetchProgress::Failed(FetchError::Transport(fetch.pending)),
        _ => progress == FetchProgress::Failed(FetchError::OutOfTurn),
    }
}

/// The sub-fetch whose failure fails the whole fetch.
pub open spec fn is_required(sub_fetch: SubFetch) -> bool {
    sub_fetch != SubFetch::Languages && sub_fetch != SubFetch::GoodFirstIssues
}

/// `result` is an answer to `sub_fetch`.
pub open spec fn answers(result: SubFetchResult, sub_fetch: SubFetch) -> bool {
    match (sub_fetch, result) {
        (SubFetch::Project, SubFetchResult::Project(_)) => true,
        (SubFetch::Contributors, SubFetchResult::Contributors(_)) => true,
        (SubFetch::FirstCommit, SubFetchResult::FirstCommit(_)) => true,
        (SubFetch::Languages, SubFetchResult::Languages(_)) => true,
        (SubFetch::GoodFirstIssues, SubFetchResult::GoodFirstIssues(_)) => true,
        (SubFetch::LatestCommit, SubFetchResult::LatestCommit(_)) => true,
        (SubFetch::LatestRelease, SubFetchResult::LatestRelease(_)) => true,
        _ => false,
    }
}

/// `result` says that the call failed, or that no commit was found where one
/// is needed.
pub open spec fn is_failure(result: SubFetchResult) -> bool {
    match result {
        SubFetchResult::Project(project) => project is None,
        SubFetchResult::Contributors(contributors) => contributors is None,
        SubFetchResult::FirstCommit(commits) => commits is None,
        SubFetchResult::Languages(reply) => reply is None,
        SubFetchResult::GoodFirstIssues(reply) => reply is None,
        SubFetchResult::LatestCommit(commits) => commits is None || commits->0@.len() == 0,
        SubFetchResult::LatestRelease(releases) => releases is None,
    }
}

/// A fetch gives all or nothing: when a required sub-fetch fails, the fetch
/// fails, whatever the earlier sub-fetches gave; and a snapshot comes only
/// with the answer to the last sub-fetch.
pub proof fn lemma_all_or_nothing(
    fetch: Fetch,
    result: SubFetchResult,
    now: Timestamp,
    progress: FetchProgress,
)
    requires
        steps_to(fetch, result, now, progress),
    ensures
        is_required(fetch.pending) && answers(result, fetch.pending) && is_failure(result)
            ==> progress is Failed,
        progress is Done ==> fetch.pending == SubFetch::LatestRelease && fetch.wf() && !is_failure(
            result,
        ),
{
}

/// A degradable sub-fetch never fails the fetch: whatever its answer, the
/// next sub-fetch becomes pending. Without an answer, with a status that is
/// no success or with an unreadable body its part is `None`.
pub proof fn lemma_degradable_never_fails(
    fetch: Fetch,
    result: SubFetchResult,
    now: Timestamp,
    progress: FetchProgress,
)
    requires
        steps_to(fetch, result, now, progress),
        !is_required(fetch.pending),
        answers(result, fetch.pending),
    ensures
        progress is Pending,
        result matches SubFetchResult::GoodFirstIssues(reply) && (reply is None || !is_success(
            reply->0.status,
        ) || reply->0.body is None) ==> progress->Pending_0.good_first_issues is None,
        result matches SubFetchResult::Languages(reply) && (reply is None || !is_success(
            reply->0.status,
        ) || reply->0.body is None) ==> progress->Pending_0.languages is None,
{
}

/// A count of good first issues that is unknown stays unknown in the
/// snapshot: after a degraded answer to that sub-fetch, the answers to the
/// two sub-fetches that follow give a snapshot whose count is `None`.
pub proof fn lemma_degraded_issues_in_snapshot(
    fetch: Fetch,
    reply: Option<HttpReply<usize>>,
    commits: Vec<GitLabCommit>,
    releases: Vec<GitLabRelease>,
    now: Timestamp,
    after_issues: FetchProgress,
    after_commit: FetchProgress,
    after_release: FetchProgress,
)
    requires
        fetch.pending == SubFetch::GoodFirstIssues,
        fetch.project is Some,
        reply is None || !is_success(reply->0.status) || reply->0.body is None,
        commits@.len() > 0,
        steps_to(fetch, SubFetchResult::GoodFirstIssues(reply), now, after_issues),
        after_issues is Pending ==> steps_to(
            after_issues->Pending_0,
            SubFetchResult::LatestCommit(Some(commits)),
            now,
            after_commit,
        ),
        after_commit is Pending ==> steps_to(
            after_commit->Pending_0,
            SubFetchResult::LatestRelease(Some(releases)),
            now,
            after_release,
        ),
    ensures
        after_release is Done,
        after_release->Done_0.good_first_issues is None,
{
}

/// Assembles the snapshot from what the sub-fetches gave.
pub fn collect_project_data(
    fetch: Fetch,
    latest_release: Option<Release>,
    generated_at: Timestamp,
) -> (snapshot: RepositoryGitData)
    requires
        fetch.project is Some,
        fetch.latest_commit is Some,
    ensures
        is_snapshot(snapshot, fetch, latest_release, generated_at),
{
    let url = contributors_url(fetch.base_url.as_str(), fetch.project_path.as_str());
    let project = fetch.project.unwrap();
    RepositoryGitData {
        generated_at,
        contributors: Contributors { count: fetch.contributors_count, url },
        description: match project.description {
            Some(description) => description,
            None => String::new(),
        },
        first_commit: fetch.first_commit,
        good_first_issues: fetch.good_first_issues,
        languages: fetch.languages,
        latest_commit: fetch.latest_commit.unwrap(),
        latest_release,
        license: match project.license {
            Some(license) => Some(license.name),
            None => None,
        },
        stars: project.star_count,
        topics: project.topics,
        url: project.web_url,
    }
}

impl Fetch {
    /// Starts the fetch of the repository at `repo_url`. Fails with
    /// `InvalidUrl` exactly when the URL has no route.
    pub fn start(repo_url: &str) -> (r: Result<Fetch, FetchError>)
        ensures
            match route_of(repo_url@) {
                Some((base_url, project_path)) => r is Ok && r->Ok_0.wf() && is_new_fetch(
                    r->Ok_0,
                    base_url,
                    project_path,
                ),
                None => r == Err::<Fetch, FetchError>(FetchError::InvalidUrl),
            },
    {
        match parse_gitlab_url(repo_url) {
            Some((base_url, project_path)) => Ok(
                Fetch {
                    base_url,
                    project_path,
                    pending: SubFetch::Project,
                    project: None,
                    contributors_count: 0,
                    first_commit: None,
                    languages: None,
                    good_first_issues: None,
                    latest_commit: None,
                },
            ),
            None => Err(FetchError::InvalidUrl),
        }
    }

    /// Takes the answer to a sub-fetch, with `now` as the time of the
    /// snapshot if this answer completes it.
    pub fn advance_at(self, result: SubFetchResult, now: Timestamp) -> (progress: FetchProgress)
        ensures
            steps_to(self, result, now, progress),
            self.wf() && progress is Pending ==> progress->Pending_0.wf(),
    {
        match (self.pending, result) {
            (SubFetch::Project, SubFetchResult::Project(Some(project))) => FetchProgress::Pending(
                Fetch { pending: SubFetch::Contributors, project: Some(project), ..self },
            ),
            (
                SubFetch::Contributors,
                SubFetchResult::Contributors(Some(contributors)),
            ) => FetchProgress::Pending(
                Fetch {
                    pending: SubFetch::FirstCommit,
                    contributors_count: contributors_count(&contributors),
                    ..self
                },
            ),
            (SubFetch::FirstCommit, SubFetchResult::FirstCommit(Some(commits))) => {
                FetchProgress::Pending(
                    Fetch { pending: SubFetch::Languages, first_commit: first_commit(commits), ..self },
                )
            },
            (SubFetch::Languages, SubFetchResult::Languages(reply)) => FetchProgress::Pending(
                Fetch { pending: SubFetch::GoodFirstIssues, languages: languages(reply), ..self },
            ),
            (SubFetch::GoodFirstIssues, SubFetchResult::GoodFirstIssues(reply)) => {
                FetchProgress::Pending(
                    Fetch {
                        pending: SubFetch::LatestCommit,
                        good_first_issues: good_first_issues_count(reply),
                        ..self
                    },
                )
            },
            (SubFetch::LatestCommit, SubFetchResult::LatestCommit(Some(commits))) => {
                match latest_commit(commits) {
                    Some(commit) => FetchProgress::Pending(
                        Fetch {
                            pending: SubFetch::LatestRelease,
                            latest_commit: Some(commit),
                            ..self
                        },
                    ),
                    None => FetchProgress::Failed(FetchError::NoCommits),
                }
            },
            (SubFetch::LatestRelease, SubFetchResult::LatestRelease(Some(releases))) => {
                if self.project.is_some() && self.latest_commit.is_some() {
                    let release = latest_release(
                        releases,
                        self.base_url.as_str(),
                        self.project_path.as_str(),
                    );
                    FetchProgress::Done(collect_project_data(self, release, now))
                } else {
                    FetchProgress::Failed(FetchError::OutOfTurn)
                }
            },
            (SubFetch::Project, SubFetchResult::Project(None))
            | (SubFetch::Contributors, SubFetchResult::Contributors(None))
            | (SubFetch::FirstCommit, SubFetchResult::FirstCommit(None))
            | (SubFetch::LatestCommit, SubFetchResult::LatestCommit(None))
            | (SubFetch::LatestRelease, SubFetchResult::LatestRelease(None)) => {
                FetchProgress::Failed(FetchError::Transport(self.pending))
            },
            _ => FetchProgress::Failed(FetchError::OutOfTurn),
        }
    }

    /// Takes the answer to a sub-fetch. A snapshot that this answer
    /// completes is dated with the current time.
    pub fn advance(self, result: SubFetchResult) -> (progress: FetchProgress)
        ensures
            exists|now: Timestamp| steps_to(self, result, now, progress),
            self.wf() && progress is Pending ==> progress->Pending_0.wf(),
    {
        let now = current_time();
        self.advance_at(result, now)
    }
}

} // verus!
