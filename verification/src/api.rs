//! What the engine asks of the GitLab API and how it reads the answers: the
//! endpoint URLs, the shapes of the answers, and the rules that turn an
//! answer into a part of a snapshot.

use crate::model::{unique_languages, Commit, Release, Timestamp};
use crate::text::{chars_of, string_of, strip_prefix_all, trim_start_matches};
use vstd::prelude::*;
use vstd::string::StringExecFns;
use vstd::utf8::encode_utf8;

verus! {

/// Project information returned by the API.
#[derive(Debug, Clone, PartialEq, Eq)]
pub struct GitLabProject {
    pub description: Option<String>,
    pub default_branch: String,
    pub path_with_namespace: String,
    pub star_count: i64,
    pub topics: Vec<String>,
    pub web_url: String,
    pub license: Option<GitLabLicense>,
}

/// License information returned by the API.
#[derive(Debug, Clone, PartialEq, Eq)]
pub struct GitLabLicense {
    pub name: String,
}

/// Contributor information returned by the API.
#[derive(Debug, Clone, PartialEq, Eq)]
pub struct GitLabContributor {
    pub name: String,
}

/// Commit information returned by the API.
#[derive(Debug, Clone, PartialEq, Eq)]
pub struct GitLabCommit {
    pub web_url: String,
    pub committed_date: Timestamp,
}

/// Release information returned by the API.
#[derive(Debug, Clone, PartialEq, Eq)]
pub struct GitLabRelease {
    pub released_at: Option<Timestamp>,
    pub created_at: Option<Timestamp>,
    pub links: GitLabReleaseLinks,
}

/// Links of a release.
#[derive(Debug, Clone, PartialEq, Eq)]
pub struct GitLabReleaseLinks {
    pub self_link: Option<String>,
}

/// An HTTP answer: the status code, and the body if it could be read as the
/// expected value.
#[derive(Debug, Clone, PartialEq, Eq)]
pub struct HttpReply<T> {
    pub status: u16,
    pub body: Option<T>,
}

/// Bytes that percent-encoding leaves as they are: ASCII letters and digits,
/// `-`, `.`, `_` and `~`.
pub open spec fn is_unreserved(b: u8) -> bool {
    ||| 0x30 <= b <= 0x39
    ||| 0x41 <= b <= 0x5A
    ||| 0x61 <= b <= 0x7A
    ||| b == 0x2D
    ||| b == 0x2E
    ||| b == 0x5F
    ||| b == 0x7E
}

/// The uppercase hexadecimal digit for a value below sixteen.
pub open spec fn hex_digit(d: u8) -> char {
    if d < 10 {
        ((0x30 + d) as u8) as char
    } else {
        ((0x37 + d) as u8) as char
    }
}

/// One byte, percent-encoded.
pub open spec fn encoded_byte(b: u8) -> Seq<char> {
    if is_unreserved(b) {
        seq![b as char]
    } else {
        seq!['%', hex_digit(b / 16), hex_digit(b % 16)]
    }
}

/// A byte string, percent-encoded byte by byte.
pub open spec fn percent_encoded(bytes: Seq<u8>) -> Seq<char>
    decreases bytes.len(),
{
    if bytes.len() == 0 {
        Seq::empty()
    } else {
        percent_encoded(bytes.drop_last()) + encoded_byte(bytes.last())
    }
}

/// `urlencoding::encode` percent-encodes every byte of the UTF-8 form of the
/// text except ASCII letters and digits, `-`, `.`, `_` and `~`, with
/// uppercase hexadecimal digits.
#[verifier::external_body]
fn encode(text: &str) -> (r: String)
    ensures
        r@ == percent_encoded(encode_utf8(text@)),
{
    urlencoding::encode(text).into_owned()
}

/// URL of the issue statistics of a project, for open issues with the label
/// "good first issue".
pub open spec fn good_first_issues_url_of(base_url: Seq<char>, project_path: Seq<char>) -> Seq<
    char,
> {
    base_url + "/api/v4/projects/"@ + percent_encoded(encode_utf8(project_path))
        + "/issues_statistics?labels=good first issue&state=opened"@
}

/// URL of the language shares of a project.
pub open spec fn languages_url_of(base_url: Seq<char>, project_path: Seq<char>) -> Seq<char> {
    base_url + "/api/v4/projects/"@ + percent_encoded(encode_utf8(project_path)) + "/languages"@
}

/// URL of the page that shows the contributors of a project.
pub open spec fn contributors_url_of(base_url: Seq<char>, project_path: Seq<char>) -> Seq<char> {
    base_url + "/"@ + project_path + "/-/graphs/main?ref_type=heads"@
}

/// URL of the page that lists the releases of a project.
pub open spec fn releases_url_of(base_url: Seq<char>, project_path: Seq<char>) -> Seq<char> {
    base_url + "/"@ + project_path + "/-/releases"@
}

/// The host that the API client is built for: the base URL without its
/// scheme.
pub open spec fn api_host_of(base_url: Seq<char>) -> Seq<char> {
    strip_prefix_all(strip_prefix_all(base_url, "https://"@), "http://"@)
}

/// A status code from 200 to 299.
pub open spec fn is_success(status: u16) -> bool {
    200 <= status <= 299
}

/// The count of good first issues that an answer gives: the count it holds
/// if the status is a success and the body could be read, otherwise unknown.
pub open spec fn issues_of(reply: Option<HttpReply<usize>>) -> Option<usize> {
    match reply {
        Some(reply) => if is_success(reply.status) {
            reply.body
        } else {
            None
        },
        None => None,
    }
}

/// The language data that an answer gives: the shares it holds if the status
/// is a success, the body could be read and it names a language, otherwise
/// none.
pub open spec fn languages_of(reply: Option<HttpReply<Vec<(String, i64)>>>) -> Option<
    Vec<(String, i64)>,
> {
    match reply {
        Some(reply) => match reply.body {
            Some(languages) => if is_success(reply.status) && languages.len() > 0 {
                Some(languages)
            } else {
                None
            },
            None => None,
        },
        None => None,
    }
}

/// The commit that a listed commit stands for.
pub open spec fn commit_of(commit: GitLabCommit) -> Commit {
    Commit { url: commit.web_url, ts: Some(commit.committed_date) }
}

/// The first commit of a branch: the last one of the full listing, if the
/// listing holds any.
pub open spec fn first_commit_of(commits: Seq<GitLabCommit>) -> Option<Commit> {
    if commits.len() == 0 {
        None
    } else {
        Some(commit_of(commits.last()))
    }
}

/// The latest commit of a branch: the first one of the listing, if the
/// listing holds any.
pub open spec fn latest_commit_of(commits: Seq<GitLabCommit>) -> Option<Commit> {
    if commits.len() == 0 {
        None
    } else {
        Some(commit_of(commits[0]))
    }
}

/// `release` is what the listing of releases gives for the project: nothing
/// if the listing is empty, else the first release, dated by its release
/// time or else its creation time, with its own link or else the URL of the
/// project's releases page.
pub open spec fn is_latest_release(
    release: Option<Release>,
    releases: Seq<GitLabRelease>,
    base_url: Seq<char>,
    project_path: Seq<char>,
) -> bool {
    if releases.len() == 0 {
        release is None
    } else {
        &&& release is Some
        &&& release->0.ts == match releases[0].released_at {
            Some(ts) => Some(ts),
            None => releases[0].created_at,
        }
        &&& release->0.url@ == match releases[0].links.self_link {
            Some(link) => link@,
            None => releases_url_of(base_url, project_path),
        }
    }
}

/// URL of the issue statistics of a project, for open issues with the label
/// "good first issue".
pub fn good_first_issues_url(base_url: &str, project_path: &str) -> (url: String)
    ensures
        url@ == good_first_issues_url_of(base_url@, project_path@),
{
    let encoded = encode(project_path);
    String::from_str(base_url).concat("/api/v4/projects/").concat(encoded.as_str()).concat(
        "/issues_statistics?labels=good first issue&state=opened",
    )
}

/// URL of the language shares of a project.
pub fn languages_url(base_url: &str, project_path: &str) -> (url: String)
    ensures
        url@ == languages_url_of(base_url@, project_path@),
{
    let encoded = encode(project_path);
    String::from_str(base_url).concat("/api/v4/projects/").concat(encoded.as_str()).concat(
        "/languages",
    )
}

/// URL of the page that shows the contributors of a project.
pub fn contributors_url(base_url: &str, project_path: &str) -> (url: String)
    ensures
        url@ == contributors_url_of(base_url@, project_path@),
{
    String::from_str(base_url).concat("/").concat(project_path).concat(
        "/-/graphs/main?ref_type=heads",
    )
}

/// URL of the page that lists the releases of a project.
pub fn releases_url(base_url: &str, project_path: &str) -> (url: String)
    ensures
        url@ == releases_url_of(base_url@, project_path@),
{
    String::from_str(base_url).concat("/").concat(project_path).concat("/-/releases")
}

/// The host that the API client is built for: the base URL without its
/// scheme.
pub fn api_host(base_url: &str) -> (host: String)
    ensures
        host@ == api_host_of(base_url@),
{
    let https = chars_of("https://");
    let http = chars_of("http://");
    let without_https = trim_start_matches(&chars_of(base_url), &https);
    string_of(&trim_start_matches(&without_https, &http))
}

/// Whether a status code is a success.
pub fn status_is_success(status: u16) -> (r: bool)
    ensures
        r == is_success(status),
{
    200 <= status && status <= 299
}

/// The count of good first issues that an answer gives. No answer, a status
/// that is no success and a body that could not be read all give `None`.
pub fn good_first_issues_count(reply: Option<HttpReply<usize>>) -> (count: Option<usize>)
    ensures
        count == issues_of(reply),
{
    match reply {
        Some(reply) => if status_is_success(reply.status) {
            reply.body
        } else {
            None
        },
        None => None,
    }
}

/// The language data that an answer gives. No answer, a status that is no
/// success, a body that could not be read and an empty body all give `None`.
/// The list of shares is taken as given: it is the body itself, so a body
/// that names no language twice gives a list that names none twice.
pub fn languages(reply: Option<HttpReply<Vec<(String, i64)>>>) -> (shares: Option<
    Vec<(String, i64)>,
>)
    ensures
        shares == languages_of(reply),
        shares is Some ==> reply is Some && reply->0.body == shares,
        shares is Some && unique_languages(reply->0.body->0@) ==> unique_languages(shares->0@),
{
    match reply {
        Some(reply) => match reply.body {
            Some(languages) => if status_is_success(reply.status) && languages.len() > 0 {
                Some(languages)
            } else {
                None
            },
            None => None,
        },
        None => None,
    }
}

/// The number of contributors: the length of their full listing.
pub fn contributors_count(contributors: &Vec<GitLabContributor>) -> (count: usize)
    ensures
        count == contributors@.len(),
{
    contributors.len()
}

/// The first commit of a branch: the last one of the full listing.
pub fn first_commit(commits: Vec<GitLabCommit>) -> (commit: Option<Commit>)
    ensures
        commit == first_commit_of(commits@),
{
    let mut commits = commits;
    match commits.pop() {
        Some(last) => Some(Commit { url: last.web_url, ts: Some(last.committed_date) }),
        None => None,
    }
}

/// The latest commit of a branch: the first one of the listing.
pub fn latest_commit(commits: Vec<GitLabCommit>) -> (commit: Option<Commit>)
    ensures
        commit == latest_commit_of(commits@),
{
    let mut commits = commits;
    if commits.len() == 0 {
        None
    } else {
        let first = commits.swap_remove(0);
        Some(Commit { url: first.web_url, ts: Some(first.committed_date) })
    }
}

/// The latest release of a project: the first one of the listing.
pub fn latest_release(releases: Vec<GitLabRelease>, base_url: &str, project_path: &str) -> (release:
    Option<Release>)
    ensures
        is_latest_release(release, releases@, base_url@, project_path@),
{
    let mut releases = releases;
    if releases.len() == 0 {
        None
    } else {
        let first = releases.swap_remove(0);
        let ts = match first.released_at {
            Some(ts) => Some(ts),
            None => first.created_at,
        };
        let url = match first.links.self_link {
            Some(link) => link,
            None => releases_url(base_url, project_path),
        };
        Some(Release { ts, url })
    }
}

} // verus!
