//! URL router: splits a repository URL into the base URL of its hosting
//! instance and the project path, and rejects URLs of the other platform.

use crate::text::{
    chars_of, contains, contains_seq, first_index, has_prefix, lemma_first_index, slice_of,
    starts_with, string_of, strip_suffix_all, trim_end_matches,
};
use vstd::prelude::*;

verus! {

/// Marker of the other hosting platform: a URL that contains it is never
/// routed.
pub open spec fn foreign_marker() -> Seq<char> {
    "github.com"@
}

/// The scheme prefixes of a routable URL.
pub open spec fn is_scheme_prefix(scheme: Seq<char>) -> bool {
    scheme == "https://"@ || scheme == "http://"@
}

/// The scheme prefix that `url` begins with, if it begins with one.
pub open spec fn scheme_of(url: Seq<char>) -> Option<Seq<char>> {
    if has_prefix(url, "https://"@) {
        Some("https://"@)
    } else if has_prefix(url, "http://"@) {
        Some("http://"@)
    } else {
        None
    }
}

/// Suffix that is dropped from the end of a project path.
pub open spec fn git_suffix() -> Seq<char> {
    ".git"@
}

/// The route of `url`: the instance base URL and the project path.
///
/// A routable URL is `https://` or `http://`, a non-empty host without `/`,
/// a `/`, and a non-empty remainder without line feed. The base URL is the
/// scheme prefix with the host. One trailing `/` of the remainder is dropped
/// unless it is the whole remainder, then every repetition of the `.git`
/// suffix.
pub open spec fn route_of(url: Seq<char>) -> Option<(Seq<char>, Seq<char>)> {
    if contains_seq(url, foreign_marker()) || scheme_of(url) is None {
        None
    } else {
        let scheme = scheme_of(url)->0;
        let rest = url.skip(scheme.len() as int);
        let host_len = first_index(rest, '/');
        let tail = rest.skip(host_len as int + 1);
        if host_len == 0 || host_len >= rest.len() || tail.len() == 0 || tail.contains('\n') {
            None
        } else {
            let path = if tail.len() >= 2 && tail.last() == '/' {
                tail.drop_last()
            } else {
                tail
            };
            Some((url.take(scheme.len() as int + host_len), strip_suffix_all(path, git_suffix())))
        }
    }
}

/// The view of a routing result.
pub open spec fn route_view(r: Option<(String, String)>) -> Option<(Seq<char>, Seq<char>)> {
    match r {
        Some((base, path)) => Some((base@, path@)),
        None => None,
    }
}

/// A URL that contains the foreign marker has no route, whatever its shape.
pub proof fn lemma_foreign_url_rejected(url: Seq<char>)
    requires
        contains_seq(url, foreign_marker()),
    ensures
        route_of(url) is None,
{
}

/// The URL `scheme` `host` `/` `path`, with or without one trailing `/`.
pub open spec fn repository_url(
    scheme: Seq<char>,
    host: Seq<char>,
    path: Seq<char>,
    trailing_slash: bool,
) -> Seq<char> {
    scheme + host + seq!['/'] + path + if trailing_slash {
        seq!['/']
    } else {
        Seq::<char>::empty()
    }
}

/// A URL that begins with a scheme prefix has that prefix as its scheme.
pub proof fn lemma_scheme_of(scheme: Seq<char>, rest: Seq<char>)
    requires
        is_scheme_prefix(scheme),
    ensures
        scheme_of(scheme + rest) == Some(scheme),
{
    reveal_strlit("https://");
    reveal_strlit("http://");
    let url = scheme + rest;
    assert(url.subrange(0, scheme.len() as int) == scheme);
    if scheme == "http://"@ {
        if has_prefix(url, "https://"@) {
            assert(url.subrange(0, 8)[4] == 's');
            assert(url[4] == scheme[4]);
        }
    }
}

/// Every URL of the shape `scheme://host/path[/]`, for the schemes `https`
/// and `http`, that does not hold the foreign marker is routed to
/// `scheme://host` and to `path` without its `.git` suffixes.
pub proof fn lemma_repository_url_routed(
    scheme: Seq<char>,
    host: Seq<char>,
    path: Seq<char>,
    trailing_slash: bool,
)
    requires
        is_scheme_prefix(scheme),
        host.len() > 0,
        !host.contains('/'),
        path.len() > 0,
        !path.contains('\n'),
        trailing_slash || path.last() != '/',
        !contains_seq(repository_url(scheme, host, path, trailing_slash), foreign_marker()),
    ensures
        route_of(repository_url(scheme, host, path, trailing_slash)) == Some(
            (scheme + host, strip_suffix_all(path, git_suffix())),
        ),
{
    let url = repository_url(scheme, host, path, trailing_slash);
    let slash = if trailing_slash {
        seq!['/']
    } else {
        Seq::<char>::empty()
    };
    assert(url == scheme + (host + seq!['/'] + path + slash));
    lemma_scheme_of(scheme, host + seq!['/'] + path + slash);
    let rest = url.skip(scheme.len() as int);
    assert(rest == host + seq!['/'] + path + slash);
    assert forall|k: int| 0 <= k < host.len() implies rest[k] != '/' by {
        assert(rest[k] == host[k]);
    }
    lemma_first_index(rest, '/', host.len() as int);
    let tail = rest.skip(host.len() as int + 1);
    assert(tail == path + slash);
    assert(!tail.contains('\n')) by {
        if tail.contains('\n') {
            let k = choose|k: int| 0 <= k < tail.len() && tail[k] == '\n';
            if k < path.len() {
                assert(path[k] == '\n');
            }
        }
    }
    if trailing_slash {
        assert(tail.drop_last() == path);
    }
    assert(url.take(scheme.len() as int + host.len()) == scheme + host);
}

/// Splits a repository URL into the base URL of its instance and the project
/// path. Returns `None` for a URL of the other platform and for one that is
/// not of the routable shape; the schemes that route are `https` and `http`.
#[verifier::loop_isolation(false)]
pub fn parse_gitlab_url(repo_url: &str) -> (r: Option<(String, String)>)
    ensures
        route_view(r) == route_of(repo_url@),
{
    let url = chars_of(repo_url);
    let marker = chars_of("github.com");
    let https = chars_of("https://");
    let http = chars_of("http://");
    let suffix = chars_of(".git");
    proof {
        reveal_strlit("https://");
        reveal_strlit("http://");
    }
    if contains(&url, &marker) {
        return None;
    }
    let from: usize = if starts_with(&url, &https) {
        https.len()
    } else if starts_with(&url, &http) {
        http.len()
    } else {
        return None;
    };
    assert(scheme_of(url@) is Some && scheme_of(url@)->0.len() == from);
    let n: usize = url.len();
    let ghost rest = url@.skip(from as int);
    let mut i: usize = from;
    while i < n && url[i] != '/'
        invariant
            from <= i <= n,
            n == url.len(),
            forall|k: int| from <= k < i ==> url@[k] != '/',
        decreases n - i,
    {
        i += 1;
    }
    proof {
        assert forall|k: int| 0 <= k < i - from implies rest[k] != '/' by {
            assert(rest[k] == url@[from + k]);
        }
        lemma_first_index(rest, '/', i - from);
    }
    if i == from || i >= n || i + 1 >= n {
        return None;
    }
    let ghost tail = rest.skip(i - from + 1);
    assert(tail == url@.skip(i + 1));
    let mut j: usize = i + 1;
    while j < n
        invariant
            i + 1 <= j <= n,
            n == url.len(),
            forall|k: int| i + 1 <= k < j ==> url@[k] != '\n',
        decreases n - j,
    {
        if url[j] == '\n' {
            assert(tail[j - i - 1] == '\n');
            return None;
        }
        j += 1;
    }
    assert(!tail.contains('\n')) by {
        if tail.contains('\n') {
            let k = choose|k: int| 0 <= k < tail.len() && tail[k] == '\n';
            assert(url@[i + 1 + k] == '\n');
        }
    }
    let end: usize = if n - (i + 1) >= 2 && url[n - 1] == '/' {
        n - 1
    } else {
        n
    };
    let path = slice_of(&url, i + 1, end);
    assert(path@ == if tail.len() >= 2 && tail.last() == '/' {
        tail.drop_last()
    } else {
        tail
    });
    let base = slice_of(&url, 0, i);
    assert(base@ == url@.take(from + (i - from)));
    let project = trim_end_matches(&path, &suffix);
    Some((string_of(&base), string_of(&project)))
}

} // verus!
