use gitlab_collector::router::parse_gitlab_url;
use regex::Regex;

fn route(url: &str) -> Option<(String, String)> {
    parse_gitlab_url(url)
}

fn pair(base: &str, path: &str) -> Option<(String, String)> {
    Some((base.to_string(), path.to_string()))
}

/// The pattern and the suffix rule that the router implements.
fn reference_route(url: &str) -> Option<(String, String)> {
    if url.contains("github.com") {
        return None;
    }
    let pattern = Regex::new(r"^(?P<base>https?://[^/]+)/(?P<path>.+?)/?$").unwrap();
    pattern.captures(url).map(|c| {
        (c["base"].to_string(), c["path"].trim_end_matches(".git").to_string())
    })
}

#[test]
fn routes_plain_project_url() {
    assert_eq!(route("https://gitlab.com/group/project"), pair("https://gitlab.com", "group/project"));
}

#[test]
fn routes_nested_namespace_on_own_instance() {
    assert_eq!(
        route("https://gl.example.org/a/b/c/project"),
        pair("https://gl.example.org", "a/b/c/project")
    );
}

#[test]
fn strips_one_trailing_slash() {
    assert_eq!(route("https://gitlab.com/group/project/"), pair("https://gitlab.com", "group/project"));
    assert_eq!(route("https://gitlab.com/group/project//"), pair("https://gitlab.com", "group/project/"));
}

#[test]
fn strips_git_suffix() {
    assert_eq!(route("https://gitlab.com/group/project.git"), pair("https://gitlab.com", "group/project"));
    assert_eq!(route("https://gitlab.com/group/project.git/"), pair("https://gitlab.com", "group/project"));
    assert_eq!(route("https://gitlab.com/group/project.git.git"), pair("https://gitlab.com", "group/project"));
}

#[test]
fn git_suffix_alone_leaves_empty_path() {
    assert_eq!(route("https://gitlab.com/.git"), pair("https://gitlab.com", ""));
}

#[test]
fn rejects_foreign_platform_whatever_the_shape() {
    assert_eq!(route("https://github.com/group/project"), None);
    assert_eq!(route("https://gitlab.com/mirror/github.com/project"), None);
    assert_eq!(route("github.com"), None);
    assert_eq!(route("https://www.github.com.example/a"), None);
}

#[test]
fn rejects_other_shapes() {
    assert_eq!(route(""), None);
    assert_eq!(route("https://"), None);
    assert_eq!(route("https://gitlab.com"), None);
    assert_eq!(route("https://gitlab.com/"), None);
    assert_eq!(route("https:///group/project"), None);
    assert_eq!(route("http://"), None);
    assert_eq!(route("http:///group/project"), None);
    assert_eq!(route("http://gl.example"), None);
    assert_eq!(route("ssh://gitlab.com/group/project"), None);
    assert_eq!(route("ftp://gitlab.com/group/project"), None);
    assert_eq!(route("httpx://gitlab.com/group/project"), None);
    assert_eq!(route("HTTPS://gitlab.com/group/project"), None);
    assert_eq!(route("//gitlab.com/group/project"), None);
    assert_eq!(route(" https://gitlab.com/group/project"), None);
    assert_eq!(route("https://gitlab.com/group\n/project"), None);
    assert_eq!(route("https://gitlab.com/group/project\n"), None);
}

#[test]
fn routes_both_schemes() {
    assert_eq!(route("http://gl.example/a/b"), pair("http://gl.example", "a/b"));
    assert_eq!(route("https://gl.example/a/b"), pair("https://gl.example", "a/b"));
    assert_eq!(route("http://gl.example/a/b.git/"), pair("http://gl.example", "a/b"));
    assert_eq!(route("http://gl.example:8080/g/p.git"), pair("http://gl.example:8080", "g/p"));
    assert_eq!(route("http://https://x/y"), pair("http://https:", "/x/y"));
}

#[test]
fn every_shape_of_a_repository_url_is_routed() {
    for scheme in ["https", "http"] {
        for host in ["gitlab.com", "gl.example:8443", "h"] {
            for path in ["p", "group/project", "a/b/c/d", "gr\u{fc}ppe/p"] {
                for git in ["", ".git"] {
                    for slash in ["", "/"] {
                        let url = format!("{}://{}/{}{}{}", scheme, host, path, git, slash);
                        assert_eq!(
                            route(&url),
                            Some((format!("{}://{}", scheme, host), path.to_string())),
                            "url {:?}",
                            url
                        );
                    }
                }
            }
        }
    }
}

#[test]
fn slash_alone_is_a_path() {
    assert_eq!(route("https://gitlab.com//"), pair("https://gitlab.com", "/"));
}

#[test]
fn host_may_hold_any_character_but_slash() {
    assert_eq!(route("https://gl.example:8443/g/p"), pair("https://gl.example:8443", "g/p"));
    assert_eq!(route("https://h\nx/g/p"), pair("https://h\nx", "g/p"));
    assert_eq!(route("https://gitl\u{e4}b.example/gr\u{fc}ppe/p"), pair("https://gitl\u{e4}b.example", "gr\u{fc}ppe/p"));
}

#[test]
fn router_agrees_with_the_pattern() {
    let samples = [
        "https://gitlab.com/group/project",
        "https://gitlab.com/group/project/",
        "https://gitlab.com/group/project//",
        "https://gitlab.com/group/project.git",
        "https://gitlab.com/group/project.git/",
        "https://gitlab.com/group/.git.git",
        "https://gitlab.com/.git",
        "https://gitlab.com//",
        "https://gitlab.com///",
        "https://gitlab.com/",
        "https://gitlab.com",
        "https://",
        "https:///x",
        "https://a/b\n",
        "https://a/\nb",
        "https://a\nb/c",
        "https://a/b/\n/",
        "http://gitlab.com/group/project",
        "http://gitlab.com/group/project.git/",
        "http://",
        "http:///x",
        "http://h",
        "http://h/",
        "https//h/p",
        "httpss://h/p",
        "ftp://h/p",
        "http://github.com/group/project",
        "https://github.com/group/project",
        "https://gitlab.com/github.com",
        "x https://gitlab.com/group/project",
        "https://gl.example/\u{1f47e}/p.git",
        "https://gl.example/a.git/b",
        "",
        "/",
        "https://h/a.gitx",
    ];
    for url in samples {
        assert_eq!(route(url), reference_route(url), "url {:?}", url);
    }
}
