use gitlab_collector::credentials::{
    find_config_for_instance, find_config_index, parse_gitlab_tokens_env, GitlabInstanceConfig,
};

fn entries(env: &str) -> Vec<(String, Vec<String>)> {
    parse_gitlab_tokens_env(env).into_iter().map(|c| (c.base_url, c.tokens)).collect()
}

fn entry(base: &str, tokens: &[&str]) -> (String, Vec<String>) {
    (base.to_string(), tokens.iter().map(|t| t.to_string()).collect())
}

fn config(base: &str, tokens: &[&str]) -> GitlabInstanceConfig {
    GitlabInstanceConfig {
        base_url: base.to_string(),
        tokens: tokens.iter().map(|t| t.to_string()).collect(),
    }
}

#[test]
fn tokens_alone_belong_to_default_instance() {
    assert_eq!(entries("tok1,tok2"), vec![entry("https://gitlab.com", &["tok1", "tok2"])]);
}

#[test]
fn url_segments_introduce_instances() {
    assert_eq!(
        entries("https://gl.example;tokA;https://gl2.example;tokB,tokC"),
        vec![entry("https://gl.example", &["tokA"]), entry("https://gl2.example", &["tokB", "tokC"])]
    );
}

#[test]
fn empty_configuration_gives_no_entry() {
    assert_eq!(entries(""), vec![]);
    assert_eq!(entries("   "), vec![]);
    assert_eq!(entries(";;;"), vec![]);
}

#[test]
fn url_without_token_segment_gives_no_entry() {
    assert_eq!(entries("https://gl.example"), vec![]);
    assert_eq!(entries("tok;https://gl.example"), vec![entry("https://gitlab.com", &["tok"])]);
}

#[test]
fn url_followed_by_segment_without_tokens_gives_no_entry() {
    assert_eq!(entries("https://gl.example; , ,;tok"), vec![entry("https://gitlab.com", &["tok"])]);
    assert_eq!(entries("https://gl.example;;tok"), vec![entry("https://gitlab.com", &["tok"])]);
}

#[test]
fn segments_and_tokens_are_trimmed() {
    assert_eq!(
        entries("  http://gl.example/ ;  a , b ,, \t; c "),
        vec![entry("http://gl.example", &["a", "b"]), entry("https://gitlab.com", &["c"])]
    );
}

#[test]
fn trailing_slashes_of_the_base_url_are_dropped() {
    assert_eq!(entries("https://gl.example///;t"), vec![entry("https://gl.example", &["t"])]);
}

#[test]
fn segment_after_a_url_is_its_token_list_even_if_it_looks_like_a_url() {
    assert_eq!(
        entries("https://a.example;https://b.example;tok"),
        vec![entry("https://a.example", &["https://b.example"]), entry("https://gitlab.com", &["tok"])]
    );
}

#[test]
fn a_token_is_kept_once_per_instance() {
    assert_eq!(entries("a,b,a, b ,c"), vec![entry("https://gitlab.com", &["a", "b", "c"])]);
    assert_eq!(
        entries("a;a"),
        vec![entry("https://gitlab.com", &["a"]), entry("https://gitlab.com", &["a"])]
    );
}

#[test]
fn unicode_whitespace_is_trimmed() {
    assert_eq!(entries("\u{a0}tok\u{2003}"), vec![entry("https://gitlab.com", &["tok"])]);
    assert_eq!(entries("\u{a0}tok\u{2003}")[0].1[0], "\u{a0}tok\u{2003}".trim());
}

#[test]
fn instance_is_found_without_regard_to_case_and_trailing_slashes() {
    let configs = vec![config("https://gl.example", &["a"]), config("https://GL2.example/", &["b"])];
    assert_eq!(find_config_index("HTTPS://GL.EXAMPLE//", &configs), Some(0));
    assert_eq!(find_config_index("https://gl2.example", &configs), Some(1));
    assert_eq!(find_config_index("https://gl3.example", &configs), None);
    let found = find_config_for_instance("https://Gl2.Example", &configs).unwrap();
    assert_eq!(found.tokens, vec!["b".to_string()]);
    assert!(find_config_for_instance("https://gl.example/x", &configs).is_none());
}

#[test]
fn first_matching_entry_wins() {
    let configs = vec![config("https://gl.example", &["a"]), config("https://gl.example/", &["b"])];
    assert_eq!(find_config_for_instance("https://gl.example", &configs).unwrap().tokens, vec!["a".to_string()]);
}

#[test]
fn no_entry_in_an_empty_list() {
    assert!(find_config_for_instance("https://gitlab.com", &[]).is_none());
}
