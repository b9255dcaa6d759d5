//! Credential resolver: parses the token configuration string into one entry
//! per hosting instance and matches an instance to its entry.

use crate::text::{
    chars_of, chars_eq, has_prefix, lowercase_of, split, split_on, starts_with, string_of,
    string_views, strip_suffix_all, trim, trim_end_matches, trimmed, views,
};
use vstd::prelude::*;

verus! {

/// The tokens configured for one hosting instance.
#[derive(Debug, Clone)]
pub struct GitlabInstanceConfig {
    pub base_url: String,
    pub tokens: Vec<String>,
}

/// A configuration entry as plain values.
pub struct ConfigView {
    pub base_url: Seq<char>,
    pub tokens: Seq<Seq<char>>,
}

impl View for GitlabInstanceConfig {
    type V = ConfigView;

    open spec fn view(&self) -> ConfigView {
        ConfigView { base_url: self.base_url@, tokens: string_views(self.tokens@) }
    }
}

impl GitlabInstanceConfig {
    /// An entry holds at least one token, no empty token and no token twice.
    pub open spec fn wf(&self) -> bool {
        well_formed_tokens(self@.tokens)
    }
}

/// At least one token, none empty, none twice.
pub open spec fn well_formed_tokens(tokens: Seq<Seq<char>>) -> bool {
    &&& tokens.len() > 0
    &&& tokens.no_duplicates()
    &&& forall|i: int| 0 <= i < tokens.len() ==> (#[trigger] tokens[i]).len() > 0
}

/// Base URL of the instance that tokens without a URL segment belong to.
pub open spec fn default_instance() -> Seq<char> {
    "https://gitlab.com"@
}

/// A segment that names an instance.
pub open spec fn is_url_segment(segment: Seq<char>) -> bool {
    has_prefix(segment, "http://"@) || has_prefix(segment, "https://"@)
}

/// The tokens among `parts`: each part trimmed, empty ones dropped, and of
/// equal ones only the first kept.
pub open spec fn token_list(parts: Seq<Seq<char>>) -> Seq<Seq<char>>
    decreases parts.len(),
{
    if parts.len() == 0 {
        Seq::empty()
    } else {
        let before = token_list(parts.drop_last());
        let token = trimmed(parts.last());
        if token.len() == 0 || before.contains(token) {
            before
        } else {
            before.push(token)
        }
    }
}

/// The tokens of a comma-separated segment.
pub open spec fn tokens_of(segment: Seq<char>) -> Seq<Seq<char>> {
    token_list(split_on(segment, ','))
}

/// The entries that the segments from position `i` on give.
///
/// An empty segment is skipped. A URL segment takes the segment after it as
/// its token list, and both are consumed; a URL segment at the very end gives
/// nothing. Any other segment is a token list of the default instance. A
/// token list without tokens gives no entry.
pub open spec fn configs_from(segments: Seq<Seq<char>>, i: int) -> Seq<ConfigView>
    decreases segments.len() - i,
{
    if i < 0 || i >= segments.len() {
        Seq::empty()
    } else {
        let part = trimmed(segments[i]);
        if part.len() == 0 {
            configs_from(segments, i + 1)
        } else if is_url_segment(part) {
            if i + 1 < segments.len() {
                let tokens = tokens_of(trimmed(segments[i + 1]));
                let rest = configs_from(segments, i + 2);
                if tokens.len() > 0 {
                    seq![ConfigView { base_url: strip_suffix_all(part, seq!['/']), tokens }] + rest
                } else {
                    rest
                }
            } else {
                Seq::empty()
            }
        } else {
            let tokens = tokens_of(part);
            let rest = configs_from(segments, i + 1);
            if tokens.len() > 0 {
                seq![ConfigView { base_url: default_instance(), tokens }] + rest
            } else {
                rest
            }
        }
    }
}

/// The entries that a configuration string gives: its segments are separated
/// by `;`.
pub open spec fn parse_tokens(tokens_env: Seq<char>) -> Seq<ConfigView> {
    configs_from(split_on(tokens_env, ';'), 0)
}

/// The views of a list of entries.
pub open spec fn config_views(configs: Seq<GitlabInstanceConfig>) -> Seq<ConfigView> {
    configs.map_values(|c: GitlabInstanceConfig| c@)
}

/// The form in which base URLs are compared: without trailing slashes, in
/// lowercase.
pub open spec fn normalized(base_url: Seq<char>) -> Seq<char> {
    lowercase_of(strip_suffix_all(base_url, seq!['/']))
}

/// `token_list` holds no empty token and no token twice.
pub proof fn lemma_token_list_well_formed(parts: Seq<Seq<char>>)
    ensures
        token_list(parts).no_duplicates(),
        forall|i: int| 0 <= i < token_list(parts).len() ==> (#[trigger] token_list(parts)[i]).len() > 0,
    decreases parts.len(),
{
    if parts.len() > 0 {
        lemma_token_list_well_formed(parts.drop_last());
    }
}

/// Every entry that `configs_from` gives is well formed.
pub proof fn lemma_configs_well_formed(segments: Seq<Seq<char>>, i: int)
    ensures
        forall|k: int|
            0 <= k < configs_from(segments, i).len() ==> well_formed_tokens(
                (#[trigger] configs_from(segments, i)[k]).tokens,
            ),
    decreases segments.len() - i,
{
    let all = configs_from(segments, i);
    if 0 <= i < segments.len() {
        let part = trimmed(segments[i]);
        lemma_configs_well_formed(segments, i + 1);
        if part.len() == 0 {
            assert(all == configs_from(segments, i + 1));
        } else if is_url_segment(part) {
            if i + 1 < segments.len() {
                lemma_configs_well_formed(segments, i + 2);
                let tokens = tokens_of(trimmed(segments[i + 1]));
                let rest = configs_from(segments, i + 2);
                lemma_token_list_well_formed(split_on(trimmed(segments[i + 1]), ','));
                if tokens.len() > 0 {
                    assert forall|k: int| 0 <= k < all.len() implies well_formed_tokens(
                        (#[trigger] all[k]).tokens,
                    ) by {
                        if k > 0 {
                            assert(all[k] == rest[k - 1]);
                        } else {
                            assert(all[k].tokens == tokens);
                        }
                    }
                } else {
                    assert(all == rest);
                }
            } else {
                assert(all.len() == 0);
            }
        } else {
            let tokens = tokens_of(part);
            let rest = configs_from(segments, i + 1);
            lemma_token_list_well_formed(split_on(part, ','));
            if tokens.len() > 0 {
                assert forall|k: int| 0 <= k < all.len() implies well_formed_tokens(
                    (#[trigger] all[k]).tokens,
                ) by {
                    if k > 0 {
                        assert(all[k] == rest[k - 1]);
                    } else {
                        assert(all[k].tokens == tokens);
                    }
                }
            } else {
                assert(all == rest);
            }
        }
    } else {
        assert(all.len() == 0);
    }
}

/// Copies each character vector into a string.
pub fn strings_of(v: &Vec<Vec<char>>) -> (r: Vec<String>)
    ensures
        string_views(r@) == views(v@),
{
    let mut r: Vec<String> = Vec::new();
    let mut i: usize = 0;
    while i < v.len()
        invariant
            i <= v.len(),
            string_views(r@) == views(v@).take(i as int),
        decreases v.len() - i,
    {
        let item = string_of(&v[i]);
        assert(string_views(r@.push(item)) == string_views(r@).push(item@));
        assert(views(v@).take(i + 1) == views(v@).take(i as int).push(v@[i as int]@));
        r.push(item);
        i += 1;
    }
    r
}

/// Whether `list` holds `item`.
pub fn list_contains(list: &Vec<Vec<char>>, item: &Vec<char>) -> (r: bool)
    ensures
        r == views(list@).contains(item@),
{
    let mut i: usize = 0;
    while i < list.len()
        invariant
            i <= list.len(),
            forall|k: int| 0 <= k < i ==> views(list@)[k] != item@,
        decreases list.len() - i,
    {
        if chars_eq(&list[i], item) {
            assert(views(list@)[i as int] == item@);
            return true;
        }
        i += 1;
    }
    false
}

/// The tokens of a comma-separated segment: trimmed, the empty ones dropped,
/// of equal ones the first kept.
pub fn parse_token_list(segment: &Vec<char>) -> (tokens: Vec<String>)
    ensures
        string_views(tokens@) == tokens_of(segment@),
{
    let parts = split(segment, ',');
    let mut tokens: Vec<Vec<char>> = Vec::new();
    let mut i: usize = 0;
    assert(views(parts@).take(0) == Seq::<Seq<char>>::empty());
    while i < parts.len()
        invariant
            i <= parts.len(),
            views(tokens@) == token_list(views(parts@).take(i as int)),
        decreases parts.len() - i,
    {
        let token = trim(&parts[i]);
        proof {
            let upto = views(parts@).take(i + 1);
            assert(upto.drop_last() == views(parts@).take(i as int));
            assert(upto.last() == parts@[i as int]@);
        }
        if token.len() > 0 && !list_contains(&tokens, &token) {
            assert(views(tokens@.push(token)) == views(tokens@).push(token@));
            tokens.push(token);
        }
        i += 1;
    }
    assert(views(parts@).take(parts.len() as int) == views(parts@));
    strings_of(&tokens)
}

/// Parses the token configuration string.
///
/// Segments are separated by `;`. A segment that starts with `http://` or
/// `https://` names an instance, and the segment after it holds that
/// instance's tokens, separated by `,`. Any other segment holds tokens of the
/// default instance. An empty string gives no entry.
pub fn parse_gitlab_tokens_env(tokens_env: &str) -> (configs: Vec<GitlabInstanceConfig>)
    ensures
        config_views(configs@) == parse_tokens(tokens_env@),
        forall|k: int| 0 <= k < configs.len() ==> (#[trigger] configs[k]).wf(),
{
    let env = chars_of(tokens_env);
    let segments = split(&env, ';');
    let http = chars_of("http://");
    let https = chars_of("https://");
    let slash = chars_of("/");
    proof {
        reveal_strlit("/");
        assert(slash@ == seq!['/']);
    }
    let ghost segs = views(segments@);
    let mut configs: Vec<GitlabInstanceConfig> = Vec::new();
    let mut i: usize = 0;
    while i < segments.len()
        invariant
            i <= segments.len(),
            segs == views(segments@),
            http@ == "http://"@,
            https@ == "https://"@,
            slash@ == seq!['/'],
            config_views(configs@) + configs_from(segs, i as int) == configs_from(segs, 0),
        decreases segments.len() - i,
    {
        let part = trim(&segments[i]);
        assert(part@ == trimmed(segs[i as int]));
        if part.len() == 0 {
            i += 1;
        } else if starts_with(&part, &http) || starts_with(&part, &https) {
            if i + 1 < segments.len() {
                let tokens_part = trim(&segments[i + 1]);
                assert(tokens_part@ == trimmed(segs[i + 1]));
                let tokens = parse_token_list(&tokens_part);
                if tokens.len() > 0 {
                    let base_url = string_of(&trim_end_matches(&part, &slash));
                    let config = GitlabInstanceConfig { base_url, tokens };
                    assert(config_views(configs@.push(config)) == config_views(configs@) + seq![
                        config@,
                    ]);
                    assert((config_views(configs@) + seq![config@]) + configs_from(segs, i + 2)
                        == config_views(configs@) + (seq![config@] + configs_from(segs, i + 2)));
                    configs.push(config);
                }
                i += 2;
            } else {
                i += 1;
                assert(config_views(configs@) + Seq::<ConfigView>::empty() == config_views(
                    configs@,
                ));
            }
        } else {
            let tokens = parse_token_list(&part);
            if tokens.len() > 0 {
                let base_url = string_of(&chars_of("https://gitlab.com"));
                let config = GitlabInstanceConfig { base_url, tokens };
                assert(config_views(configs@.push(config)) == config_views(configs@) + seq![
                    config@,
                ]);
                assert((config_views(configs@) + seq![config@]) + configs_from(segs, i + 1)
                    == config_views(configs@) + (seq![config@] + configs_from(segs, i + 1)));
                configs.push(config);
            }
            i += 1;
        }
    }
    proof {
        assert(config_views(configs@) + Seq::<ConfigView>::empty() == config_views(configs@));
        lemma_configs_well_formed(segs, 0);
        assert forall|k: int| 0 <= k < configs.len() implies (#[trigger] configs[k]).wf() by {
            assert(config_views(configs@)[k] == configs[k]@);
        }
    }
    configs
}

/// An entry matches an instance when their normalized base URLs are equal.
pub open spec fn config_matches(config: ConfigView, base_url: Seq<char>) -> bool {
    normalized(config.base_url) == normalized(base_url)
}

/// `i` is the first position of `keys` that holds `target`.
pub open spec fn is_first_position(keys: Seq<Seq<char>>, target: Seq<char>, i: int) -> bool {
    &&& 0 <= i < keys.len()
    &&& keys[i] == target
    &&& forall|j: int| 0 <= j < i ==> keys[j] != target
}

/// `i` is the position of the first entry of `configs` that matches
/// `base_url`.
pub open spec fn is_first_match(
    configs: Seq<GitlabInstanceConfig>,
    base_url: Seq<char>,
    i: int,
) -> bool {
    &&& 0 <= i < configs.len()
    &&& config_matches(configs[i]@, base_url)
    &&& forall|j: int| 0 <= j < i ==> !config_matches((#[trigger] configs[j])@, base_url)
}

/// No entry of `configs` matches `base_url`.
pub open spec fn no_match(configs: Seq<GitlabInstanceConfig>, base_url: Seq<char>) -> bool {
    forall|j: int| 0 <= j < configs.len() ==> !config_matches((#[trigger] configs[j])@, base_url)
}

/// The first position of `keys` that holds `target`, if there is one.
pub fn first_position(keys: &Vec<Vec<char>>, target: &Vec<char>) -> (r: Option<usize>)
    ensures
        match r {
            Some(i) => is_first_position(views(keys@), target@, i as int),
            None => forall|j: int| 0 <= j < keys.len() ==> views(keys@)[j] != target@,
        },
{
    let mut i: usize = 0;
    while i < keys.len()
        invariant
            i <= keys.len(),
            forall|j: int| 0 <= j < i ==> views(keys@)[j] != target@,
        decreases keys.len() - i,
    {
        if chars_eq(&keys[i], target) {
            return Some(i);
        }
        i += 1;
    }
    None
}

/// The form in which `base_url` is compared: without trailing slashes, in
/// lowercase.
pub fn normalize(base_url: &str) -> (r: Vec<char>)
    ensures
        r@ == normalized(base_url@),
{
    let slash = chars_of("/");
    proof {
        reveal_strlit("/");
        assert(slash@ == seq!['/']);
    }
    let stripped = string_of(&trim_end_matches(&chars_of(base_url), &slash));
    let lowered = stripped.as_str().to_lowercase();
    chars_of(lowered.as_str())
}

/// The position of the first entry that matches `base_url`, if there is one.
pub fn find_config_index(base_url: &str, configs: &[GitlabInstanceConfig]) -> (r: Option<usize>)
    ensures
        match r {
            Some(i) => is_first_match(configs@, base_url@, i as int),
            None => no_match(configs@, base_url@),
        },
{
    let target = normalize(base_url);
    let mut keys: Vec<Vec<char>> = Vec::new();
    let mut i: usize = 0;
    while i < configs.len()
        invariant
            i <= configs.len(),
            keys.len() == i,
            forall|j: int| 0 <= j < i ==> (#[trigger] keys@[j])@ == normalized(configs@[j]@.base_url),
        decreases configs.len() - i,
    {
        let key = normalize(configs[i].base_url.as_str());
        keys.push(key);
        i += 1;
    }
    let r = first_position(&keys, &target);
    proof {
        assert forall|j: int| 0 <= j < keys.len() implies (views(keys@)[j] == target@)
            == config_matches((#[trigger] configs@[j])@, base_url@) by {
            assert(views(keys@)[j] == keys@[j]@);
        }
    }
    r
}

/// Finds the entry for an instance: the first one whose base URL equals
/// `base_url`, compared without trailing slashes and without regard to case.
pub fn find_config_for_instance<'a>(
    base_url: &str,
    configs: &'a [GitlabInstanceConfig],
) -> (r: Option<&'a GitlabInstanceConfig>)
    ensures
        match r {
            Some(config) => exists|i: int|
                is_first_match(configs@, base_url@, i) && *config == configs@[i],
            None => no_match(configs@, base_url@),
        },
{
    match find_config_index(base_url, configs) {
        Some(i) => Some(&configs[i]),
        None => None,
    }
}

} // verus!
