use gitlab_collector::collector::{concurrency_for, Action, Collector, TaskState};
use gitlab_collector::credentials::{parse_gitlab_tokens_env, GitlabInstanceConfig};
use gitlab_collector::model::{Commit, Contributors, GitData, RepositoryGitData, Timestamp};

const DAY: i64 = 86_400;
const NOW: Timestamp = Timestamp { secs: 1_700_000_000, nanos: 0 };

fn snapshot(url: &str, generated_at: Timestamp) -> RepositoryGitData {
    RepositoryGitData {
        generated_at,
        contributors: Contributors { count: 1, url: format!("{}/-/graphs/main?ref_type=heads", url) },
        description: String::new(),
        first_commit: None,
        good_first_issues: None,
        languages: None,
        latest_commit: Commit { url: format!("{}/-/commit/1", url), ts: None },
        latest_release: None,
        license: None,
        stars: 3,
        topics: vec![],
        url: url.to_string(),
    }
}

fn urls(list: &[&str]) -> Vec<String> {
    list.iter().map(|u| u.to_string()).collect()
}

fn cache_of(entries: &[(&str, Timestamp)]) -> GitData {
    let mut data = GitData::new();
    for (url, generated_at) in entries {
        data.insert(url.to_string(), snapshot(url, *generated_at));
    }
    data
}

fn sorted(data: GitData) -> Vec<(String, RepositoryGitData)> {
    let mut entries = data.into_entries();
    entries.sort_by(|a, b| a.0.cmp(&b.0));
    entries
}

/// What a run did, besides its result.
struct Trace {
    built: Vec<(usize, usize)>,
    started: Vec<String>,
    most_in_flight: usize,
    waits: usize,
}

/// Drives a run to its end. A client is built unless its token is `bad`; a
/// fetch gives a snapshot dated `NOW` unless its URL holds `broken`. Fetches
/// end in the order in which they were started, one at each `Wait`.
fn drive(mut run: Collector, now: Timestamp) -> (GitData, Trace) {
    let mut trace = Trace { built: vec![], started: vec![], most_in_flight: 0, waits: 0 };
    let mut in_flight: Vec<(usize, usize, usize)> = vec![];
    let mut busy: Vec<(usize, usize)> = vec![];
    let mut steps = 0;
    loop {
        steps += 1;
        assert!(steps < 10_000, "the run does not end");
        match run.next_action_at(now) {
            Action::BuildClient { instance, token } => {
                trace.built.push((instance, token));
                let secret = run.token(instance, token).unwrap().clone();
                if secret == "bad" {
                    assert!(run.client_failed(instance));
                } else {
                    assert!(run.client_built(instance));
                }
            }
            Action::StartFetch { task, client } => {
                let instance = run.task_instance(task).unwrap();
                assert!(!busy.contains(&(instance, client)), "client used by two fetches");
                busy.push((instance, client));
                in_flight.push((task, instance, client));
                trace.started.push(run.task_url(task).unwrap().clone());
                assert_eq!(run.task_state(task), Some(TaskState::Running { client }));
                assert_eq!(run.fetches_in_flight(), in_flight.len());
                assert!(run.fetches_in_flight() <= run.concurrency_limit());
                trace.most_in_flight = trace.most_in_flight.max(in_flight.len());
            }
            Action::Wait => {
                trace.waits += 1;
                assert!(!in_flight.is_empty(), "waiting with nothing in flight");
                let (task, instance, client) = in_flight.remove(0);
                busy.retain(|held| *held != (instance, client));
                let url = run.task_url(task).unwrap().clone();
                let outcome = if url.contains("broken") { None } else { Some(snapshot(&url, NOW)) };
                assert!(run.fetch_finished(task, outcome));
                assert!(!run.fetch_finished(task, None));
            }
            Action::Finish => {
                assert!(in_flight.is_empty());
                assert_eq!(run.fetches_in_flight(), 0);
                for task in 0..run.task_count() {
                    let state = run.task_state(task).unwrap();
                    assert!(state != TaskState::Pending);
                    assert!(!matches!(state, TaskState::Running { .. }));
                }
                return (run.finish(), trace);
            }
        }
    }
}

#[test]
fn discovery_keeps_routed_urls_once_and_groups_them() {
    let run = Collector::new(
        &urls(&[
            "https://gitlab.com/a/a",
            "https://github.com/x/y",
            "https://gl.example/b/b",
            "https://gitlab.com/a/a",
            "not a url",
            "https://gitlab.com/c/c/",
            "https://gl.example/b/b",
        ]),
        None,
        parse_gitlab_tokens_env("tok"),
    );
    assert_eq!(run.task_count(), 3);
    assert_eq!(run.instance_count(), 2);
    assert_eq!(run.task_url(0).unwrap(), "https://gitlab.com/a/a");
    assert_eq!(run.task_url(1).unwrap(), "https://gl.example/b/b");
    assert_eq!(run.task_url(2).unwrap(), "https://gitlab.com/c/c/");
    assert_eq!(run.task_url(3), None);
    assert_eq!(run.task_instance(0), Some(0));
    assert_eq!(run.task_instance(1), Some(1));
    assert_eq!(run.task_instance(2), Some(0));
    assert_eq!(run.instance_url(0).unwrap(), "https://gitlab.com");
    assert_eq!(run.instance_url(1).unwrap(), "https://gl.example");
    assert_eq!(run.instance_url(2), None);
    assert_eq!(run.token(0, 0).unwrap(), "tok");
    assert_eq!(run.token(0, 1), None);
    assert_eq!(run.token(1, 0), None);
    assert_eq!(run.fetches_in_flight(), 0);
    assert_eq!(run.task_state(0), Some(TaskState::Pending));
}

#[test]
fn concurrency_is_the_number_of_tokens_and_at_least_one() {
    assert_eq!(concurrency_for(&parse_gitlab_tokens_env("")), 1);
    assert_eq!(concurrency_for(&parse_gitlab_tokens_env("a")), 1);
    assert_eq!(concurrency_for(&parse_gitlab_tokens_env("a,b;https://gl.example;c,d,e")), 5);
    let empty = vec![GitlabInstanceConfig { base_url: "https://gitlab.com".to_string(), tokens: vec![] }];
    assert_eq!(concurrency_for(&empty), 1);
}

#[test]
fn run_without_urls_ends_at_once_with_an_empty_result() {
    let run = Collector::new(&vec![], None, parse_gitlab_tokens_env("tok"));
    let (result, trace) = drive(run, NOW);
    assert_eq!(result.len(), 0);
    assert!(trace.built.is_empty() && trace.started.is_empty());
}

#[test]
fn six_days_old_snapshot_is_reused_and_eight_days_old_is_fetched() {
    let young = "https://gitlab.com/a/young";
    let old = "https://gitlab.com/a/old";
    let cache = cache_of(&[
        (young, Timestamp { secs: NOW.secs - 6 * DAY, nanos: 0 }),
        (old, Timestamp { secs: NOW.secs - 8 * DAY, nanos: 0 }),
    ]);
    let run = Collector::new(&urls(&[young, old]), Some(cache), parse_gitlab_tokens_env("tok"));
    let (result, trace) = drive(run, NOW);
    assert_eq!(trace.started, vec![old.to_string()]);
    assert_eq!(result.get(&young.to_string()).unwrap().generated_at.secs, NOW.secs - 6 * DAY);
    assert_eq!(result.get(&old.to_string()).unwrap().generated_at, NOW);
    assert_eq!(result.len(), 2);
}

#[test]
fn snapshot_is_refetched_from_exactly_seven_days_on() {
    let edge = "https://gitlab.com/a/edge";
    let inside = "https://gitlab.com/a/inside";
    let cache = cache_of(&[
        (edge, Timestamp { secs: NOW.secs - 7 * DAY, nanos: 0 }),
        (inside, Timestamp { secs: NOW.secs - 7 * DAY, nanos: 1 }),
    ]);
    let run = Collector::new(&urls(&[edge, inside]), Some(cache), parse_gitlab_tokens_env("tok"));
    let (result, trace) = drive(run, NOW);
    assert_eq!(trace.started, vec![edge.to_string()]);
    assert_eq!(result.get(&inside.to_string()).unwrap().generated_at.nanos, 1);
    assert_eq!(result.get(&edge.to_string()).unwrap().generated_at, NOW);
}

#[test]
fn second_run_on_the_fresh_cache_gives_the_same_result_without_a_fetch() {
    let list = urls(&["https://gitlab.com/a/a", "https://gl.example/b/b", "https://gitlab.com/c/c"]);
    let configs = "tok1,tok2;https://gl.example;tok3";
    let (first, trace) = drive(Collector::new(&list, None, parse_gitlab_tokens_env(configs)), NOW);
    assert_eq!(trace.started.len(), 3);
    let first = sorted(first);
    let mut cache = GitData::new();
    for (url, snapshot) in first.iter() {
        cache.insert(url.clone(), snapshot.clone());
    }
    let later = Timestamp { secs: NOW.secs + DAY, nanos: 0 };
    let (second, trace) = drive(Collector::new(&list, Some(cache), parse_gitlab_tokens_env(configs)), later);
    assert!(trace.started.is_empty());
    assert_eq!(trace.waits, 0);
    assert_eq!(sorted(second), first);
}

#[test]
fn failed_pool_of_one_instance_leaves_the_other_alone() {
    let list = urls(&[
        "https://a.example/g/one",
        "https://b.example/g/two",
        "https://a.example/g/three",
        "https://b.example/g/four",
    ]);
    let configs = parse_gitlab_tokens_env("https://a.example;good,bad,unused;https://b.example;t1,t2");
    let (result, trace) = drive(Collector::new(&list, None, configs), NOW);
    assert_eq!(trace.built, vec![(0, 0), (0, 1), (1, 0), (1, 1)]);
    assert_eq!(trace.started, vec!["https://b.example/g/two".to_string(), "https://b.example/g/four".to_string()]);
    let entries = sorted(result);
    assert_eq!(entries.len(), 2);
    assert_eq!(entries[0].0, "https://b.example/g/four");
    assert_eq!(entries[1].0, "https://b.example/g/two");
}

#[test]
fn instance_without_pool_still_reuses_its_fresh_cache() {
    let cached = "https://a.example/g/cached";
    let cache = cache_of(&[(cached, Timestamp { secs: NOW.secs - DAY, nanos: 0 })]);
    let list = urls(&[cached, "https://a.example/g/other"]);
    let (result, trace) = drive(Collector::new(&list, Some(cache), parse_gitlab_tokens_env("")), NOW);
    assert!(trace.started.is_empty() && trace.built.is_empty());
    let entries = sorted(result);
    assert_eq!(entries.len(), 1);
    assert_eq!(entries[0].0, cached);
}

#[test]
fn instance_without_tokens_is_skipped() {
    let list = urls(&["https://gitlab.com/a/a", "https://gl.example/b/b"]);
    let mut run = Collector::new(&list, None, parse_gitlab_tokens_env("https://GL.example/;tok"));
    assert_eq!(run.next_action_at(NOW), Action::BuildClient { instance: 1, token: 0 });
    assert!(run.client_built(1));
    assert!(!run.client_built(1));
    assert!(!run.client_built(0));
    assert!(!run.client_failed(7));
    assert_eq!(run.next_action_at(NOW), Action::StartFetch { task: 1, client: 0 });
    assert_eq!(run.task_state(0), Some(TaskState::Skipped));
    assert_eq!(run.next_action_at(NOW), Action::Wait);
    assert!(!run.fetch_finished(0, None));
    assert!(!run.fetch_finished(9, None));
    assert!(run.fetch_finished(1, Some(snapshot("https://gl.example/b/b", NOW))));
    assert_eq!(run.task_state(1), Some(TaskState::Fetched));
    assert_eq!(run.next_action_at(NOW), Action::Finish);
    let entries = run.finish().into_entries();
    assert_eq!(entries.len(), 1);
    assert_eq!(entries[0].0, "https://gl.example/b/b");
}

#[test]
fn failed_fetch_leaves_its_url_out_and_drops_the_stale_entry() {
    let broken = "https://gitlab.com/a/broken";
    let fine = "https://gitlab.com/a/fine";
    let cache = cache_of(&[(broken, Timestamp { secs: NOW.secs - 30 * DAY, nanos: 0 })]);
    let (result, trace) = drive(
        Collector::new(&urls(&[broken, fine]), Some(cache), parse_gitlab_tokens_env("tok")),
        NOW,
    );
    assert_eq!(trace.started.len(), 2);
    let entries = sorted(result);
    assert_eq!(entries.len(), 1);
    assert_eq!(entries[0].0, fine);
}

#[test]
fn run_with_only_failures_ends_with_an_empty_result() {
    let list = urls(&["https://gitlab.com/a/broken1", "https://gitlab.com/a/broken2"]);
    let (result, _) = drive(Collector::new(&list, None, parse_gitlab_tokens_env("tok")), NOW);
    assert_eq!(result.len(), 0);
}

#[test]
fn pool_of_one_serves_ten_fetches_one_after_the_other() {
    let list: Vec<String> = (0..10).map(|i| format!("https://gitlab.com/g/p{}", i)).collect();
    let (result, trace) = drive(Collector::new(&list, None, parse_gitlab_tokens_env("tok")), NOW);
    assert_eq!(trace.built, vec![(0, 0)]);
    assert_eq!(trace.started, list);
    assert_eq!(trace.most_in_flight, 1);
    assert_eq!(trace.waits, 10);
    assert_eq!(result.len(), 10);
}

#[test]
fn fetches_in_flight_stay_within_the_pools() {
    let mut list: Vec<String> = (0..7).map(|i| format!("https://a.example/g/p{}", i)).collect();
    list.extend((0..5).map(|i| format!("https://b.example/g/p{}", i)));
    let configs = parse_gitlab_tokens_env("https://a.example;a1,a2,a3;https://b.example;b1;spare1,spare2");
    assert_eq!(concurrency_for(&configs), 6);
    let (result, trace) = drive(Collector::new(&list, None, configs), NOW);
    assert_eq!(trace.most_in_flight, 4);
    assert_eq!(trace.started.len(), 12);
    assert_eq!(result.len(), 12);
}

#[test]
fn clients_are_handed_out_last_in_first_out() {
    let list = urls(&["https://gitlab.com/g/p0", "https://gitlab.com/g/p1", "https://gitlab.com/g/p2"]);
    let mut run = Collector::new(&list, None, parse_gitlab_tokens_env("t0,t1"));
    assert_eq!(run.next_action_at(NOW), Action::BuildClient { instance: 0, token: 0 });
    assert_eq!(run.next_action_at(NOW), Action::BuildClient { instance: 0, token: 0 });
    assert!(run.client_built(0));
    assert_eq!(run.next_action_at(NOW), Action::BuildClient { instance: 0, token: 1 });
    assert!(run.client_built(0));
    assert_eq!(run.next_action_at(NOW), Action::StartFetch { task: 0, client: 1 });
    assert_eq!(run.next_action_at(NOW), Action::StartFetch { task: 1, client: 0 });
    assert_eq!(run.next_action_at(NOW), Action::Wait);
    assert_eq!(run.task_state(2), Some(TaskState::Pending));
    assert!(run.fetch_finished(0, None));
    assert_eq!(run.task_state(0), Some(TaskState::Failed));
    assert_eq!(run.next_action_at(NOW), Action::StartFetch { task: 2, client: 1 });
    assert_eq!(run.fetches_in_flight(), 2);
}

#[test]
fn cached_snapshots_are_judged_at_the_current_time() {
    let stale = "https://gitlab.com/a/stale";
    let fresh = "https://gitlab.com/a/fresh";
    let far_future = Timestamp { secs: i64::MAX / 4, nanos: 0 };
    let cache = cache_of(&[(stale, Timestamp { secs: 0, nanos: 0 }), (fresh, far_future)]);
    let mut run = Collector::new(&urls(&[fresh, stale]), Some(cache), parse_gitlab_tokens_env("tok"));
    assert_eq!(run.next_action(), Action::BuildClient { instance: 0, token: 0 });
    assert!(run.client_built(0));
    assert_eq!(run.next_action(), Action::StartFetch { task: 1, client: 0 });
    assert_eq!(run.task_state(0), Some(TaskState::Reused));
}

#[test]
fn instance_on_plain_http_is_routed_and_matched() {
    let list = urls(&["http://gl.example/a/b", "https://gl.example/a/b", "http://gl.example/c/d.git"]);
    let run = Collector::new(&list, None, parse_gitlab_tokens_env("http://GL.example/;tok"));
    assert_eq!(run.task_count(), 3);
    assert_eq!(run.instance_count(), 2);
    assert_eq!(run.instance_url(0).unwrap(), "http://gl.example");
    assert_eq!(run.instance_url(1).unwrap(), "https://gl.example");
    assert_eq!(run.task_instance(2), Some(0));
    assert_eq!(run.token(0, 0).unwrap(), "tok");
    assert_eq!(run.token(1, 0), None);
    let (result, trace) = drive(run, NOW);
    assert_eq!(trace.started, vec!["http://gl.example/a/b".to_string(), "http://gl.example/c/d.git".to_string()]);
    assert_eq!(result.len(), 2);
}
