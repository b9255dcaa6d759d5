//! Whole runs: what holds in every state that a run reaches from its start,
//! whatever the caller reports and whenever it asks for the next action.

use crate::collector::{
    acted, cached_fresh, client_reported, discovered, fetch_reported, instance_wf, is_start,
    pool_view, reused_before, reuses, running_count, settled, task_with_url, token_count, Action,
    Collector, PoolState, PoolView, Task, TaskState,
};
use crate::model::{fresh, RepositoryGitData, Timestamp};
use vstd::prelude::*;

verus! {

/// One step of a run: the choice of the next action at some time, the report
/// on a client, or the report on a fetch.
pub enum Step {
    Act { now: Timestamp, action: Action },
    Client { instance: int, ready: bool, accepted: bool },
    Fetch { task: int, outcome: Option<RepositoryGitData>, accepted: bool },
}

/// `post` is `pre` after `step`.
pub open spec fn follows(pre: Collector, step: Step, post: Collector) -> bool {
    match step {
        Step::Act { now, action } => acted(pre, post, now, action),
        Step::Client { instance, ready, accepted } => client_reported(
            pre,
            post,
            instance,
            ready,
            accepted,
        ),
        Step::Fetch { task, outcome, accepted } => fetch_reported(pre, post, task, outcome, accepted),
    }
}

/// `states` are the states of a run that starts with `loaded` as the cached
/// data and takes the steps `steps`, one after the other.
pub open spec fn is_run(
    states: Seq<Collector>,
    steps: Seq<Step>,
    loaded: Map<Seq<char>, RepositoryGitData>,
) -> bool {
    &&& states.len() == steps.len() + 1
    &&& is_start(states[0], loaded)
    &&& forall|i: int| 0 <= i < steps.len() ==> #[trigger] step_taken(states, steps, i)
}

/// Step `i` leads from state `i` to the state after it, which satisfies the
/// invariant of a run.
pub open spec fn step_taken(states: Seq<Collector>, steps: Seq<Step>, i: int) -> bool {
    states[i + 1].wf() && follows(states[i], steps[i], states[i + 1])
}

/// The cache holds for `url` what was loaded for it.
pub open spec fn agrees_at(
    cache: Map<Seq<char>, RepositoryGitData>,
    loaded: Map<Seq<char>, RepositoryGitData>,
    url: Seq<char>,
) -> bool {
    &&& cache.dom().contains(url) <==> loaded.dom().contains(url)
    &&& loaded.dom().contains(url) ==> cache[url] == loaded[url]
}

/// Step `i` chose an action at a time at which the snapshot loaded for `url`
/// was fresh.
pub open spec fn reuse_at(
    steps: Seq<Step>,
    loaded: Map<Seq<char>, RepositoryGitData>,
    url: Seq<char>,
    i: int,
) -> bool {
    &&& 0 <= i < steps.len()
    &&& steps[i] is Act
    &&& loaded.dom().contains(url)
    &&& fresh(loaded[url].generated_at, steps[i]->now)
}

/// Step `i` was the report that the fetch of task `t` ended with `outcome`,
/// made while that fetch was in flight.
pub open spec fn fetch_at(
    steps: Seq<Step>,
    t: int,
    outcome: Option<RepositoryGitData>,
    i: int,
) -> bool {
    0 <= i < steps.len() && steps[i] == (Step::Fetch { task: t, outcome, accepted: true })
}

/// Where the state of task `t` comes from, after the first `n` steps.
///
/// For a pending task the cache still holds what was loaded for its URL. A
/// reused task has in the result the snapshot that was loaded, and it was
/// fresh when an action was chosen. A fetched task has in the result the
/// snapshot that a report on its fetch gave. A failed task had such a report
/// without snapshot. A skipped task belongs to an instance that has no pool
/// and will have none.
pub open spec fn task_inv(
    state: Collector,
    steps: Seq<Step>,
    loaded: Map<Seq<char>, RepositoryGitData>,
    n: int,
    t: int,
) -> bool {
    let url = state.tasks()[t].url@;
    match state.tasks()[t].state {
        TaskState::Pending => agrees_at(state.cache(), loaded, url),
        TaskState::Running { client } => true,
        TaskState::Reused => {
            &&& loaded.dom().contains(url)
            &&& state.result()[url] == loaded[url]
            &&& exists|i: int| i < n && reuse_at(steps, loaded, url, i)
        },
        TaskState::Fetched => exists|i: int|
            i < n && fetch_at(steps, t, Some(state.result()[url]), i),
        TaskState::Failed => exists|i: int| i < n && fetch_at(steps, t, None, i),
        TaskState::Skipped => state.instances()[state.tasks()[t].instance as int].pool
            is NoCredentials || state.instances()[state.tasks()[t].instance as int].pool is Failed,
    }
}

/// A task of an instance without a pool that is ready is pending, reused or
/// skipped: no fetch was ever started for it.
pub open spec fn unfetched_without_pool(state: Collector, t: int) -> bool {
    !(state.instances()[state.tasks()[t].instance as int].pool is Ready) ==> (state.tasks()[t].state
        is Pending || state.tasks()[t].state is Reused || state.tasks()[t].state is Skipped)
}

/// What holds of `state`, reached from `first` by the first `n` of `steps`.
pub open spec fn run_inv(
    first: Collector,
    state: Collector,
    steps: Seq<Step>,
    loaded: Map<Seq<char>, RepositoryGitData>,
    n: int,
) -> bool {
    &&& state.wf()
    &&& state.tasks().len() == first.tasks().len()
    &&& forall|t: int|
        0 <= t < state.tasks().len() ==> (#[trigger] state.tasks()[t]).url == first.tasks()[t].url
            && state.tasks()[t].instance == first.tasks()[t].instance
    &&& forall|t: int| 0 <= t < state.tasks().len() ==> #[trigger] task_inv(state, steps, loaded, n, t)
    &&& forall|t: int| 0 <= t < state.tasks().len() ==> #[trigger] unfetched_without_pool(state, t)
}

/// The choice of an action keeps what `run_inv` says of one task.
pub proof fn lemma_action_keeps_task(
    pre: Collector,
    post: Collector,
    steps: Seq<Step>,
    loaded: Map<Seq<char>, RepositoryGitData>,
    n: int,
    t: int,
    now: Timestamp,
    action: Action,
)
    requires
        0 <= n < steps.len(),
        pre.wf(),
        post.wf(),
        steps[n] == (Step::Act { now, action }),
        acted(pre, post, now, action),
        0 <= t < pre.tasks().len(),
        task_inv(pre, steps, loaded, n, t),
        unfetched_without_pool(pre, t),
    ensures
        post.tasks().len() == pre.tasks().len(),
        post.tasks()[t].url == pre.tasks()[t].url,
        post.tasks()[t].instance == pre.tasks()[t].instance,
        task_inv(post, steps, loaded, n + 1, t),
        unfetched_without_pool(post, t),
{
    let len = pre.tasks().len() as int;
    let url = pre.tasks()[t].url@;
    let k = pre.tasks()[t].instance as int;
    lemma_witness_stays(pre, steps, loaded, n, t);
    if action is BuildClient {
        assert(post == pre);
    } else {
        let upto = if action is StartFetch {
            action->task as int
        } else {
            len
        };
        assert(post.tasks()[t].url == pre.tasks()[t].url);
        assert(pool_ready_kept(pre, post, k)) by {
            assert(pool_view(post.instances()[k].pool) is Ready || pool_view(
                post.instances()[k].pool,
            ) == pool_view(pre.instances()[k].pool));
        }
        if action is StartFetch && t == action->task {
            assert(post.tasks()[t].state is Running);
            assert(post.instances()[k].pool is Ready);
        } else {
            if t < upto {
                assert(settled(pre, post, t, now));
            } else {
                assert(post.tasks()[t] == pre.tasks()[t]);
            }
            if pre.tasks()[t].state is Pending {
                if cached_fresh(pre.cache(), url, now) && t < upto {
                    assert(post.tasks()[t].state is Reused);
                    assert(reuse_at(steps, loaded, url, n));
                } else {
                    assert(post.tasks()[t].state is Pending || post.tasks()[t].state is Skipped);
                    if reused_before(pre, now, upto, url) {
                        let u = choose|u: int| reuses(pre, now, upto, url, u);
                        assert(u == t);
                    }
                    assert(agrees_at(post.cache(), loaded, url));
                }
            } else {
                assert(post.tasks()[t] == pre.tasks()[t]);
                if pre.tasks()[t].state is Reused || pre.tasks()[t].state is Fetched {
                    assert(pre.result().dom().contains(pre.tasks()[t].url@));
                    assert(post.result()[url] == pre.result()[url]);
                }
            }
        }
    }
}

/// A report keeps what `run_inv` says of one task.
pub proof fn lemma_report_keeps_task(
    pre: Collector,
    post: Collector,
    steps: Seq<Step>,
    loaded: Map<Seq<char>, RepositoryGitData>,
    n: int,
    t: int,
)
    requires
        0 <= n < steps.len(),
        pre.wf(),
        post.wf(),
        !(steps[n] is Act),
        follows(pre, steps[n], post),
        0 <= t < pre.tasks().len(),
        task_inv(pre, steps, loaded, n, t),
        unfetched_without_pool(pre, t),
    ensures
        post.tasks().len() == pre.tasks().len(),
        post.tasks()[t].url == pre.tasks()[t].url,
        post.tasks()[t].instance == pre.tasks()[t].instance,
        task_inv(post, steps, loaded, n + 1, t),
        unfetched_without_pool(post, t),
{
    let url = pre.tasks()[t].url@;
    let k = pre.tasks()[t].instance as int;
    lemma_witness_stays(pre, steps, loaded, n, t);
    match steps[n] {
        Step::Act { now, action } => {},
        Step::Client { instance, ready, accepted } => {
            if accepted {
                assert(post.tasks() == pre.tasks());
                if k != instance {
                    assert(post.instances()[k] == pre.instances()[k]);
                }
            } else {
                assert(post == pre);
            }
        },
        Step::Fetch { task, outcome, accepted } => {
            if accepted {
                assert(pool_view(post.instances()[pre.tasks()[task].instance as int].pool) is Ready);
                if t == task {
                    if outcome is Some {
                        assert(post.result()[url] == outcome->0);
                        assert(fetch_at(steps, t, Some(post.result()[url]), n));
                            } else {
                        assert(fetch_at(steps, t, None, n));
                            }
                } else {
                    assert(post.tasks()[t] == pre.tasks()[t]);
                    assert(pre.tasks()[task].url@ != url);
                    if k != pre.tasks()[task].instance {
                        assert(post.instances()[k] == pre.instances()[k]);
                    }
                    if pre.tasks()[t].state is Reused || pre.tasks()[t].state is Fetched {
                        assert(pre.result().dom().contains(pre.tasks()[t].url@));
                        assert(post.result()[url] == pre.result()[url]);
                    }
                    if pre.tasks()[t].state is Fetched {
                        let i = choose|i: int|
                            i < n && fetch_at(steps, t, Some(pre.result()[url]), i);
                        assert(fetch_at(steps, t, Some(post.result()[url]), i));
                    }
                    }
            } else {
                assert(post == pre);
            }
        },
    }
}

/// A step keeps what `run_inv` says of one task.
pub proof fn lemma_step_keeps_task(
    pre: Collector,
    post: Collector,
    steps: Seq<Step>,
    loaded: Map<Seq<char>, RepositoryGitData>,
    n: int,
    t: int,
)
    requires
        0 <= n < steps.len(),
        pre.wf(),
        post.wf(),
        follows(pre, steps[n], post),
        0 <= t < pre.tasks().len(),
        task_inv(pre, steps, loaded, n, t),
        unfetched_without_pool(pre, t),
    ensures
        post.tasks().len() == pre.tasks().len(),
        post.tasks()[t].url == pre.tasks()[t].url,
        post.tasks()[t].instance == pre.tasks()[t].instance,
        task_inv(post, steps, loaded, n + 1, t),
        unfetched_without_pool(post, t),
{
    if steps[n] is Act {
        lemma_action_keeps_task(pre, post, steps, loaded, n, t, steps[n]->now, steps[n]->action);
    } else {
        lemma_report_keeps_task(pre, post, steps, loaded, n, t);
    }
}

/// A step keeps what `run_inv` says.
pub proof fn lemma_step_keeps_inv(
    first: Collector,
    pre: Collector,
    post: Collector,
    steps: Seq<Step>,
    loaded: Map<Seq<char>, RepositoryGitData>,
    n: int,
)
    requires
        0 <= n < steps.len(),
        run_inv(first, pre, steps, loaded, n),
        post.wf(),
        follows(pre, steps[n], post),
    ensures
        run_inv(first, post, steps, loaded, n + 1),
{
    let len = pre.tasks().len() as int;
    if len > 0 {
        assert(task_inv(pre, steps, loaded, n, 0) && unfetched_without_pool(pre, 0));
        lemma_step_keeps_task(pre, post, steps, loaded, n, 0);
    } else {
        lemma_step_keeps_length(pre, post, steps[n]);
    }
    assert forall|t: int| 0 <= t < len implies (#[trigger] post.tasks()[t]).url == first.tasks()[t].url
        && post.tasks()[t].instance == first.tasks()[t].instance by {
        assert(task_inv(pre, steps, loaded, n, t) && unfetched_without_pool(pre, t));
        lemma_step_keeps_task(pre, post, steps, loaded, n, t);
        assert(pre.tasks()[t].url == first.tasks()[t].url);
    }
    assert forall|t: int| 0 <= t < len implies #[trigger] task_inv(post, steps, loaded, n + 1, t) by {
        assert(task_inv(pre, steps, loaded, n, t) && unfetched_without_pool(pre, t));
        lemma_step_keeps_task(pre, post, steps, loaded, n, t);
    }
    assert forall|t: int| 0 <= t < len implies #[trigger] unfetched_without_pool(post, t) by {
        assert(task_inv(pre, steps, loaded, n, t) && unfetched_without_pool(pre, t));
        lemma_step_keeps_task(pre, post, steps, loaded, n, t);
    }
}

/// A step keeps the number of tasks.
pub proof fn lemma_step_keeps_length(pre: Collector, post: Collector, step: Step)
    requires
        follows(pre, step, post),
    ensures
        post.tasks().len() == pre.tasks().len(),
{
}

/// The pool of instance `k`, if it is ready in `pre`, is ready in `post`.
pub open spec fn pool_ready_kept(pre: Collector, post: Collector, k: int) -> bool {
    pre.instances()[k].pool is Ready ==> post.instances()[k].pool is Ready
}

/// A step that is found among the first `n` is found among the first
/// `n + 1`.
pub proof fn lemma_witness_stays(
    state: Collector,
    steps: Seq<Step>,
    loaded: Map<Seq<char>, RepositoryGitData>,
    n: int,
    t: int,
)
    requires
        0 <= t < state.tasks().len(),
        task_inv(state, steps, loaded, n, t),
    ensures
        task_inv(state, steps, loaded, n + 1, t),
{
    let url = state.tasks()[t].url@;
    match state.tasks()[t].state {
        TaskState::Reused => {
            let i = choose|i: int| i < n && reuse_at(steps, loaded, url, i);
            assert(i < n + 1 && reuse_at(steps, loaded, url, i));
        },
        TaskState::Fetched => {
            let i = choose|i: int| i < n && fetch_at(steps, t, Some(state.result()[url]), i);
            assert(i < n + 1 && fetch_at(steps, t, Some(state.result()[url]), i));
        },
        TaskState::Failed => {
            let i = choose|i: int| i < n && fetch_at(steps, t, None, i);
            assert(i < n + 1 && fetch_at(steps, t, None, i));
        },
        _ => {},
    }
}

/// Every state of a run satisfies `run_inv`.
pub proof fn lemma_run_inv(
    states: Seq<Collector>,
    steps: Seq<Step>,
    loaded: Map<Seq<char>, RepositoryGitData>,
    n: int,
)
    requires
        is_run(states, steps, loaded),
        0 <= n <= steps.len(),
    ensures
        run_inv(states[0], states[n], steps, loaded, n),
    decreases n,
{
    if n == 0 {
        let first = states[0];
        assert forall|t: int| 0 <= t < first.tasks().len() implies #[trigger] task_inv(
            first,
            steps,
            loaded,
            0,
            t,
        ) && unfetched_without_pool(first, t) by {
            assert(first.tasks()[t].state is Pending);
        }
    } else {
        lemma_run_inv(states, steps, loaded, n - 1);
        assert(step_taken(states, steps, n - 1));
        lemma_step_keeps_inv(states[0], states[n - 1], states[n], steps, loaded, n - 1);
    }
}

/// Task `t` holds `url`, and step `i`, one of the first `n`, reported that its
/// fetch gave `snapshot`.
pub open spec fn fetched_at(
    first: Collector,
    steps: Seq<Step>,
    url: Seq<char>,
    snapshot: RepositoryGitData,
    n: int,
    t: int,
    i: int,
) -> bool {
    &&& task_with_url(first.tasks(), url, t)
    &&& i < n
    &&& fetch_at(steps, t, Some(snapshot), i)
}

/// In every state of a run, each URL of the result is one of the discovered
/// URLs, and its snapshot is either the one that was loaded from the cache,
/// fresh at a time at which an action was chosen, or one that a fetch of
/// that URL gave.
pub proof fn lemma_result_is_loaded_or_fetched(
    states: Seq<Collector>,
    steps: Seq<Step>,
    loaded: Map<Seq<char>, RepositoryGitData>,
    n: int,
    url: Seq<char>,
)
    requires
        is_run(states, steps, loaded),
        0 <= n <= steps.len(),
        states[n].result().dom().contains(url),
    ensures
        discovered(states[0].tasks(), url),
        (loaded.dom().contains(url) && states[n].result()[url] == loaded[url] && exists|i: int|
            i < n && reuse_at(steps, loaded, url, i)) || exists|t: int, i: int|
            fetched_at(states[0], steps, url, states[n].result()[url], n, t, i),
{
    lemma_run_inv(states, steps, loaded, n);
    let state = states[n];
    let t = choose|t: int| task_with_url(state.tasks(), url, t);
    assert(state.tasks()[t].url == states[0].tasks()[t].url);
    assert(task_with_url(states[0].tasks(), url, t));
    assert(task_inv(state, steps, loaded, n, t));
    assert(state.tasks()[t].state is Reused || state.tasks()[t].state is Fetched);
    if state.tasks()[t].state is Fetched {
        let i = choose|i: int| i < n && fetch_at(steps, t, Some(state.result()[url]), i);
        assert(fetched_at(states[0], steps, url, state.result()[url], n, t, i));
    }
}

/// In a whole run no fetch is ever started for a URL whose loaded snapshot
/// is fresh at the time of the decision.
pub proof fn lemma_fresh_is_never_fetched(
    states: Seq<Collector>,
    steps: Seq<Step>,
    loaded: Map<Seq<char>, RepositoryGitData>,
    i: int,
)
    requires
        is_run(states, steps, loaded),
        0 <= i < steps.len(),
        steps[i] is Act,
        steps[i]->action is StartFetch,
    ensures
        steps[i]->action->task < states[0].tasks().len(),
        !(loaded.dom().contains(states[0].tasks()[steps[i]->action->task as int].url@) && fresh(
            loaded[states[0].tasks()[steps[i]->action->task as int].url@].generated_at,
            steps[i]->now,
        )),
{
    lemma_run_inv(states, steps, loaded, i);
    assert(step_taken(states, steps, i));
    let pre = states[i];
    let task = steps[i]->action->task as int;
    assert(task_inv(pre, steps, loaded, i, task));
    assert(pre.tasks()[task].url == states[0].tasks()[task].url);
}

/// Every loaded snapshot is fresh whenever an action is chosen.
pub open spec fn always_fresh(steps: Seq<Step>, loaded: Map<Seq<char>, RepositoryGitData>) -> bool {
    forall|i: int, url: Seq<char>|
        #![trigger steps[i], loaded.dom().contains(url)]
        0 <= i < steps.len() && steps[i] is Act && loaded.dom().contains(url) ==> fresh(
            loaded[url].generated_at,
            steps[i]->now,
        )
}

/// No fetch is in flight and every task is pending or reused.
pub open spec fn idle(state: Collector) -> bool {
    &&& state.in_flight() == 0
    &&& forall|t: int|
        0 <= t < state.tasks().len() ==> (#[trigger] state.tasks()[t]).state is Pending
            || state.tasks()[t].state is Reused
}

/// A run on a cache that holds a snapshot for exactly the discovered URLs,
/// each fresh throughout, never starts a fetch and never waits: from its
/// start on it only builds clients and then finishes, and when it finishes
/// its result is the cache that was loaded.
pub proof fn lemma_rerun_is_idle(
    states: Seq<Collector>,
    steps: Seq<Step>,
    loaded: Map<Seq<char>, RepositoryGitData>,
    n: int,
)
    requires
        is_run(states, steps, loaded),
        0 <= n <= steps.len(),
        always_fresh(steps, loaded),
        forall|url: Seq<char>| #[trigger]
            loaded.dom().contains(url) <==> discovered(states[0].tasks(), url),
    ensures
        idle(states[n]),
        n > 0 && steps[n - 1] is Act ==> steps[n - 1]->action is BuildClient || steps[n - 1]->action
            is Finish,
        n > 0 && steps[n - 1] is Act && steps[n - 1]->action is Finish ==> states[n].result()
            == loaded,
    decreases n,
{
    if n > 0 {
        lemma_rerun_is_idle(states, steps, loaded, n - 1);
        lemma_run_inv(states, steps, loaded, n - 1);
        lemma_run_inv(states, steps, loaded, n);
        assert(step_taken(states, steps, n - 1));
        let first = states[0];
        let pre = states[n - 1];
        let post = states[n];
        let step = steps[n - 1];
        assert forall|t: int| 0 <= t < pre.tasks().len() && pre.tasks()[t].state is Pending implies forall|
            now: Timestamp,
        |
            step == (Step::Act { now, action: step->action }) ==> cached_fresh(
                pre.cache(),
                (#[trigger] pre.tasks()[t]).url@,
                now,
            ) by {
            assert(task_inv(pre, steps, loaded, n - 1, t));
            assert(pre.tasks()[t].url == first.tasks()[t].url);
            assert(task_with_url(first.tasks(), pre.tasks()[t].url@, t));
            assert(loaded.dom().contains(pre.tasks()[t].url@));
        }
        match step {
            Step::Act { now, action } => {
                if action is StartFetch {
                    assert(cached_fresh(pre.cache(), pre.tasks()[action->task as int].url@, now));
                }
                if action is Finish {
                    assert forall|t: int| 0 <= t < post.tasks().len() implies (
                    #[trigger] post.tasks()[t]).state is Reused by {
                        assert(settled(pre, post, t, now));
                    }
                    assert forall|url: Seq<char>| post.result().dom().contains(url)
                        == loaded.dom().contains(url) by {
                        if post.result().dom().contains(url) {
                            let t = choose|t: int| task_with_url(post.tasks(), url, t);
                            assert(post.tasks()[t].url == first.tasks()[t].url);
                            assert(task_with_url(first.tasks(), url, t));
                        }
                        if loaded.dom().contains(url) {
                            let t = choose|t: int| task_with_url(first.tasks(), url, t);
                            assert(post.tasks()[t].url == first.tasks()[t].url);
                            assert(post.tasks()[t].state is Reused);
                        }
                    }
                    assert forall|url: Seq<char>| post.result().dom().contains(url) implies post.result()[url]
                        == loaded[url] by {
                        let t = choose|t: int| task_with_url(post.tasks(), url, t);
                        assert(post.tasks()[t].state is Reused);
                        assert(task_inv(post, steps, loaded, n, t));
                    }
                    assert(post.result() =~= loaded);
                }
                if action is Wait {
                    assert(post.in_flight() > 0);
                }
                if action is BuildClient {
                    assert(post == pre);
                }
            },
            Step::Client { instance, ready, accepted } => {
                assert(post.tasks() == pre.tasks());
            },
            Step::Fetch { task, outcome, accepted } => {
                assert(post == pre);
            },
        }
    }
}

/// A settled task stays as it is: once a URL is reused, fetched, failed or
/// skipped, no step changes that.
pub proof fn lemma_settled_stays(pre: Collector, step: Step, post: Collector, t: int)
    requires
        pre.wf(),
        follows(pre, step, post),
        0 <= t < pre.tasks().len(),
        !(pre.tasks()[t].state is Pending),
        !(pre.tasks()[t].state is Running),
    ensures
        post.tasks()[t] == pre.tasks()[t],
{
    match step {
        Step::Act { now, action } => {
            if action is BuildClient {
                assert(post == pre);
            } else if action is StartFetch {
                if t < action->task {
                    assert(settled(pre, post, t, now));
                }
            } else {
                assert(settled(pre, post, t, now));
            }
        },
        Step::Client { instance, ready, accepted } => {
            assert(post.tasks() == pre.tasks());
        },
        Step::Fetch { task, outcome, accepted } => {},
    }
}

/// In a whole run, a fetch that was reported as failed leaves its URL out of
/// the result of every later state, whatever its sub-fetches gave and
/// whatever the cache held for it.
pub proof fn lemma_failed_fetch_stays_out(
    states: Seq<Collector>,
    steps: Seq<Step>,
    loaded: Map<Seq<char>, RepositoryGitData>,
    i: int,
    n: int,
)
    requires
        is_run(states, steps, loaded),
        0 <= i < n <= steps.len(),
        steps[i] is Fetch,
        steps[i]->Fetch_accepted,
        steps[i]->outcome is None,
    ensures
        0 <= steps[i]->task < states[n].tasks().len(),
        states[n].tasks()[steps[i]->task].state is Failed,
        !states[n].result().dom().contains(states[n].tasks()[steps[i]->task].url@),
    decreases n - i,
{
    let t = steps[i]->task;
    lemma_run_inv(states, steps, loaded, n - 1);
    lemma_run_inv(states, steps, loaded, n);
    assert(step_taken(states, steps, n - 1));
    if n == i + 1 {
        assert(states[n].tasks()[t].state is Failed);
    } else {
        lemma_failed_fetch_stays_out(states, steps, loaded, i, n - 1);
        lemma_settled_stays(states[n - 1], steps[n - 1], states[n], t);
    }
}

/// In every state of a run, a URL of an instance whose pool is not ready is
/// in the result only if its loaded snapshot was reused: no fetch was started
/// for it. The URLs of an instance whose pool is ready are never skipped.
pub proof fn lemma_pool_decides_fetches(
    states: Seq<Collector>,
    steps: Seq<Step>,
    loaded: Map<Seq<char>, RepositoryGitData>,
    n: int,
    t: int,
)
    requires
        is_run(states, steps, loaded),
        0 <= n <= steps.len(),
        0 <= t < states[n].tasks().len(),
    ensures
        !(states[n].instances()[states[n].tasks()[t].instance as int].pool is Ready)
            && states[n].result().dom().contains(states[n].tasks()[t].url@)
            ==> states[n].tasks()[t].state is Reused && loaded.dom().contains(
            states[n].tasks()[t].url@,
        ) && states[n].result()[states[n].tasks()[t].url@] == loaded[states[n].tasks()[t].url@],
        states[n].instances()[states[n].tasks()[t].instance as int].pool is Ready ==> !(
        states[n].tasks()[t].state is Skipped),
{
    lemma_run_inv(states, steps, loaded, n);
    assert(task_inv(states[n], steps, loaded, n, t));
    assert(unfetched_without_pool(states[n], t));
}

/// A pool that was given up stays given up, and a pool that is ready stays
/// ready: no step builds a pool for an instance that lost it.
pub proof fn lemma_pool_state_stays(pre: Collector, step: Step, post: Collector, k: int)
    requires
        pre.wf(),
        follows(pre, step, post),
        0 <= k < pre.instances().len(),
    ensures
        pre.instances()[k].pool is Failed ==> post.instances()[k].pool is Failed,
        pre.instances()[k].pool is NoCredentials ==> post.instances()[k].pool is NoCredentials,
        pre.instances()[k].pool is Ready ==> post.instances()[k].pool is Ready,
{
    match step {
        Step::Act { now, action } => {
            if action is BuildClient {
                assert(post == pre);
            } else {
                assert(pool_view(post.instances()[k].pool) is Ready && pre.instances()[k].pool is Ready
                    || pool_view(post.instances()[k].pool) == pool_view(pre.instances()[k].pool));
            }
        },
        Step::Client { instance, ready, accepted } => {
            if accepted && k != instance {
                assert(post.instances()[k] == pre.instances()[k]);
            }
        },
        Step::Fetch { task, outcome, accepted } => {
            if accepted && k != pre.tasks()[task].instance {
                assert(post.instances()[k] == pre.instances()[k]);
            }
        },
    }
}

/// The sum of a sequence of numbers.
pub open spec fn total(w: Seq<nat>) -> nat
    decreases w.len(),
{
    if w.len() == 0 {
        0
    } else {
        total(w.drop_last()) + w.last()
    }
}

/// A sequence that is nowhere greater than another has no greater sum, and
/// a smaller sum if it is smaller at one place.
pub proof fn lemma_total_le(a: Seq<nat>, b: Seq<nat>, k: int)
    requires
        a.len() == b.len(),
        forall|i: int| 0 <= i < a.len() ==> a[i] <= b[i],
    ensures
        total(a) <= total(b),
        0 <= k < a.len() && a[k] < b[k] ==> total(a) < total(b),
    decreases a.len(),
{
    if a.len() > 0 {
        lemma_total_le(a.drop_last(), b.drop_last(), k);
    }
}

/// What a task still asks of the run: two steps while it is pending (the
/// decision and the report on its fetch), one while its fetch is in flight,
/// none once it is settled.
pub open spec fn task_work(state: Collector, t: int) -> nat {
    match state.tasks()[t].state {
        TaskState::Pending => 2,
        TaskState::Running { client } => 1,
        _ => 0,
    }
}

/// What a pool still asks of the run: one report for each client that is
/// not built yet while the pool is being built, none otherwise.
pub open spec fn pool_work(state: Collector, k: int) -> nat {
    match state.instances()[k].pool {
        PoolState::Building { built } => (token_count(state.configs(), state.instances()[k].config)
            - built) as nat,
        _ => 0,
    }
}

/// The work that is left in a state: that of its tasks and of its pools.
pub open spec fn work(state: Collector) -> nat {
    total(Seq::new(state.tasks().len(), |t: int| task_work(state, t))) + total(
        Seq::new(state.instances().len(), |k: int| pool_work(state, k)),
    )
}

/// A step that moves the run on: the start of a fetch, or a report that was
/// awaited.
pub open spec fn moves_on(step: Step) -> bool {
    match step {
        Step::Act { now, action } => action is StartFetch,
        Step::Client { instance, ready, accepted } => accepted,
        Step::Fetch { task, outcome, accepted } => accepted,
    }
}

/// No step adds work, and every step that moves the run on takes some away:
/// a run that starts with `work` left takes at most that many such steps.
pub proof fn lemma_work_decreases(pre: Collector, step: Step, post: Collector)
    requires
        pre.wf(),
        post.wf(),
        follows(pre, step, post),
    ensures
        work(post) <= work(pre),
        moves_on(step) ==> work(post) < work(pre),
{
    lemma_step_keeps_length(pre, post, step);
    let tasks_before = Seq::new(pre.tasks().len(), |t: int| task_work(pre, t));
    let tasks_after = Seq::new(post.tasks().len(), |t: int| task_work(post, t));
    let pools_before = Seq::new(pre.instances().len(), |k: int| pool_work(pre, k));
    let pools_after = Seq::new(post.instances().len(), |k: int| pool_work(post, k));
    match step {
        Step::Act { now, action } => {
            if action is BuildClient {
                assert(post == pre);
                lemma_total_le(tasks_after, tasks_before, 0);
                lemma_total_le(pools_after, pools_before, 0);
            } else {
                let upto = if action is StartFetch {
                    action->task as int
                } else {
                    pre.tasks().len() as int
                };
                assert forall|t: int| 0 <= t < tasks_after.len() implies tasks_after[t]
                    <= tasks_before[t] by {
                    if t < upto {
                        assert(settled(pre, post, t, now));
                    } else if !(action is StartFetch && t == action->task) {
                        assert(post.tasks()[t] == pre.tasks()[t]);
                    }
                }
                assert forall|k: int| 0 <= k < pools_after.len() implies pools_after[k]
                    <= pools_before[k] by {
                    assert(!(pre.instances()[k].pool is Building));
                    assert(pool_view(post.instances()[k].pool) is Ready || pool_view(
                        post.instances()[k].pool,
                    ) == pool_view(pre.instances()[k].pool));
                }
                lemma_total_le(pools_after, pools_before, 0);
                if action is StartFetch {
                    lemma_total_le(tasks_after, tasks_before, action->task as int);
                } else {
                    lemma_total_le(tasks_after, tasks_before, 0);
                }
            }
        },
        Step::Client { instance, ready, accepted } => {
            if accepted {
                assert(post.tasks() == pre.tasks());
                assert(tasks_after =~= tasks_before);
                assert(instance_wf(pre.instances()[instance], pre.configs()));
                assert(post.instances()[instance].config == pre.instances()[instance].config);
                let left = pool_view(post.instances()[instance].pool);
                assert(left is Failed || left is Ready || left == (PoolView::Building {
                    built: (pre.instances()[instance].pool->built + 1) as usize,
                }));
                let tokens = token_count(pre.configs(), pre.instances()[instance].config);
                let entry = pre.configs()[pre.instances()[instance].config->0 as int];
                assert(tokens == entry.tokens.len());
                assert(pre.instances()[instance].pool->built < tokens <= usize::MAX);
                assert(pool_work(post, instance) < pool_work(pre, instance));
                assert forall|k: int| 0 <= k < pools_after.len() implies pools_after[k]
                    <= pools_before[k] by {
                    if k != instance {
                        assert(post.instances()[k] == pre.instances()[k]);
                    }
                }
                lemma_total_le(pools_after, pools_before, instance);
            } else {
                assert(post == pre);
            }
        },
        Step::Fetch { task, outcome, accepted } => {
            if accepted {
                let i = pre.tasks()[task].instance as int;
                assert forall|t: int| 0 <= t < tasks_after.len() implies tasks_after[t]
                    <= tasks_before[t] by {
                    if t != task {
                        assert(post.tasks()[t] == pre.tasks()[t]);
                    }
                }
                assert forall|k: int| 0 <= k < pools_after.len() implies pools_after[k]
                    <= pools_before[k] by {
                    if k != i {
                        assert(post.instances()[k] == pre.instances()[k]);
                    } else {
                        assert(pool_view(post.instances()[k].pool) is Ready);
                    }
                }
                lemma_total_le(tasks_after, tasks_before, task);
                lemma_total_le(pools_after, pools_before, 0);
            } else {
                assert(post == pre);
            }
        },
    }
}

/// A running task is found where a fetch is in flight.
pub proof fn lemma_some_running(tasks: Seq<Task>) -> (t: int)
    requires
        running_count(tasks) > 0,
    ensures
        0 <= t < tasks.len(),
        tasks[t].state is Running,
    decreases tasks.len(),
{
    if tasks.last().state is Running {
        tasks.len() - 1
    } else {
        lemma_some_running(tasks.drop_last())
    }
}

/// A run never asks for what cannot come. When it asks for a client, the
/// report on that client is awaited. When it asks to wait, a fetch is in
/// flight, and the report on it is awaited. When it finishes, no work is
/// left. With `lemma_work_decreases`, a caller that answers each request
/// reaches the end of the run: with one client and ten URLs as well as with
/// any other numbers.
pub proof fn lemma_never_stuck(pre: Collector, post: Collector, now: Timestamp, action: Action) -> (t:
    int)
    requires
        pre.wf(),
        post.wf(),
        acted(pre, post, now, action),
    ensures
        action is BuildClient ==> action->instance < post.instances().len()
            && post.instances()[action->instance as int].pool is Building,
        action is Wait ==> 0 <= t < post.tasks().len() && post.tasks()[t].state is Running,
        action is Finish ==> work(post) == 0,
{
    if action is Wait {
        lemma_some_running(post.tasks())
    } else {
        if action is Finish {
            let tasks_after = Seq::new(post.tasks().len(), |t: int| task_work(post, t));
            let pools_after = Seq::new(post.instances().len(), |k: int| pool_work(post, k));
            let zero_tasks = Seq::new(post.tasks().len(), |t: int| 0nat);
            let zero_pools = Seq::new(post.instances().len(), |k: int| 0nat);
            lemma_total_zero(zero_tasks);
            lemma_total_zero(zero_pools);
            assert(tasks_after =~= zero_tasks);
            assert forall|k: int| 0 <= k < pools_after.len() implies pools_after[k] == 0 by {
                assert(!(pre.instances()[k].pool is Building));
                assert(pool_view(post.instances()[k].pool) == pool_view(pre.instances()[k].pool));
            }
            assert(pools_after =~= zero_pools);
        }
        0
    }
}

/// A sequence of zeros has the sum zero.
pub proof fn lemma_total_zero(w: Seq<nat>)
    requires
        forall|i: int| 0 <= i < w.len() ==> w[i] == 0,
    ensures
        total(w) == 0,
    decreases w.len(),
{
    if w.len() > 0 {
        lemma_total_zero(w.drop_last());
    }
}

} // verus!
