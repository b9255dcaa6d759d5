//! What a run guarantees, proved from the contracts of its steps.

use crate::collector::{
    acted, cached_fresh, client_reported, discovered, fetch_reported, no_building, pool_view,
    running_count, settled, task_with_url, token_count, Action, Collector, PoolView,
};
use crate::model::{fresh, RepositoryGitData, Timestamp};
use vstd::prelude::*;

verus! {

/// A cached snapshot is fresh until seven days after it was generated, to
/// the nanosecond: at exactly seven days it is not fresh any more.
pub proof fn lemma_fresh_for_seven_days(generated_at: Timestamp, now: Timestamp)
    ensures
        fresh(generated_at, now) <==> now.nanos_since_epoch() - generated_at.nanos_since_epoch()
            < 604_800_000_000_000,
        now.secs == generated_at.secs + 6 * 86_400 && now.nanos == generated_at.nanos ==> fresh(
            generated_at,
            now,
        ),
        now.secs == generated_at.secs + 7 * 86_400 && now.nanos == generated_at.nanos ==> !fresh(
            generated_at,
            now,
        ),
        now.secs == generated_at.secs + 8 * 86_400 && now.nanos == generated_at.nanos ==> !fresh(
            generated_at,
            now,
        ),
{
}

/// No fetch is started for a URL whose cached snapshot is fresh, and none
/// for a URL whose instance has no pool: a fetch starts only for a pending
/// task without fresh cached snapshot whose instance has a pool that is
/// ready, with a client that the pool held.
pub proof fn lemma_fetch_only_when_needed(pre: Collector, post: Collector, now: Timestamp, action: Action)
    requires
        pre.wf(),
        acted(pre, post, now, action),
        action is StartFetch,
    ensures
        action->task < pre.tasks().len(),
        pre.tasks()[action->task as int].state is Pending,
        !cached_fresh(pre.cache(), pre.tasks()[action->task as int].url@, now),
        pre.instances()[pre.tasks()[action->task as int].instance as int].pool is Ready,
        pre.instances()[pre.tasks()[action->task as int].instance as int].pool->Ready_0.available().contains(
            action->client,
        ),
{
    let k = pre.tasks()[action->task as int].instance as int;
    let available = pre.instances()[k].pool->Ready_0.available();
    assert(available[available.len() - 1] == action->client);
}

/// Once the pending tasks have all been decided, every one that had a fresh
/// cached snapshot is reused with exactly that snapshot, and none that had
/// no fresh cached snapshot is.
pub proof fn lemma_reuse_follows_freshness(
    pre: Collector,
    post: Collector,
    now: Timestamp,
    action: Action,
    t: int,
)
    requires
        pre.wf(),
        acted(pre, post, now, action),
        action is Wait || action is Finish,
        0 <= t < pre.tasks().len(),
        pre.tasks()[t].state is Pending,
    ensures
        cached_fresh(pre.cache(), pre.tasks()[t].url@, now) ==> post.tasks()[t].state is Reused
            && post.result().dom().contains(pre.tasks()[t].url@) && post.result()[pre.tasks()[t].url@]
            == pre.cache()[pre.tasks()[t].url@],
        !cached_fresh(pre.cache(), pre.tasks()[t].url@, now) ==> !(post.tasks()[t].state is Reused),
{
    assert(settled(pre, post, t, now));
}

/// A run on a cache that holds a fresh snapshot for every discovered URL,
/// and for no other, starts no fetch: once the pools are dealt with it ends
/// at once, and its result is the cache.
pub proof fn lemma_rerun_gives_the_cache(pre: Collector, post: Collector, now: Timestamp, action: Action)
    requires
        pre.wf(),
        post.wf(),
        no_building(pre),
        pre.in_flight() == 0,
        pre.result() == Map::<Seq<char>, RepositoryGitData>::empty(),
        forall|t: int| 0 <= t < pre.tasks().len() ==> (#[trigger] pre.tasks()[t]).state is Pending,
        forall|t: int|
            0 <= t < pre.tasks().len() ==> cached_fresh(
                pre.cache(),
                (#[trigger] pre.tasks()[t]).url@,
                now,
            ),
        forall|url: Seq<char>| #[trigger] pre.cache().dom().contains(url) ==> discovered(pre.tasks(), url),
        acted(pre, post, now, action),
    ensures
        action is Finish,
        post.result() == pre.cache(),
{
    assert(!(action is BuildClient)) by {
        if action is BuildClient {
            assert(pre.instances()[action->instance as int].pool is Building);
        }
    }
    assert(!(action is StartFetch));
    assert(action is Finish);
    assert forall|url: Seq<char>| post.result().dom().contains(url) == pre.cache().dom().contains(
        url,
    ) by {
        if post.result().dom().contains(url) {
            let t = choose|t: int| task_with_url(post.tasks(), url, t);
            assert(post.tasks()[t].url == pre.tasks()[t].url);
            assert(cached_fresh(pre.cache(), pre.tasks()[t].url@, now));
        }
        if pre.cache().dom().contains(url) {
            let t = choose|t: int| task_with_url(pre.tasks(), url, t);
            assert(settled(pre, post, t, now));
        }
    }
    assert forall|url: Seq<char>| post.result().dom().contains(url) implies post.result()[url]
        == pre.cache()[url] by {
        let t = choose|t: int| task_with_url(post.tasks(), url, t);
        assert(post.tasks()[t].url == pre.tasks()[t].url);
        assert(settled(pre, post, t, now));
    }
    assert(post.result() =~= pre.cache());
}

/// A client that cannot be built costs only its own instance the pool: the
/// other instances, the tasks, the cache and the result are as they were.
pub proof fn lemma_failed_pool_is_isolated(pre: Collector, post: Collector, failed: int, accepted: bool)
    requires
        pre.wf(),
        client_reported(pre, post, failed, false, accepted),
    ensures
        post.tasks() == pre.tasks(),
        post.result() == pre.result(),
        post.cache() == pre.cache(),
        post.instances().len() == pre.instances().len(),
        forall|k: int|
            0 <= k < pre.instances().len() && k != failed ==> #[trigger] post.instances()[k]
                == pre.instances()[k],
        accepted ==> post.instances()[failed].pool is Failed,
{
}

/// The URLs of an instance without pool that have no fresh cached snapshot
/// stay out of the result: once decided, such a task is skipped, and the
/// result holds nothing for its URL.
pub proof fn lemma_without_pool_absent(
    pre: Collector,
    post: Collector,
    now: Timestamp,
    action: Action,
    t: int,
)
    requires
        pre.wf(),
        post.wf(),
        acted(pre, post, now, action),
        action is Wait || action is Finish,
        0 <= t < pre.tasks().len(),
        pre.tasks()[t].state is Pending,
        !cached_fresh(pre.cache(), pre.tasks()[t].url@, now),
        pre.instances()[pre.tasks()[t].instance as int].pool is Failed
            || pre.instances()[pre.tasks()[t].instance as int].pool is NoCredentials,
    ensures
        post.tasks()[t].state is Skipped,
        !post.result().dom().contains(pre.tasks()[t].url@),
{
    assert(settled(pre, post, t, now));
    assert(post.tasks()[t].url == pre.tasks()[t].url);
}

/// The URLs of an instance whose pool is ready are never skipped, and the run
/// does not end before they are decided: such a task without fresh cached
/// snapshot stays pending only while no fetch can be started for it, because
/// every client of its pool is in use or the bound on fetches in flight is
/// reached. A fetch is in flight then.
pub proof fn lemma_with_pool_not_skipped(
    pre: Collector,
    post: Collector,
    now: Timestamp,
    action: Action,
    t: int,
)
    requires
        pre.wf(),
        acted(pre, post, now, action),
        action is Wait || action is Finish,
        0 <= t < pre.tasks().len(),
        pre.tasks()[t].state is Pending,
        !cached_fresh(pre.cache(), pre.tasks()[t].url@, now),
        pre.instances()[pre.tasks()[t].instance as int].pool is Ready,
    ensures
        post.tasks()[t].state is Pending,
        action is Wait,
        post.in_flight() > 0,
        pre.instances()[pre.tasks()[t].instance as int].pool->Ready_0.available().len() == 0
            || pre.in_flight() >= pre.concurrency(),
{
    assert(settled(pre, post, t, now));
}

/// A fetch that gave a snapshot puts exactly that snapshot into the result;
/// one that failed leaves its URL out of the result, whatever its sub-fetches
/// gave before, and leaves the rest of the result as it was.
pub proof fn lemma_result_follows_outcome(
    pre: Collector,
    post: Collector,
    t: int,
    outcome: Option<RepositoryGitData>,
    accepted: bool,
)
    requires
        pre.wf(),
        0 <= t < pre.tasks().len(),
        pre.tasks()[t].state is Running,
        fetch_reported(pre, post, t, outcome, accepted),
    ensures
        outcome is Some ==> post.result().dom().contains(pre.tasks()[t].url@)
            && post.result()[pre.tasks()[t].url@] == outcome->0,
        outcome is None ==> !post.result().dom().contains(pre.tasks()[t].url@),
        forall|url: Seq<char>|
            url != pre.tasks()[t].url@ ==> (#[trigger] post.result().dom().contains(url)
                == pre.result().dom().contains(url)),
        forall|url: Seq<char>|
            url != pre.tasks()[t].url@ && pre.result().dom().contains(url) ==> #[trigger] post.result()[url]
                == pre.result()[url],
{
}

/// In every state of a run a client is used by at most one fetch: two
/// fetches in flight for one instance hold different clients, and no client
/// that a fetch holds is available in the pool.
pub proof fn lemma_clients_exclusive(run: Collector, t: int, u: int)
    requires
        run.wf(),
        0 <= t < run.tasks().len(),
        0 <= u < run.tasks().len(),
        t != u,
        run.tasks()[t].state is Running,
        run.tasks()[u].state is Running,
        run.tasks()[t].instance == run.tasks()[u].instance,
    ensures
        run.tasks()[t].state->client != run.tasks()[u].state->client,
        run.instances()[run.tasks()[t].instance as int].pool is Ready,
        !run.instances()[run.tasks()[t].instance as int].pool->Ready_0.available().contains(
            run.tasks()[t].state->client,
        ),
{
}

/// In every state of a run the fetches in flight are at most as many as the
/// bound allows, and a pool has as many clients as its instance has tokens.
pub proof fn lemma_bounded(run: Collector, k: int)
    requires
        run.wf(),
        0 <= k < run.instances().len(),
    ensures
        running_count(run.tasks()) == run.in_flight(),
        run.in_flight() <= run.concurrency(),
        run.concurrency() >= 1,
        run.instances()[k].pool is Ready ==> run.instances()[k].pool->Ready_0.size()
            == token_count(run.configs(), run.instances()[k].config),
{
}

/// A run never waits in vain: when it asks the caller to wait, a fetch is in
/// flight, and when the fetch of a task is over, its client is the one that
/// the pool hands out next.
pub proof fn lemma_no_deadlock(
    pre: Collector,
    mid: Collector,
    post: Collector,
    now: Timestamp,
    action: Action,
    t: int,
    outcome: Option<RepositoryGitData>,
    accepted: bool,
)
    requires
        pre.wf(),
        acted(pre, mid, now, action),
        action is Wait,
        0 <= t < mid.tasks().len(),
        mid.tasks()[t].state is Running,
        fetch_reported(mid, post, t, outcome, accepted),
    ensures
        mid.in_flight() > 0,
        accepted,
        post.in_flight() < mid.in_flight(),
        pool_view(post.instances()[mid.tasks()[t].instance as int].pool) matches PoolView::Ready {
            available,
            size,
        } && available.len() > 0 && available.last() == mid.tasks()[t].state->client,
{
}

} // verus!
