//! Collection orchestrator: one run of the engine as a state machine.
//!
//! A run discovers the repository URLs, groups them by instance, resolves the
//! credentials of each instance, builds its client pool, decides for each URL
//! whether the cached snapshot is reused, a fetch is started or the URL is
//! skipped, and merges the outcomes into the result. The caller does what the
//! actions ask for (it builds clients and performs fetches) and reports
//! back; every decision is made here.

use crate::credentials::{find_config_index, is_first_match, no_match, GitlabInstanceConfig};
use crate::model::{current_time, fresh, is_fresh, GitData, RepositoryGitData, Timestamp};
use crate::pool::ClientPool;
use crate::router::{parse_gitlab_url, route_of};
use vstd::prelude::*;

verus! {

/// The client pool of an instance, as far as it has come.
pub enum PoolState {
    /// No tokens are configured for the instance: there will be no pool.
    NoCredentials,
    /// The clients are being built, one per token, in the order of the
    /// tokens: `built` of them are ready.
    Building { built: usize },
    /// One client per token is ready.
    Ready(ClientPool),
    /// A client could not be built: there will be no pool.
    Failed,
}

/// A hosting instance that some repository URL belongs to.
pub struct Instance {
    pub base_url: String,
    /// Position of the instance's configuration entry, if it has one.
    pub config: Option<usize>,
    pub pool: PoolState,
}

/// What has become of a repository URL.
#[derive(Debug, Clone, Copy, PartialEq, Eq, Structural)]
pub enum TaskState {
    /// Not decided yet.
    Pending,
    /// A fetch is in flight and holds the client with this handle.
    Running { client: usize },
    /// The cached snapshot was reused.
    Reused,
    /// The fetch gave a snapshot.
    Fetched,
    /// The fetch failed.
    Failed,
    /// The instance has no pool.
    Skipped,
}

/// A repository URL with the instance it belongs to.
pub struct Task {
    pub url: String,
    pub instance: usize,
    pub state: TaskState,
}

/// What the caller is asked to do next.
#[derive(Debug, Clone, Copy, PartialEq, Eq, Structural)]
pub enum Action {
    /// Build the client for this token of this instance, then report
    /// `client_built` or `client_failed`.
    BuildClient { instance: usize, token: usize },
    /// Start the fetch of the URL at position `task` with the client
    /// `client` of its instance, and report `fetch_finished` once it is over.
    StartFetch { task: usize, client: usize },
    /// Nothing can be started: wait for a fetch in flight to end.
    Wait,
    /// The run is over: take the result.
    Finish,
}

/// One run of the engine.
pub struct Collector {
    configs: Vec<GitlabInstanceConfig>,
    instances: Vec<Instance>,
    tasks: Vec<Task>,
    cache: GitData,
    result: GitData,
    concurrency: usize,
    in_flight: usize,
}

/// The base URL of the instance that a routed URL belongs to.
pub open spec fn base_of(url: Seq<char>) -> Seq<char> {
    let route = route_of(url)->0;
    route.0
}

/// Position `t` of `tasks` holds `url`.
pub open spec fn task_with_url(tasks: Seq<Task>, url: Seq<char>, t: int) -> bool {
    0 <= t < tasks.len() && tasks[t].url@ == url
}

/// Position `i` of `urls` holds `url`.
pub open spec fn listed(urls: Seq<String>, url: Seq<char>, i: int) -> bool {
    0 <= i < urls.len() && urls[i]@ == url
}

/// Position `k` of `instances` holds the instance with this base URL.
pub open spec fn instance_with_base(instances: Seq<Instance>, base_url: Seq<char>, k: int) -> bool {
    0 <= k < instances.len() && instances[k].base_url@ == base_url
}

/// The number of tokens in all configuration entries together.
pub open spec fn total_tokens(configs: Seq<GitlabInstanceConfig>) -> nat
    decreases configs.len(),
{
    if configs.len() == 0 {
        0
    } else {
        total_tokens(configs.drop_last()) + configs.last().tokens@.len()
    }
}

/// The bound on fetches in flight: the number of configured tokens, at least
/// one, and what a `usize` can hold at most.
pub open spec fn concurrency_of(configs: Seq<GitlabInstanceConfig>) -> nat {
    let total = total_tokens(configs);
    if total == 0 {
        1
    } else if total > usize::MAX {
        usize::MAX as nat
    } else {
        total
    }
}

/// The number of tasks whose fetch is in flight.
pub open spec fn running_count(tasks: Seq<Task>) -> nat
    decreases tasks.len(),
{
    if tasks.len() == 0 {
        0
    } else {
        running_count(tasks.drop_last()) + if tasks.last().state is Running {
            1nat
        } else {
            0nat
        }
    }
}

/// Task `t` belongs to instance `k` and its fetch holds client `client`.
pub open spec fn holds_client(tasks: Seq<Task>, t: int, k: int, client: usize) -> bool {
    &&& 0 <= t < tasks.len()
    &&& tasks[t].instance == k
    &&& tasks[t].state == TaskState::Running { client }
}

/// The number of tokens of the configuration entry at `config`, if any.
pub open spec fn token_count(configs: Seq<GitlabInstanceConfig>, config: Option<usize>) -> nat {
    match config {
        Some(i) => if i < configs.len() {
            configs[i as int].tokens@.len()
        } else {
            0
        },
        None => 0,
    }
}

/// The instance is matched to the first configuration entry for its base
/// URL, and its pool fits that entry: no pool without tokens, at most one
/// client per token while the pool is built, and exactly one per token once
/// it is ready.
pub open spec fn instance_wf(instance: Instance, configs: Seq<GitlabInstanceConfig>) -> bool {
    let tokens = token_count(configs, instance.config);
    &&& match instance.config {
        Some(i) => is_first_match(configs, instance.base_url@, i as int),
        None => no_match(configs, instance.base_url@),
    }
    &&& match instance.pool {
        PoolState::NoCredentials => tokens == 0,
        PoolState::Building { built } => built < tokens,
        PoolState::Ready(pool) => pool.wf() && pool.size() == tokens && tokens > 0,
        PoolState::Failed => tokens > 0,
    }
}

/// Each task belongs to the instance that its URL is routed to, and no URL
/// occurs twice.
pub open spec fn tasks_wf(tasks: Seq<Task>, instances: Seq<Instance>) -> bool {
    &&& forall|t: int|
        0 <= t < tasks.len() ==> {
            &&& (#[trigger] tasks[t]).instance < instances.len()
            &&& route_of(tasks[t].url@) is Some
            &&& base_of(tasks[t].url@) == instances[tasks[t].instance as int].base_url@
        }
    &&& forall|t: int, u: int|
        0 <= t < tasks.len() && 0 <= u < tasks.len() && t != u ==> (#[trigger] tasks[t]).url@ != (
        #[trigger] tasks[u]).url@
    &&& forall|k: int, m: int|
        0 <= k < instances.len() && 0 <= m < instances.len() && k != m ==> (
        #[trigger] instances[k]).base_url@ != (#[trigger] instances[m]).base_url@
}

/// The checkout discipline: a fetch in flight holds a client of its
/// instance's pool that the pool does not hold, no two fetches hold the same
/// client, and a client that the pool does not hold is held by a fetch.
pub open spec fn clients_wf(tasks: Seq<Task>, instances: Seq<Instance>) -> bool {
    &&& forall|t: int|
        0 <= t < tasks.len() && (#[trigger] tasks[t]).state is Running ==> {
            &&& tasks[t].instance < instances.len()
            &&& instances[tasks[t].instance as int].pool is Ready
            &&& tasks[t].state->client < instances[tasks[t].instance as int].pool->Ready_0.size()
            &&& !instances[tasks[t].instance as int].pool->Ready_0.available().contains(
                tasks[t].state->client,
            )
        }
    &&& forall|t: int, u: int|
        0 <= t < tasks.len() && 0 <= u < tasks.len() && t != u && (#[trigger] tasks[t]).state is Running
            && (#[trigger] tasks[u]).state is Running && tasks[t].instance == tasks[u].instance
            ==> tasks[t].state->client != tasks[u].state->client
    &&& forall|k: int, client: usize|
        0 <= k < instances.len() && (#[trigger] instances[k]).pool is Ready && client
            < instances[k].pool->Ready_0.size() ==> #[trigger] instances[k].pool->Ready_0.available().contains(
            client,
        ) || exists|t: int| holds_client(tasks, t, k, client)
}

/// The result holds a snapshot for exactly the URLs whose cached snapshot was
/// reused or whose fetch gave one.
pub open spec fn outcome_wf(tasks: Seq<Task>, result: Map<Seq<char>, RepositoryGitData>) -> bool {
    &&& forall|t: int|
        0 <= t < tasks.len() ==> (result.dom().contains((#[trigger] tasks[t]).url@) <==> (
        tasks[t].state is Reused || tasks[t].state is Fetched))
    &&& forall|url: Seq<char>| #[trigger]
        result.dom().contains(url) ==> exists|t: int| task_with_url(tasks, url, t)
}

/// Task `t` belongs to instance `k`.
pub open spec fn task_of_instance(tasks: Seq<Task>, k: int, t: int) -> bool {
    0 <= t < tasks.len() && tasks[t].instance == k
}

/// Some task belongs to instance `k`.
pub open spec fn instance_used(tasks: Seq<Task>, k: int) -> bool {
    exists|t: int| task_of_instance(tasks, k, t)
}

/// Some task holds `url`.
pub open spec fn discovered(tasks: Seq<Task>, url: Seq<char>) -> bool {
    exists|t: int| task_with_url(tasks, url, t)
}

/// `urls` holds `url`.
pub open spec fn is_listed(urls: Seq<String>, url: Seq<char>) -> bool {
    exists|i: int| listed(urls, url, i)
}

/// The pool state that an instance starts with: clients are to be built if
/// its configuration entry holds a token, else there are no credentials.
pub open spec fn initial_pool(instance: Instance, configs: Seq<GitlabInstanceConfig>) -> bool {
    if token_count(configs, instance.config) > 0 {
        instance.pool == (PoolState::Building { built: 0 })
    } else {
        instance.pool is NoCredentials
    }
}

/// No fetch is in flight where no task is running.
pub proof fn lemma_none_running(tasks: Seq<Task>)
    requires
        forall|t: int| 0 <= t < tasks.len() ==> !((#[trigger] tasks[t]).state is Running),
    ensures
        running_count(tasks) == 0,
    decreases tasks.len(),
{
    if tasks.len() > 0 {
        let init = tasks.drop_last();
        assert forall|t: int| 0 <= t < init.len() implies !((#[trigger] init[t]).state is Running) by {
            assert(init[t] == tasks[t]);
        }
        lemma_none_running(init);
    }
}

/// A running task is counted.
pub proof fn lemma_running_counted(tasks: Seq<Task>, t: int)
    requires
        0 <= t < tasks.len(),
        tasks[t].state is Running,
    ensures
        running_count(tasks) > 0,
    decreases tasks.len(),
{
    if t < tasks.len() - 1 {
        lemma_running_counted(tasks.drop_last(), t);
    }
}

/// Replacing one task changes the count by what that task counts for.
pub proof fn lemma_running_count_update(tasks: Seq<Task>, t: int, task: Task)
    requires
        0 <= t < tasks.len(),
    ensures
        running_count(tasks.update(t, task)) + (if tasks[t].state is Running {
            1nat
        } else {
            0nat
        }) == running_count(tasks) + (if task.state is Running {
            1nat
        } else {
            0nat
        }),
    decreases tasks.len(),
{
    let updated = tasks.update(t, task);
    if t < tasks.len() - 1 {
        lemma_running_count_update(tasks.drop_last(), t, task);
        assert(updated.drop_last() == tasks.drop_last().update(t, task));
    } else {
        assert(updated.drop_last() == tasks.drop_last());
    }
}

/// The position of the task for `url`, if there is one.
fn find_task(tasks: &Vec<Task>, url: &String) -> (r: Option<usize>)
    ensures
        match r {
            Some(t) => task_with_url(tasks@, url@, t as int),
            None => !discovered(tasks@, url@),
        },
{
    let mut t: usize = 0;
    while t < tasks.len()
        invariant
            t <= tasks.len(),
            forall|u: int| 0 <= u < t ==> !task_with_url(tasks@, url@, u),
        decreases tasks.len() - t,
    {
        if tasks[t].url == *url {
            return Some(t);
        }
        t += 1;
    }
    None
}

/// The position of the instance with this base URL, if there is one.
fn find_instance(instances: &Vec<Instance>, base_url: &String) -> (r: Option<usize>)
    ensures
        match r {
            Some(k) => instance_with_base(instances@, base_url@, k as int),
            None => forall|k: int| !instance_with_base(instances@, base_url@, k),
        },
{
    let mut k: usize = 0;
    while k < instances.len()
        invariant
            k <= instances.len(),
            forall|m: int| 0 <= m < k ==> !instance_with_base(instances@, base_url@, m),
        decreases instances.len() - k,
    {
        if instances[k].base_url == *base_url {
            return Some(k);
        }
        k += 1;
    }
    None
}

/// The bound on fetches in flight that the configuration gives.
pub fn concurrency_for(configs: &Vec<GitlabInstanceConfig>) -> (n: usize)
    ensures
        n == concurrency_of(configs@),
{
    let mut total: usize = 0;
    let mut i: usize = 0;
    assert(configs@.take(0) == Seq::<GitlabInstanceConfig>::empty());
    while i < configs.len()
        invariant
            i <= configs.len(),
            total == if total_tokens(configs@.take(i as int)) > usize::MAX {
                usize::MAX as nat
            } else {
                total_tokens(configs@.take(i as int))
            },
        decreases configs.len() - i,
    {
        proof {
            assert(configs@.take(i + 1).drop_last() == configs@.take(i as int));
            assert(configs@.take(i + 1).last() == configs@[i as int]);
        }
        total = match total.checked_add(configs[i].tokens.len()) {
            Some(sum) => sum,
            None => usize::MAX,
        };
        i += 1;
    }
    assert(configs@.take(configs.len() as int) == configs@);
    if total == 0 {
        1
    } else {
        total
    }
}

impl Collector {
    /// Starts a run: discovers the repository URLs that have a route, each
    /// once, groups them by instance and matches each instance to its
    /// configuration entry. Without cached data the cache is empty.
    pub fn new(
        repo_urls: &Vec<String>,
        cached: Option<GitData>,
        configs: Vec<GitlabInstanceConfig>,
    ) -> (run: Collector)
        requires
            cached matches Some(data) ==> data.wf(),
        ensures
            run.wf(),
            is_start(
                run,
                match cached {
                    Some(data) => data@,
                    None => Map::empty(),
                },
            ),
            run.configs() == configs@,
            run.cache() == match cached {
                Some(data) => data@,
                None => Map::empty(),
            },
            run.result() == Map::<Seq<char>, RepositoryGitData>::empty(),
            run.in_flight() == 0,
            forall|t: int| 0 <= t < run.tasks().len() ==> (#[trigger] run.tasks()[t]).state is Pending,
            forall|url: Seq<char>| #[trigger]
                discovered(run.tasks(), url) <==> is_listed(repo_urls@, url) && route_of(url) is Some,
            forall|k: int|
                0 <= k < run.instances().len() ==> initial_pool(
                    #[trigger] run.instances()[k],
                    configs@,
                ),
            forall|k: int| 0 <= k < run.instances().len() ==> #[trigger] instance_used(run.tasks(), k),
    {
        let mut instances: Vec<Instance> = Vec::new();
        let mut tasks: Vec<Task> = Vec::new();
        let mut i: usize = 0;
        while i < repo_urls.len()
            invariant
                i <= repo_urls.len(),
                tasks_wf(tasks@, instances@),
                forall|k: int|
                    0 <= k < instances@.len() ==> instance_wf(#[trigger] instances@[k], configs@)
                        && initial_pool(instances@[k], configs@),
                forall|t: int| 0 <= t < tasks@.len() ==> (#[trigger] tasks@[t]).state is Pending,
                forall|k: int| 0 <= k < instances@.len() ==> #[trigger] instance_used(tasks@, k),
                forall|url: Seq<char>| #[trigger]
                    discovered(tasks@, url) <==> is_listed(repo_urls@.take(i as int), url)
                        && route_of(url) is Some,
            decreases repo_urls.len() - i,
        {
            let url = &repo_urls[i];
            let ghost before = tasks@;
            let ghost instances_before = instances@;
            let ghost seen = repo_urls@.take(i as int);
            let ghost upto = repo_urls@.take(i + 1);
            let mut added = false;
            match parse_gitlab_url(url.as_str()) {
                Some((base_url, _)) => {
                    if find_task(&tasks, url).is_none() {
                        let k = match find_instance(&instances, &base_url) {
                            Some(k) => k,
                            None => {
                                let config = find_config_index(
                                    base_url.as_str(),
                                    configs.as_slice(),
                                );
                                let with_tokens = match config {
                                    Some(c) => configs[c].tokens.len() > 0,
                                    None => false,
                                };
                                let pool = if with_tokens {
                                    PoolState::Building { built: 0 }
                                } else {
                                    PoolState::NoCredentials
                                };
                                instances.push(Instance { base_url, config, pool });
                                instances.len() - 1
                            },
                        };
                        tasks.push(Task { url: url.clone(), instance: k, state: TaskState::Pending });
                        added = true;
                        proof {
                            let after = tasks@;
                            let last = after.len() - 1;
                            assert(base_of(url@) == instances@[k as int].base_url@);
                            assert forall|m: int| 0 <= m < instances@.len() implies #[trigger] instance_used(
                                after,
                                m,
                            ) by {
                                if m == k {
                                    assert(task_of_instance(after, m, last));
                                } else {
                                    assert(instance_used(before, m));
                                    let t = choose|t: int| task_of_instance(before, m, t);
                                    assert(task_of_instance(after, m, t));
                                }
                            }
                            assert forall|t: int| 0 <= t < after.len() implies {
                                &&& (#[trigger] after[t]).instance < instances@.len()
                                &&& route_of(after[t].url@) is Some
                                &&& base_of(after[t].url@) == instances@[after[t].instance as int].base_url@
                            } by {
                                if t < last {
                                    assert(after[t] == before[t]);
                                    assert(instances@[before[t].instance as int]
                                        == instances_before[before[t].instance as int]);
                                }
                            }
                            assert forall|t: int, u: int|
                                0 <= t < after.len() && 0 <= u < after.len() && t != u implies (
                            #[trigger] after[t]).url@ != (#[trigger] after[u]).url@ by {
                                if t < last && u < last {
                                    assert(before[t].url@ != before[u].url@);
                                } else if t < last {
                                    assert(task_with_url(before, before[t].url@, t));
                                } else {
                                    assert(task_with_url(before, before[u].url@, u));
                                }
                            }
                            assert forall|a: int, b: int|
                                0 <= a < instances@.len() && 0 <= b < instances@.len() && a
                                    != b implies (#[trigger] instances@[a]).base_url@ != (
                            #[trigger] instances@[b]).base_url@ by {
                                let n = instances_before.len();
                                if a < n && b < n {
                                    assert(instances_before[a].base_url@ != instances_before[b].base_url@);
                                } else if a < n {
                                    assert(instance_with_base(instances_before, instances@[b].base_url@, a)
                                        || instances@[a].base_url@ != instances@[b].base_url@);
                                } else {
                                    assert(instance_with_base(instances_before, instances@[a].base_url@, b)
                                        || instances@[a].base_url@ != instances@[b].base_url@);
                                }
                            }
                        }
                    }
                },
                None => {},
            }
            proof {
                let after = tasks@;
                assert(listed(upto, url@, i as int));
                assert forall|u: Seq<char>| #[trigger]
                    discovered(after, u) <==> is_listed(upto, u) && route_of(u) is Some by {
                    if discovered(after, u) {
                        let t = choose|t: int| task_with_url(after, u, t);
                        if t < before.len() {
                            assert(task_with_url(before, u, t));
                            assert(discovered(before, u));
                            let j = choose|j: int| listed(seen, u, j);
                            assert(listed(upto, u, j));
                        }
                    }
                    if is_listed(upto, u) && route_of(u) is Some {
                        let j = choose|j: int| listed(upto, u, j);
                        if j < i {
                            assert(listed(seen, u, j));
                            assert(discovered(before, u));
                            let t = choose|t: int| task_with_url(before, u, t);
                            assert(task_with_url(after, u, t));
                        } else if added {
                            assert(task_with_url(after, u, after.len() - 1));
                        } else {
                            assert(discovered(before, u));
                            let t = choose|t: int| task_with_url(before, u, t);
                            assert(task_with_url(after, u, t));
                        }
                    }
                }
            }
            i += 1;
        }
        assert(repo_urls@.take(repo_urls.len() as int) == repo_urls@);
        let concurrency = concurrency_for(&configs);
        let cache = match cached {
            Some(data) => data,
            None => GitData::new(),
        };
        proof {
            lemma_none_running(tasks@);
        }
        Collector {
            configs,
            instances,
            tasks,
            cache,
            result: GitData::new(),
            concurrency,
            in_flight: 0,
        }
    }
}

impl Collector {
    /// The configuration entries.
    pub closed spec fn configs(&self) -> Seq<GitlabInstanceConfig> {
        self.configs@
    }

    /// The instances that the repository URLs belong to.
    pub closed spec fn instances(&self) -> Seq<Instance> {
        self.instances@
    }

    /// The repository URLs, each once.
    pub closed spec fn tasks(&self) -> Seq<Task> {
        self.tasks@
    }

    /// The cached snapshots that have not been reused.
    pub closed spec fn cache(&self) -> Map<Seq<char>, RepositoryGitData> {
        self.cache@
    }

    /// The result so far.
    pub closed spec fn result(&self) -> Map<Seq<char>, RepositoryGitData> {
        self.result@
    }

    /// The bound on fetches in flight.
    pub closed spec fn concurrency(&self) -> nat {
        self.concurrency as nat
    }

    /// The number of fetches in flight.
    pub closed spec fn in_flight(&self) -> nat {
        self.in_flight as nat
    }

    /// The two maps hold each URL once.
    pub closed spec fn stores_wf(&self) -> bool {
        self.cache.wf() && self.result.wf()
    }

    /// The invariant of a run.
    pub open spec fn wf(&self) -> bool {
        &&& self.stores_wf()
        &&& tasks_wf(self.tasks(), self.instances())
        &&& forall|k: int|
            0 <= k < self.instances().len() ==> instance_wf(
                #[trigger] self.instances()[k],
                self.configs(),
            )
        &&& clients_wf(self.tasks(), self.instances())
        &&& outcome_wf(self.tasks(), self.result())
        &&& self.in_flight() == running_count(self.tasks())
        &&& self.in_flight() <= self.concurrency()
        &&& self.concurrency() == concurrency_of(self.configs())
    }
}

/// A pool state as plain values.
pub enum PoolView {
    NoCredentials,
    Building { built: usize },
    Ready { available: Seq<usize>, size: nat },
    Failed,
}

/// The plain values of a pool state: of a pool that is ready, the handles of
/// the available clients and the number of clients.
pub open spec fn pool_view(pool: PoolState) -> PoolView {
    match pool {
        PoolState::NoCredentials => PoolView::NoCredentials,
        PoolState::Building { built } => PoolView::Building { built },
        PoolState::Ready(pool) => PoolView::Ready { available: pool.available(), size: pool.size() },
        PoolState::Failed => PoolView::Failed,
    }
}

/// `run` is a run at its start with `loaded` as the cached data: every task
/// is pending, the result is empty and no fetch is in flight.
pub open spec fn is_start(run: Collector, loaded: Map<Seq<char>, RepositoryGitData>) -> bool {
    &&& run.wf()
    &&& run.cache() == loaded
    &&& run.result() == Map::<Seq<char>, RepositoryGitData>::empty()
    &&& run.in_flight() == 0
    &&& forall|t: int| 0 <= t < run.tasks().len() ==> (#[trigger] run.tasks()[t]).state is Pending
}

/// The cache holds a snapshot for `url` that is fresh at `now`.
pub open spec fn cached_fresh(
    cache: Map<Seq<char>, RepositoryGitData>,
    url: Seq<char>,
    now: Timestamp,
) -> bool {
    cache.dom().contains(url) && fresh(cache[url].generated_at, now)
}

/// Between `pre` and `post` nothing has changed but, at most, task `t`, the
/// pool of its instance, the two maps and the number of fetches in flight.
pub open spec fn same_but_task(pre: Collector, post: Collector, t: int) -> bool {
    &&& post.configs() == pre.configs()
    &&& post.concurrency() == pre.concurrency()
    &&& post.tasks().len() == pre.tasks().len()
    &&& post.instances().len() == pre.instances().len()
    &&& forall|u: int|
        0 <= u < pre.tasks().len() && u != t ==> #[trigger] post.tasks()[u] == pre.tasks()[u]
    &&& 0 <= t < pre.tasks().len() ==> post.tasks()[t].url == pre.tasks()[t].url
        && post.tasks()[t].instance == pre.tasks()[t].instance
    &&& forall|k: int|
        0 <= k < pre.instances().len() ==> (#[trigger] post.instances()[k]).base_url
            == pre.instances()[k].base_url && post.instances()[k].config == pre.instances()[k].config
    &&& forall|k: int|
        0 <= k < pre.instances().len() && 0 <= t < pre.tasks().len() && k
            != pre.tasks()[t].instance ==> #[trigger] post.instances()[k] == pre.instances()[k]
}

/// `post` is `pre` after the decision on the pending task `t` at time `now`.
///
/// A fresh cached snapshot is reused: it moves from the cache to the result.
/// Otherwise, if the instance has a pool, a fetch is started with the client
/// that came back last, provided that a client is available and the bound on
/// fetches in flight is not reached; if not, the task stays pending, and then
/// a fetch is in flight. While the pool is being built the task stays
/// pending too. Without a pool the URL is skipped.
pub open spec fn decided(
    pre: Collector,
    post: Collector,
    t: int,
    now: Timestamp,
    started: Option<usize>,
) -> bool {
    let url = pre.tasks()[t].url@;
    let k = pre.tasks()[t].instance as int;
    &&& same_but_task(pre, post, t)
    &&& if cached_fresh(pre.cache(), url, now) {
        &&& post.tasks()[t].state is Reused
        &&& post.result() == pre.result().insert(url, pre.cache()[url])
        &&& post.cache() == pre.cache().remove(url)
        &&& post.in_flight() == pre.in_flight()
        &&& pool_view(post.instances()[k].pool) == pool_view(pre.instances()[k].pool)
        &&& started is None
    } else {
        &&& post.result() == pre.result()
        &&& post.cache() == pre.cache()
        &&& match pre.instances()[k].pool {
            PoolState::Ready(pool) => if pool.available().len() > 0 && pre.in_flight()
                < pre.concurrency() {
                &&& started == Some(pool.available().last())
                &&& post.tasks()[t].state == (TaskState::Running { client: pool.available().last() })
                &&& post.in_flight() == pre.in_flight() + 1
                &&& pool_view(post.instances()[k].pool) == (PoolView::Ready {
                    available: pool.available().drop_last(),
                    size: pool.size(),
                })
            } else {
                &&& started is None
                &&& post.tasks()[t].state is Pending
                &&& post.in_flight() == pre.in_flight()
                &&& pool_view(post.instances()[k].pool) == pool_view(pre.instances()[k].pool)
                &&& pre.in_flight() > 0
            },
            PoolState::Building { built } => {
                &&& started is None
                &&& post.tasks()[t].state is Pending
                &&& post.in_flight() == pre.in_flight()
                &&& pool_view(post.instances()[k].pool) == pool_view(pre.instances()[k].pool)
            },
            _ => {
                &&& started is None
                &&& post.tasks()[t].state is Skipped
                &&& post.in_flight() == pre.in_flight()
                &&& pool_view(post.instances()[k].pool) == pool_view(pre.instances()[k].pool)
            },
        }
    }
}

impl Collector {
    /// Decides on the pending task `t`.
    fn decide(&mut self, t: usize, now: Timestamp) -> (started: Option<usize>)
        requires
            old(self).wf(),
            t < old(self).tasks().len(),
            old(self).tasks()[t as int].state is Pending,
        ensures
            final(self).wf(),
            decided(*old(self), *final(self), t as int, now, started),
    {
        let url = self.tasks[t].url.clone();
        let k = self.tasks[t].instance;
        let ghost pre = *self;
        let reuse = match self.cache.get(&url) {
            Some(snapshot) => is_fresh(snapshot.generated_at, now),
            None => false,
        };
        if reuse {
            let snapshot = self.cache.remove(&url).unwrap();
            self.result.insert(url, snapshot);
            self.tasks[t].state = TaskState::Reused;
            proof {
                lemma_running_count_update(pre.tasks(), t as int, self.tasks()[t as int]);
                assert(self.tasks() == pre.tasks().update(t as int, self.tasks()[t as int]));
                lemma_step_keeps_clients(pre.tasks(), self.tasks(), pre.instances(), t as int);
                lemma_outcome_after_insert(pre.tasks(), self.tasks(), pre.result(), self.result(), t as int);
            }
            return None;
        }
        let may_start = self.in_flight < self.concurrency;
        let mut started: Option<usize> = None;
        let mut skipped = false;
        match &mut self.instances[k].pool {
            PoolState::Ready(pool) => {
                if may_start {
                    started = pool.checkout();
                }
            },
            PoolState::Building { built } => {},
            _ => {
                skipped = true;
            },
        }
        match started {
            Some(client) => {
                self.tasks[t].state = TaskState::Running { client };
                self.in_flight = self.in_flight + 1;
                proof {
                    pre.instances()[k as int].pool->Ready_0.lemma_available();
                    lemma_running_count_update(pre.tasks(), t as int, self.tasks()[t as int]);
                    assert(self.tasks() == pre.tasks().update(t as int, self.tasks()[t as int]));
                    lemma_start_keeps_clients(
                        pre.tasks(),
                        self.tasks(),
                        pre.instances(),
                        self.instances(),
                        t as int,
                        client,
                    );
                    lemma_outcome_same_result(pre.tasks(), self.tasks(), pre.result(), t as int);
                }
            },
            None => {
                if skipped {
                    self.tasks[t].state = TaskState::Skipped;
                    proof {
                        lemma_running_count_update(pre.tasks(), t as int, self.tasks()[t as int]);
                        assert(self.tasks() == pre.tasks().update(t as int, self.tasks()[t as int]));
                        lemma_step_keeps_clients(pre.tasks(), self.tasks(), pre.instances(), t as int);
                        lemma_outcome_same_result(pre.tasks(), self.tasks(), pre.result(), t as int);
                    }
                } else {
                    proof {
                        assert(self.tasks() == pre.tasks());
                        if pre.instances()[k as int].pool is Ready && pre.in_flight() == 0 {
                            lemma_exhausted_pool_is_busy(pre.tasks(), pre.instances(), k as int);
                        }
                        lemma_same_pools_keep_clients(pre.tasks(), pre.instances(), self.instances());
                    }
                }
            },
        }
        started
    }
}

/// A task that was not running and is not running afterwards leaves the
/// checkout discipline as it was.
pub proof fn lemma_step_keeps_clients(
    before: Seq<Task>,
    after: Seq<Task>,
    instances: Seq<Instance>,
    t: int,
)
    requires
        clients_wf(before, instances),
        0 <= t < before.len(),
        after.len() == before.len(),
        forall|u: int| 0 <= u < before.len() && u != t ==> after[u] == before[u],
        !(before[t].state is Running),
        !(after[t].state is Running),
    ensures
        clients_wf(after, instances),
{
    assert forall|k: int, client: usize|
        0 <= k < instances.len() && (#[trigger] instances[k]).pool is Ready && client
            < instances[k].pool->Ready_0.size() implies #[trigger] instances[k].pool->Ready_0.available().contains(
        client,
    ) || exists|u: int| holds_client(after, u, k, client) by {
        if !instances[k].pool->Ready_0.available().contains(client) {
            let u = choose|u: int| holds_client(before, u, k, client);
            assert(holds_client(after, u, k, client));
        }
    }
}

/// Starting a fetch for a task with the client that its instance's pool
/// handed out keeps the checkout discipline.
pub proof fn lemma_start_keeps_clients(
    before: Seq<Task>,
    after: Seq<Task>,
    instances_before: Seq<Instance>,
    instances_after: Seq<Instance>,
    t: int,
    client: usize,
)
    requires
        clients_wf(before, instances_before),
        0 <= t < before.len(),
        after.len() == before.len(),
        forall|u: int| 0 <= u < before.len() && u != t ==> after[u] == before[u],
        !(before[t].state is Running),
        after[t].state == (TaskState::Running { client }),
        after[t].instance == before[t].instance,
        before[t].instance < instances_before.len(),
        instances_after.len() == instances_before.len(),
        forall|k: int|
            0 <= k < instances_before.len() && k != before[t].instance ==> instances_after[k]
                == instances_before[k],
        instances_before[before[t].instance as int].pool is Ready,
        instances_after[before[t].instance as int].pool is Ready,
        instances_before[before[t].instance as int].pool->Ready_0.available().len() > 0,
        instances_before[before[t].instance as int].pool->Ready_0.available().no_duplicates(),
        client == instances_before[before[t].instance as int].pool->Ready_0.available().last(),
        client < instances_before[before[t].instance as int].pool->Ready_0.size(),
        instances_after[before[t].instance as int].pool->Ready_0.size()
            == instances_before[before[t].instance as int].pool->Ready_0.size(),
        instances_after[before[t].instance as int].pool->Ready_0.available()
            == instances_before[before[t].instance as int].pool->Ready_0.available().drop_last(),
    ensures
        clients_wf(after, instances_after),
{
    let k0 = before[t].instance as int;
    let avail = instances_before[k0].pool->Ready_0.available();
    let rest = instances_after[k0].pool->Ready_0.available();
    assert(!rest.contains(client)) by {
        if rest.contains(client) {
            let i = choose|i: int| 0 <= i < rest.len() && rest[i] == client;
            assert(avail[i] == avail[avail.len() - 1]);
        }
    }
    assert forall|u: int| 0 <= u < after.len() && (#[trigger] after[u]).state is Running implies {
        &&& after[u].instance < instances_after.len()
        &&& instances_after[after[u].instance as int].pool is Ready
        &&& after[u].state->client < instances_after[after[u].instance as int].pool->Ready_0.size()
        &&& !instances_after[after[u].instance as int].pool->Ready_0.available().contains(
            after[u].state->client,
        )
    } by {
        if u != t {
            assert(after[u] == before[u]);
            let c = before[u].state->client;
            if before[u].instance == k0 {
                if rest.contains(c) {
                    let i = choose|i: int| 0 <= i < rest.len() && rest[i] == c;
                    assert(avail[i] == c);
                }
            }
        }
    }
    assert forall|u: int, v: int|
        0 <= u < after.len() && 0 <= v < after.len() && u != v && (#[trigger] after[u]).state is Running
            && (#[trigger] after[v]).state is Running && after[u].instance
            == after[v].instance implies after[u].state->client != after[v].state->client by {
        if u == t {
            assert(after[v] == before[v]);
            assert(!avail.contains(before[v].state->client));
            assert(avail[avail.len() - 1] == client);
        } else if v == t {
            assert(after[u] == before[u]);
            assert(!avail.contains(before[u].state->client));
            assert(avail[avail.len() - 1] == client);
        } else {
            assert(after[u] == before[u] && after[v] == before[v]);
        }
    }
    assert forall|k: int, c: usize|
        0 <= k < instances_after.len() && (#[trigger] instances_after[k]).pool is Ready && c
            < instances_after[k].pool->Ready_0.size() implies #[trigger] instances_after[k].pool->Ready_0.available().contains(
        c,
    ) || exists|u: int| holds_client(after, u, k, c) by {
        if k == k0 {
            if c == client {
                assert(holds_client(after, t, k, c));
            } else if avail.contains(c) {
                let i = choose|i: int| 0 <= i < avail.len() && avail[i] == c;
                assert(rest[i] == c);
            } else {
                let u = choose|u: int| holds_client(before, u, k, c);
                assert(holds_client(after, u, k, c));
            }
        } else {
            assert(instances_after[k] == instances_before[k]);
            if !instances_before[k].pool->Ready_0.available().contains(c) {
                let u = choose|u: int| holds_client(before, u, k, c);
                assert(holds_client(after, u, k, c));
            }
        }
    }
}

/// Pools with the same plain values keep the checkout discipline.
pub proof fn lemma_same_pools_keep_clients(
    tasks: Seq<Task>,
    instances_before: Seq<Instance>,
    instances_after: Seq<Instance>,
)
    requires
        clients_wf(tasks, instances_before),
        instances_after.len() == instances_before.len(),
        forall|k: int|
            0 <= k < instances_before.len() ==> pool_view((#[trigger] instances_after[k]).pool)
                == pool_view(instances_before[k].pool),
    ensures
        clients_wf(tasks, instances_after),
{
    assert forall|u: int| 0 <= u < tasks.len() && (#[trigger] tasks[u]).state is Running implies {
        &&& tasks[u].instance < instances_after.len()
        &&& instances_after[tasks[u].instance as int].pool is Ready
        &&& tasks[u].state->client < instances_after[tasks[u].instance as int].pool->Ready_0.size()
        &&& !instances_after[tasks[u].instance as int].pool->Ready_0.available().contains(
            tasks[u].state->client,
        )
    } by {
        let k = tasks[u].instance as int;
        assert(pool_view(instances_after[k].pool) == pool_view(instances_before[k].pool));
    }
    assert forall|k: int, c: usize|
        0 <= k < instances_after.len() && (#[trigger] instances_after[k]).pool is Ready && c
            < instances_after[k].pool->Ready_0.size() implies #[trigger] instances_after[k].pool->Ready_0.available().contains(
        c,
    ) || exists|u: int| holds_client(tasks, u, k, c) by {
        assert(pool_view(instances_after[k].pool) == pool_view(instances_before[k].pool));
        assert(instances_before[k].pool is Ready);
        if !instances_before[k].pool->Ready_0.available().contains(c) {
            let u = choose|u: int| holds_client(tasks, u, k, c);
        }
    }
}

/// A pool of which no client is available has a fetch in flight.
pub proof fn lemma_exhausted_pool_is_busy(tasks: Seq<Task>, instances: Seq<Instance>, k: int)
    requires
        clients_wf(tasks, instances),
        0 <= k < instances.len(),
        instances[k].pool is Ready,
        instances[k].pool->Ready_0.size() > 0,
        instances[k].pool->Ready_0.available().len() == 0,
    ensures
        running_count(tasks) > 0,
{
    let pool = instances[k].pool->Ready_0;
    assert(!pool.available().contains(0usize));
    let u = choose|u: int| holds_client(tasks, u, k, 0usize);
    lemma_running_counted(tasks, u);
}

/// A snapshot stored for the URL of a task that thereby counts as resolved
/// keeps the result in step with the tasks.
pub proof fn lemma_outcome_after_insert(
    before: Seq<Task>,
    after: Seq<Task>,
    result_before: Map<Seq<char>, RepositoryGitData>,
    result_after: Map<Seq<char>, RepositoryGitData>,
    t: int,
)
    requires
        outcome_wf(before, result_before),
        0 <= t < before.len(),
        after.len() == before.len(),
        forall|u: int| 0 <= u < before.len() && u != t ==> after[u] == before[u],
        after[t].url == before[t].url,
        after[t].state is Reused || after[t].state is Fetched,
        forall|u: int, v: int|
            0 <= u < before.len() && 0 <= v < before.len() && u != v ==> (#[trigger] before[u]).url@
                != (#[trigger] before[v]).url@,
        result_after.dom() == result_before.dom().insert(before[t].url@),
    ensures
        outcome_wf(after, result_after),
{
    assert forall|u: int| 0 <= u < after.len() implies (result_after.dom().contains(
        (#[trigger] after[u]).url@,
    ) <==> (after[u].state is Reused || after[u].state is Fetched)) by {
        if u != t {
            assert(after[u] == before[u]);
            assert(before[u].url@ != before[t].url@);
        }
    }
    assert forall|url: Seq<char>| #[trigger] result_after.dom().contains(url) implies exists|u: int|
        task_with_url(after, url, u) by {
        if url == before[t].url@ {
            assert(task_with_url(after, url, t));
        } else {
            let u = choose|u: int| task_with_url(before, url, u);
            assert(task_with_url(after, url, u));
        }
    }
}

/// A task that changes to a state without snapshot, from one without, keeps
/// the result in step with the tasks.
pub proof fn lemma_outcome_same_result(
    before: Seq<Task>,
    after: Seq<Task>,
    result: Map<Seq<char>, RepositoryGitData>,
    t: int,
)
    requires
        outcome_wf(before, result),
        0 <= t < before.len(),
        after.len() == before.len(),
        forall|u: int| 0 <= u < before.len() && u != t ==> after[u] == before[u],
        after[t].url == before[t].url,
        !(before[t].state is Reused || before[t].state is Fetched),
        !(after[t].state is Reused || after[t].state is Fetched),
    ensures
        outcome_wf(after, result),
{
    assert forall|url: Seq<char>| #[trigger] result.dom().contains(url) implies exists|u: int|
        task_with_url(after, url, u) by {
        let u = choose|u: int| task_with_url(before, url, u);
        assert(task_with_url(after, url, u));
    }
}

/// Between `pre` and `post` nothing has changed but, at most, the pool of
/// instance `k`.
pub open spec fn same_but_pool(pre: Collector, post: Collector, k: int) -> bool {
    &&& post.configs() == pre.configs()
    &&& post.concurrency() == pre.concurrency()
    &&& post.in_flight() == pre.in_flight()
    &&& post.tasks() == pre.tasks()
    &&& post.cache() == pre.cache()
    &&& post.result() == pre.result()
    &&& post.instances().len() == pre.instances().len()
    &&& forall|m: int|
        0 <= m < pre.instances().len() && m != k ==> #[trigger] post.instances()[m]
            == pre.instances()[m]
    &&& 0 <= k < pre.instances().len() ==> post.instances()[k].base_url
        == pre.instances()[k].base_url && post.instances()[k].config == pre.instances()[k].config
}

/// `post` is `pre` after the report on the client that was being built for
/// instance `k`.
///
/// A client that is ready counts; with the last one the pool is ready, with
/// every client available. A client that failed ends the building: the
/// instance gets no pool. Nothing else changes, and a report for an instance
/// whose pool is not being built changes nothing at all.
pub open spec fn client_reported(
    pre: Collector,
    post: Collector,
    k: int,
    ready: bool,
    accepted: bool,
) -> bool {
    if 0 <= k < pre.instances().len() && pre.instances()[k].pool is Building {
        let built = pre.instances()[k].pool->built;
        let tokens = token_count(pre.configs(), pre.instances()[k].config);
        &&& accepted
        &&& same_but_pool(pre, post, k)
        &&& pool_view(post.instances()[k].pool) == if !ready {
            PoolView::Failed
        } else if built + 1 == tokens {
            PoolView::Ready { available: Seq::new(tokens, |i: int| i as usize), size: tokens }
        } else {
            PoolView::Building { built: (built + 1) as usize }
        }
    } else {
        !accepted && post == pre
    }
}

/// `post` is `pre` after the report that the fetch of task `t` is over.
///
/// The client goes back to the pool of the task's instance. A snapshot is
/// stored in the result under the task's URL; without one the URL stays out
/// of the result. Nothing else changes, and a report for a task whose fetch
/// is not in flight changes nothing at all.
pub open spec fn fetch_reported(
    pre: Collector,
    post: Collector,
    t: int,
    outcome: Option<RepositoryGitData>,
    accepted: bool,
) -> bool {
    if 0 <= t < pre.tasks().len() && pre.tasks()[t].state is Running {
        let url = pre.tasks()[t].url@;
        let k = pre.tasks()[t].instance as int;
        let client = pre.tasks()[t].state->client;
        &&& accepted
        &&& same_but_task(pre, post, t)
        &&& post.cache() == pre.cache()
        &&& post.in_flight() + 1 == pre.in_flight()
        &&& pool_view(post.instances()[k].pool) == (PoolView::Ready {
            available: pre.instances()[k].pool->Ready_0.available().push(client),
            size: pre.instances()[k].pool->Ready_0.size(),
        })
        &&& match outcome {
            Some(snapshot) => post.tasks()[t].state is Fetched && post.result()
                == pre.result().insert(url, snapshot),
            None => post.tasks()[t].state is Failed && post.result() == pre.result(),
        }
    } else {
        !accepted && post == pre
    }
}

/// Taking back the client of a task whose fetch is over keeps the checkout
/// discipline.
pub proof fn lemma_finish_keeps_clients(
    before: Seq<Task>,
    after: Seq<Task>,
    instances_before: Seq<Instance>,
    instances_after: Seq<Instance>,
    t: int,
)
    requires
        clients_wf(before, instances_before),
        0 <= t < before.len(),
        after.len() == before.len(),
        forall|u: int| 0 <= u < before.len() && u != t ==> after[u] == before[u],
        before[t].state is Running,
        !(after[t].state is Running),
        after[t].instance == before[t].instance,
        instances_after.len() == instances_before.len(),
        forall|k: int|
            0 <= k < instances_before.len() && k != before[t].instance ==> instances_after[k]
                == instances_before[k],
        instances_after[before[t].instance as int].pool is Ready,
        instances_after[before[t].instance as int].pool->Ready_0.size()
            == instances_before[before[t].instance as int].pool->Ready_0.size(),
        instances_after[before[t].instance as int].pool->Ready_0.available()
            == instances_before[before[t].instance as int].pool->Ready_0.available().push(
            before[t].state->client,
        ),
    ensures
        clients_wf(after, instances_after),
{
    let k0 = before[t].instance as int;
    let client = before[t].state->client;
    let avail = instances_before[k0].pool->Ready_0.available();
    let more = instances_after[k0].pool->Ready_0.available();
    assert forall|u: int| 0 <= u < after.len() && (#[trigger] after[u]).state is Running implies {
        &&& after[u].instance < instances_after.len()
        &&& instances_after[after[u].instance as int].pool is Ready
        &&& after[u].state->client < instances_after[after[u].instance as int].pool->Ready_0.size()
        &&& !instances_after[after[u].instance as int].pool->Ready_0.available().contains(
            after[u].state->client,
        )
    } by {
        assert(after[u] == before[u]);
        let c = before[u].state->client;
        if before[u].instance == k0 {
            assert(c != client);
            if more.contains(c) {
                let i = choose|i: int| 0 <= i < more.len() && more[i] == c;
                if i < avail.len() {
                    assert(avail[i] == c);
                }
            }
        }
    }
    assert forall|u: int, v: int|
        0 <= u < after.len() && 0 <= v < after.len() && u != v && (#[trigger] after[u]).state is Running
            && (#[trigger] after[v]).state is Running && after[u].instance
            == after[v].instance implies after[u].state->client != after[v].state->client by {
        assert(after[u] == before[u] && after[v] == before[v]);
    }
    assert forall|k: int, c: usize|
        0 <= k < instances_after.len() && (#[trigger] instances_after[k]).pool is Ready && c
            < instances_after[k].pool->Ready_0.size() implies #[trigger] instances_after[k].pool->Ready_0.available().contains(
        c,
    ) || exists|u: int| holds_client(after, u, k, c) by {
        if k == k0 {
            if c == client {
                assert(more[more.len() - 1] == c);
            } else if avail.contains(c) {
                let i = choose|i: int| 0 <= i < avail.len() && avail[i] == c;
                assert(more[i] == c);
            } else {
                let u = choose|u: int| holds_client(before, u, k, c);
                assert(holds_client(after, u, k, c));
            }
        } else {
            assert(instances_after[k] == instances_before[k]);
            if !instances_before[k].pool->Ready_0.available().contains(c) {
                let u = choose|u: int| holds_client(before, u, k, c);
                assert(holds_client(after, u, k, c));
            }
        }
    }
}

/// A pool that becomes ready, or is given up, for an instance without a
/// fetch in flight keeps the checkout discipline.
pub proof fn lemma_new_pool_keeps_clients(
    tasks: Seq<Task>,
    instances_before: Seq<Instance>,
    instances_after: Seq<Instance>,
    k0: int,
)
    requires
        clients_wf(tasks, instances_before),
        0 <= k0 < instances_before.len(),
        !(instances_before[k0].pool is Ready),
        instances_after.len() == instances_before.len(),
        forall|k: int|
            0 <= k < instances_before.len() && k != k0 ==> instances_after[k] == instances_before[k],
        instances_after[k0].pool is Ready ==> forall|c: usize|
            c < instances_after[k0].pool->Ready_0.size()
                ==> #[trigger] instances_after[k0].pool->Ready_0.available().contains(c),
    ensures
        clients_wf(tasks, instances_after),
{
    assert forall|k: int, c: usize|
        0 <= k < instances_after.len() && (#[trigger] instances_after[k]).pool is Ready && c
            < instances_after[k].pool->Ready_0.size() implies #[trigger] instances_after[k].pool->Ready_0.available().contains(
        c,
    ) || exists|u: int| holds_client(tasks, u, k, c) by {
        if k != k0 {
            assert(instances_after[k] == instances_before[k]);
            if !instances_before[k].pool->Ready_0.available().contains(c) {
                let u = choose|u: int| holds_client(tasks, u, k, c);
            }
        }
    }
}

impl Collector {
    /// Takes the report on the client that was being built for `instance`:
    /// `ready` says whether it could be built. Returns whether a client was
    /// being built for that instance.
    fn client_report(&mut self, instance: usize, ready: bool) -> (accepted: bool)
        requires
            old(self).wf(),
        ensures
            final(self).wf(),
            client_reported(*old(self), *final(self), instance as int, ready, accepted),
    {
        if instance >= self.instances.len() {
            return false;
        }
        let built = match &self.instances[instance].pool {
            PoolState::Building { built } => *built,
            _ => {
                return false;
            },
        };
        let ghost pre = *self;
        let tokens = match self.instances[instance].config {
            Some(c) => self.configs[c].tokens.len(),
            None => 0,
        };
        assert(tokens == token_count(pre.configs(), pre.instances()[instance as int].config));
        if !ready {
            self.instances[instance].pool = PoolState::Failed;
        } else if built + 1 == tokens {
            let pool = ClientPool::new(tokens);
            proof {
                assert forall|c: usize| c < pool.size() implies #[trigger] pool.available().contains(
                    c,
                ) by {
                    assert(pool.available()[c as int] == c);
                }
            }
            self.instances[instance].pool = PoolState::Ready(pool);
        } else {
            self.instances[instance].pool = PoolState::Building { built: built + 1 };
        }
        proof {
            lemma_new_pool_keeps_clients(
                pre.tasks(),
                pre.instances(),
                self.instances(),
                instance as int,
            );
            assert forall|k: int| 0 <= k < self.instances().len() implies instance_wf(
                #[trigger] self.instances()[k],
                self.configs(),
            ) by {
                if k != instance {
                    assert(self.instances()[k] == pre.instances()[k]);
                }
            }
            assert(tasks_wf(self.tasks(), self.instances())) by {
                assert forall|t: int| 0 <= t < self.tasks().len() implies base_of(
                    (#[trigger] self.tasks()[t]).url@,
                ) == self.instances()[self.tasks()[t].instance as int].base_url@ by {
                    let k = self.tasks()[t].instance as int;
                    assert(self.instances()[k].base_url == pre.instances()[k].base_url);
                }
                assert forall|k: int, m: int|
                    0 <= k < self.instances().len() && 0 <= m < self.instances().len() && k
                        != m implies (#[trigger] self.instances()[k]).base_url@ != (
                #[trigger] self.instances()[m]).base_url@ by {
                    assert(self.instances()[k].base_url == pre.instances()[k].base_url);
                    assert(self.instances()[m].base_url == pre.instances()[m].base_url);
                }
            }
        }
        true
    }

    /// Reports that the client that was asked for is ready. Returns whether
    /// a client was being built for that instance.
    pub fn client_built(&mut self, instance: usize) -> (accepted: bool)
        requires
            old(self).wf(),
        ensures
            final(self).wf(),
            client_reported(*old(self), *final(self), instance as int, true, accepted),
    {
        self.client_report(instance, true)
    }

    /// Reports that the client that was asked for could not be built: the
    /// instance gets no pool. Returns whether a client was being built for
    /// that instance.
    pub fn client_failed(&mut self, instance: usize) -> (accepted: bool)
        requires
            old(self).wf(),
        ensures
            final(self).wf(),
            client_reported(*old(self), *final(self), instance as int, false, accepted),
    {
        self.client_report(instance, false)
    }

    /// Reports that the fetch of `task` is over, with the snapshot it gave
    /// or with `None` if it failed. Returns whether that fetch was in
    /// flight.
    pub fn fetch_finished(&mut self, task: usize, outcome: Option<RepositoryGitData>) -> (accepted:
        bool)
        requires
            old(self).wf(),
        ensures
            final(self).wf(),
            fetch_reported(*old(self), *final(self), task as int, outcome, accepted),
    {
        if task >= self.tasks.len() {
            return false;
        }
        let client = match self.tasks[task].state {
            TaskState::Running { client } => client,
            _ => {
                return false;
            },
        };
        let ghost pre = *self;
        let k = self.tasks[task].instance;
        proof {
            lemma_running_counted(pre.tasks(), task as int);
        }
        match &mut self.instances[k].pool {
            PoolState::Ready(pool) => {
                pool.checkin(client);
            },
            _ => {},
        }
        self.in_flight = self.in_flight - 1;
        match outcome {
            Some(snapshot) => {
                let url = self.tasks[task].url.clone();
                self.result.insert(url, snapshot);
                self.tasks[task].state = TaskState::Fetched;
                proof {
                    lemma_outcome_after_insert(
                        pre.tasks(),
                        self.tasks(),
                        pre.result(),
                        self.result(),
                        task as int,
                    );
                }
            },
            None => {
                self.tasks[task].state = TaskState::Failed;
                proof {
                    lemma_outcome_same_result(pre.tasks(), self.tasks(), pre.result(), task as int);
                }
            },
        }
        proof {
            lemma_running_count_update(pre.tasks(), task as int, self.tasks()[task as int]);
            assert(self.tasks() == pre.tasks().update(task as int, self.tasks()[task as int]));
            lemma_finish_keeps_clients(
                pre.tasks(),
                self.tasks(),
                pre.instances(),
                self.instances(),
                task as int,
            );
            assert forall|m: int| 0 <= m < self.instances().len() implies instance_wf(
                #[trigger] self.instances()[m],
                self.configs(),
            ) by {
                if m != k {
                    assert(self.instances()[m] == pre.instances()[m]);
                }
            }
            assert(tasks_wf(self.tasks(), self.instances())) by {
                assert forall|t: int| 0 <= t < self.tasks().len() implies base_of(
                    (#[trigger] self.tasks()[t]).url@,
                ) == self.instances()[self.tasks()[t].instance as int].base_url@ by {
                    let m = self.tasks()[t].instance as int;
                    assert(self.instances()[m].base_url == pre.instances()[m].base_url);
                    assert(self.tasks()[t].url == pre.tasks()[t].url);
                }
                assert forall|t: int, u: int|
                    0 <= t < self.tasks().len() && 0 <= u < self.tasks().len() && t != u implies (
                #[trigger] self.tasks()[t]).url@ != (#[trigger] self.tasks()[u]).url@ by {
                    assert(self.tasks()[t].url == pre.tasks()[t].url);
                    assert(self.tasks()[u].url == pre.tasks()[u].url);
                }
                assert forall|a: int, b: int|
                    0 <= a < self.instances().len() && 0 <= b < self.instances().len() && a
                        != b implies (#[trigger] self.instances()[a]).base_url@ != (
                #[trigger] self.instances()[b]).base_url@ by {
                    assert(self.instances()[a].base_url == pre.instances()[a].base_url);
                    assert(self.instances()[b].base_url == pre.instances()[b].base_url);
                }
            }
        }
        true
    }

    /// Ends the run: the result.
    pub fn finish(self) -> (result: GitData)
        requires
            self.wf(),
        ensures
            result.wf(),
            result@ == self.result(),
    {
        self.result
    }
}

/// No pool is being built.
pub open spec fn no_building(run: Collector) -> bool {
    forall|k: int|
        0 <= k < run.instances().len() ==> !((#[trigger] run.instances()[k]).pool is Building)
}

/// Every pool holds in `post` what it holds in `pre`.
pub open spec fn same_pools(pre: Collector, post: Collector) -> bool {
    forall|k: int|
        0 <= k < pre.instances().len() ==> pool_view((#[trigger] post.instances()[k]).pool)
            == pool_view(pre.instances()[k].pool)
}

/// What the decision at time `now`, without the start of a fetch, has made
/// of task `u`.
///
/// A task that was not pending is as it was. A pending task with a fresh
/// cached snapshot is reused, and the result holds that snapshot. Any other
/// pending task is skipped if its instance has no pool. If its pool is ready
/// it is still pending, and then no fetch could be started for it: the pool
/// had no client available or the bound on fetches in flight was reached, so
/// that a fetch was in flight. While its pool is being built it is pending
/// too.
pub open spec fn settled(pre: Collector, post: Collector, u: int, now: Timestamp) -> bool {
    let url = pre.tasks()[u].url@;
    let k = pre.tasks()[u].instance as int;
    if !(pre.tasks()[u].state is Pending) {
        post.tasks()[u] == pre.tasks()[u]
    } else if cached_fresh(pre.cache(), url, now) {
        &&& post.tasks()[u].state is Reused
        &&& post.result().dom().contains(url)
        &&& post.result()[url] == pre.cache()[url]
    } else {
        match pre.instances()[k].pool {
            PoolState::Ready(pool) => {
                &&& post.tasks()[u].state is Pending
                &&& pool.available().len() == 0 || pre.in_flight() >= pre.concurrency()
                &&& pre.in_flight() > 0
            },
            PoolState::Building { built } => post.tasks()[u].state is Pending,
            _ => post.tasks()[u].state is Skipped,
        }
    }
}

/// Task `u` stands before `upto`, was pending and had in `url` a URL with a
/// fresh cached snapshot: its decision takes that snapshot out of the cache.
pub open spec fn reuses(pre: Collector, now: Timestamp, upto: int, url: Seq<char>, u: int) -> bool {
    &&& 0 <= u < upto
    &&& u < pre.tasks().len()
    &&& pre.tasks()[u].state is Pending
    &&& pre.tasks()[u].url@ == url
    &&& cached_fresh(pre.cache(), url, now)
}

/// The decision on the tasks before `upto` takes the snapshot for `url` out
/// of the cache.
pub open spec fn reused_before(pre: Collector, now: Timestamp, upto: int, url: Seq<char>) -> bool {
    exists|u: int| reuses(pre, now, upto, url, u)
}

/// The cache of `post` is the cache of `pre` without the snapshots that the
/// decision on the tasks before `upto` has reused.
pub open spec fn cache_after(pre: Collector, post: Collector, now: Timestamp, upto: int) -> bool {
    forall|url: Seq<char>|
        (#[trigger] post.cache().dom().contains(url) <==> pre.cache().dom().contains(url)
            && !reused_before(pre, now, upto, url)) && (post.cache().dom().contains(url)
            ==> post.cache()[url] == pre.cache()[url])
}

/// `post` is `pre` after the decision on the tasks before `upto`, none of
/// which started a fetch; the tasks from `from` on are as they were, and so
/// is what the result held. The cache has lost the snapshots that were
/// reused, and nothing else.
pub open spec fn scanned(pre: Collector, post: Collector, now: Timestamp, upto: int, from: int) -> bool {
    &&& post.configs() == pre.configs()
    &&& post.concurrency() == pre.concurrency()
    &&& post.tasks().len() == pre.tasks().len()
    &&& post.instances().len() == pre.instances().len()
    &&& forall|u: int|
        0 <= u < pre.tasks().len() ==> (#[trigger] post.tasks()[u]).url == pre.tasks()[u].url
            && post.tasks()[u].instance == pre.tasks()[u].instance
    &&& forall|k: int|
        0 <= k < pre.instances().len() ==> (#[trigger] post.instances()[k]).base_url
            == pre.instances()[k].base_url && post.instances()[k].config == pre.instances()[k].config
    &&& forall|u: int| 0 <= u < upto && u < pre.tasks().len() ==> #[trigger] settled(pre, post, u, now)
    &&& forall|u: int| from <= u < pre.tasks().len() ==> #[trigger] post.tasks()[u] == pre.tasks()[u]
    &&& forall|url: Seq<char>| #[trigger]
        pre.result().dom().contains(url) ==> post.result().dom().contains(url) && post.result()[url]
            == pre.result()[url]
    &&& cache_after(pre, post, now, upto)
}

/// The cache holds in `post`, for the URL of every task from `from` on, what
/// it holds in `pre`.
pub open spec fn cache_kept(pre: Collector, post: Collector, from: int) -> bool {
    forall|u: int|
        from <= u < pre.tasks().len() ==> (post.cache().dom().contains(
            (#[trigger] pre.tasks()[u]).url@,
        ) <==> pre.cache().dom().contains(pre.tasks()[u].url@)) && (pre.cache().dom().contains(
            pre.tasks()[u].url@,
        ) ==> post.cache()[pre.tasks()[u].url@] == pre.cache()[pre.tasks()[u].url@])
}

/// `post` is `pre` after `action` was chosen at time `now`.
///
/// While a pool is being built, the next client is asked for and nothing
/// changes. Otherwise the pending tasks are decided in their order, as
/// `settled` says, until one starts a fetch: that task has no fresh cached
/// snapshot, and it takes the client that came back last to the pool of its
/// instance. If none starts a fetch, the answer is `Wait` while a fetch is in
/// flight and `Finish` when none is; then no task is pending or running.
pub open spec fn acted(pre: Collector, post: Collector, now: Timestamp, action: Action) -> bool {
    match action {
        Action::BuildClient { instance, token } => {
            &&& post == pre
            &&& instance < pre.instances().len()
            &&& pre.instances()[instance as int].pool == (PoolState::Building { built: token })
        },
        Action::StartFetch { task, client } => {
            let k = pre.tasks()[task as int].instance as int;
            &&& no_building(pre)
            &&& task < pre.tasks().len()
            &&& pre.tasks()[task as int].state is Pending
            &&& !cached_fresh(pre.cache(), pre.tasks()[task as int].url@, now)
            &&& scanned(pre, post, now, task as int, task + 1)
            &&& post.tasks()[task as int].state == (TaskState::Running { client })
            &&& post.in_flight() == pre.in_flight() + 1
            &&& pre.instances()[k].pool is Ready
            &&& pre.instances()[k].pool->Ready_0.available().len() > 0
            &&& client == pre.instances()[k].pool->Ready_0.available().last()
            &&& pool_view(post.instances()[k].pool) == (PoolView::Ready {
                available: pre.instances()[k].pool->Ready_0.available().drop_last(),
                size: pre.instances()[k].pool->Ready_0.size(),
            })
            &&& forall|m: int|
                0 <= m < pre.instances().len() && m != k ==> pool_view(
                    (#[trigger] post.instances()[m]).pool,
                ) == pool_view(pre.instances()[m].pool)
        },
        Action::Wait => {
            &&& no_building(pre)
            &&& scanned(pre, post, now, pre.tasks().len() as int, pre.tasks().len() as int)
            &&& same_pools(pre, post)
            &&& post.in_flight() == pre.in_flight()
            &&& post.in_flight() > 0
        },
        Action::Finish => {
            &&& no_building(pre)
            &&& scanned(pre, post, now, pre.tasks().len() as int, pre.tasks().len() as int)
            &&& same_pools(pre, post)
            &&& post.in_flight() == 0
            &&& pre.in_flight() == 0
            &&& forall|t: int|
                0 <= t < post.tasks().len() ==> !((#[trigger] post.tasks()[t]).state is Pending)
                    && !(post.tasks()[t].state is Running)
        },
    }
}

/// One more task decided: what `scanned` says of the tasks before `t` holds
/// of the tasks up to `t` after the decision on `t`.
pub proof fn lemma_scan_step(
    pre: Collector,
    mid: Collector,
    cur: Collector,
    now: Timestamp,
    t: int,
    started: Option<usize>,
)
    requires
        pre.wf(),
        0 <= t < pre.tasks().len(),
        pre.tasks()[t].state is Pending,
        scanned(pre, mid, now, t, t),
        same_pools(pre, mid),
        cache_kept(pre, mid, t),
        mid.in_flight() == pre.in_flight(),
        decided(mid, cur, t, now, started),
    ensures
        scanned(pre, cur, now, t + (if started is None { 1int } else { 0int }), t + 1),
        cache_kept(pre, cur, t + 1),
        started is None ==> settled(pre, cur, t, now) && same_pools(pre, cur) && cur.in_flight()
            == pre.in_flight(),
        started is Some ==> !cached_fresh(pre.cache(), pre.tasks()[t].url@, now),
{
    let url = pre.tasks()[t].url@;
    let k = pre.tasks()[t].instance as int;
    assert(mid.tasks()[t] == pre.tasks()[t]);
    assert(pool_view(mid.instances()[k].pool) == pool_view(pre.instances()[k].pool));
    assert(cached_fresh(mid.cache(), url, now) == cached_fresh(pre.cache(), url, now));
    assert forall|u: int| 0 <= u < t implies #[trigger] settled(pre, cur, u, now) by {
        assert(settled(pre, mid, u, now));
        assert(cur.tasks()[u] == mid.tasks()[u]);
        assert(pre.tasks()[u].url@ != url);
    }
    assert forall|u: int| 0 <= u < pre.tasks().len() implies (#[trigger] cur.tasks()[u]).url
        == pre.tasks()[u].url && cur.tasks()[u].instance == pre.tasks()[u].instance by {
        assert(mid.tasks()[u].url == pre.tasks()[u].url);
        if u != t {
            assert(cur.tasks()[u] == mid.tasks()[u]);
        }
    }
    assert forall|j: int| 0 <= j < pre.instances().len() implies (#[trigger] cur.instances()[j]).base_url
        == pre.instances()[j].base_url && cur.instances()[j].config == pre.instances()[j].config by {
        assert(mid.instances()[j].base_url == pre.instances()[j].base_url);
    }
    assert forall|u: int| t + 1 <= u < pre.tasks().len() implies #[trigger] cur.tasks()[u]
        == pre.tasks()[u] by {
        assert(cur.tasks()[u] == mid.tasks()[u]);
    }
    assert forall|v: Seq<char>| #[trigger] pre.result().dom().contains(v) implies cur.result().dom().contains(
        v,
    ) && cur.result()[v] == pre.result()[v] by {
        assert(!pre.result().dom().contains(url));
    }
    assert forall|u: int| t + 1 <= u < pre.tasks().len() implies (cur.cache().dom().contains(
        (#[trigger] pre.tasks()[u]).url@,
    ) <==> pre.cache().dom().contains(pre.tasks()[u].url@)) && (pre.cache().dom().contains(
        pre.tasks()[u].url@,
    ) ==> cur.cache()[pre.tasks()[u].url@] == pre.cache()[pre.tasks()[u].url@]) by {
        assert(pre.tasks()[u].url@ != url);
    }
    let upto = t + (if started is None {
        1int
    } else {
        0int
    });
    assert forall|v: Seq<char>|
        (#[trigger] cur.cache().dom().contains(v) <==> pre.cache().dom().contains(v)
            && !reused_before(pre, now, upto, v)) && (cur.cache().dom().contains(v)
            ==> cur.cache()[v] == pre.cache()[v]) by {
        assert(mid.cache().dom().contains(v) <==> pre.cache().dom().contains(v) && !reused_before(
            pre,
            now,
            t,
            v,
        ));
        if reused_before(pre, now, t, v) {
            let u = choose|u: int| reuses(pre, now, t, v, u);
            assert(reuses(pre, now, upto, v, u));
        }
        if reused_before(pre, now, upto, v) {
            let u = choose|u: int| reuses(pre, now, upto, v, u);
            if u != t {
                assert(reuses(pre, now, t, v, u));
            }
        }
        if cached_fresh(pre.cache(), url, now) && v == url {
            assert(reuses(pre, now, upto, v, t));
        }
    }
    if started is None {
        assert forall|j: int| 0 <= j < pre.instances().len() implies pool_view(
            (#[trigger] cur.instances()[j]).pool,
        ) == pool_view(pre.instances()[j].pool) by {
            if j != k {
                assert(cur.instances()[j] == mid.instances()[j]);
            }
        }
    }
}

impl Collector {
    /// Chooses what the caller is to do next, with `now` as the time at
    /// which cached snapshots are judged.
    #[verifier::rlimit(60)]
    pub fn next_action_at(&mut self, now: Timestamp) -> (action: Action)
        requires
            old(self).wf(),
        ensures
            final(self).wf(),
            acted(*old(self), *final(self), now, action),
    {
        let ghost pre = *self;
        let mut k: usize = 0;
        while k < self.instances.len()
            invariant
                k <= self.instances().len(),
                *self == pre,
                pre == *old(self),
                pre.wf(),
                forall|m: int| 0 <= m < k ==> !((#[trigger] self.instances()[m]).pool is Building),
            decreases self.instances().len() - k,
        {
            match &self.instances[k].pool {
                PoolState::Building { built } => {
                    return Action::BuildClient { instance: k, token: *built };
                },
                _ => {},
            }
            k += 1;
        }
        let mut t: usize = 0;
        while t < self.tasks.len()
            invariant
                t <= self.tasks().len(),
                pre == *old(self),
                pre.wf(),
                self.wf(),
                no_building(pre),
                scanned(pre, *self, now, t as int, t as int),
                same_pools(pre, *self),
                cache_kept(pre, *self, t as int),
                self.in_flight() == pre.in_flight(),
            decreases self.tasks().len() - t,
        {
            let pending = match self.tasks[t].state {
                TaskState::Pending => true,
                _ => false,
            };
            let ghost mid = *self;
            if pending {
                let started = self.decide(t, now);
                proof {
                    lemma_scan_step(pre, mid, *self, now, t as int, started);
                }
                match started {
                    Some(client) => {
                        proof {
                            let i = pre.tasks()[t as int].instance as int;
                            assert(mid.tasks()[t as int] == pre.tasks()[t as int]);
                            assert(pool_view(mid.instances()[i].pool) == pool_view(
                                pre.instances()[i].pool,
                            ));
                            assert forall|m: int|
                                0 <= m < pre.instances().len() && m != i implies pool_view(
                                (#[trigger] self.instances()[m]).pool,
                            ) == pool_view(pre.instances()[m].pool) by {
                                assert(self.instances()[m] == mid.instances()[m]);
                            }
                        }
                        return Action::StartFetch { task: t, client };
                    },
                    None => {},
                }
            } else {
                proof {
                    assert(mid.tasks()[t as int] == pre.tasks()[t as int]);
                    assert(settled(pre, *self, t as int, now));
                    let here: int = t as int;
                    let next: int = t + 1;
                    assert forall|v: Seq<char>|
                        reused_before(pre, now, next, v) == reused_before(pre, now, here, v) by {
                        if reused_before(pre, now, here, v) {
                            let u = choose|u: int| reuses(pre, now, here, v, u);
                            assert(reuses(pre, now, next, v, u));
                        }
                        if reused_before(pre, now, next, v) {
                            let u = choose|u: int| reuses(pre, now, next, v, u);
                            assert(reuses(pre, now, here, v, u));
                        }
                    }
                }
            }
            t += 1;
        }
        if self.in_flight > 0 {
            Action::Wait
        } else {
            proof {
                assert forall|u: int| 0 <= u < self.tasks().len() implies !((
                #[trigger] self.tasks()[u]).state is Pending) && !(self.tasks()[u].state is Running) by {
                    if self.tasks()[u].state is Running {
                        lemma_running_counted(self.tasks(), u);
                    }
                    assert(settled(pre, *self, u, now));
                }
            }
            Action::Finish
        }
    }

    /// Chooses what the caller is to do next. Cached snapshots are judged at
    /// the current time.
    pub fn next_action(&mut self) -> (action: Action)
        requires
            old(self).wf(),
        ensures
            final(self).wf(),
            exists|now: Timestamp| acted(*old(self), *final(self), now, action),
    {
        let now = current_time();
        self.next_action_at(now)
    }
}

impl Collector {
    /// The number of repository URLs of the run.
    pub fn task_count(&self) -> (n: usize)
        ensures
            n == self.tasks().len(),
    {
        self.tasks.len()
    }

    /// The URL of a task.
    pub fn task_url(&self, task: usize) -> (url: Option<&String>)
        ensures
            match url {
                Some(url) => task < self.tasks().len() && *url == self.tasks()[task as int].url,
                None => task >= self.tasks().len(),
            },
    {
        if task < self.tasks.len() {
            Some(&self.tasks[task].url)
        } else {
            None
        }
    }

    /// The position of the instance that a task belongs to.
    pub fn task_instance(&self, task: usize) -> (instance: Option<usize>)
        ensures
            match instance {
                Some(k) => task < self.tasks().len() && k == self.tasks()[task as int].instance,
                None => task >= self.tasks().len(),
            },
    {
        if task < self.tasks.len() {
            Some(self.tasks[task].instance)
        } else {
            None
        }
    }

    /// What has become of a task.
    pub fn task_state(&self, task: usize) -> (state: Option<TaskState>)
        ensures
            match state {
                Some(state) => task < self.tasks().len() && state == self.tasks()[task as int].state,
                None => task >= self.tasks().len(),
            },
    {
        if task < self.tasks.len() {
            Some(self.tasks[task].state)
        } else {
            None
        }
    }

    /// The number of instances that the repository URLs belong to.
    pub fn instance_count(&self) -> (n: usize)
        ensures
            n == self.instances().len(),
    {
        self.instances.len()
    }

    /// The base URL of an instance.
    pub fn instance_url(&self, instance: usize) -> (url: Option<&String>)
        ensures
            match url {
                Some(url) => instance < self.instances().len() && *url
                    == self.instances()[instance as int].base_url,
                None => instance >= self.instances().len(),
            },
    {
        if instance < self.instances.len() {
            Some(&self.instances[instance].base_url)
        } else {
            None
        }
    }

    /// A token of an instance: the one at position `token` of its
    /// configuration entry.
    pub fn token(&self, instance: usize, token: usize) -> (r: Option<&String>)
        requires
            self.wf(),
        ensures
            match r {
                Some(r) => {
                    &&& instance < self.instances().len()
                    &&& self.instances()[instance as int].config is Some
                    &&& token < token_count(self.configs(), self.instances()[instance as int].config)
                    &&& *r == self.configs()[self.instances()[instance as int].config->0 as int].tokens@[token as int]
                },
                None => instance >= self.instances().len() || token >= token_count(
                    self.configs(),
                    self.instances()[instance as int].config,
                ),
            },
    {
        if instance >= self.instances.len() {
            return None;
        }
        match self.instances[instance].config {
            Some(c) => {
                if token < self.configs[c].tokens.len() {
                    Some(&self.configs[c].tokens[token])
                } else {
                    None
                }
            },
            None => None,
        }
    }

    /// The bound on fetches in flight.
    pub fn concurrency_limit(&self) -> (n: usize)
        ensures
            n == self.concurrency(),
    {
        self.concurrency
    }

    /// The number of fetches in flight.
    pub fn fetches_in_flight(&self) -> (n: usize)
        ensures
            n == self.in_flight(),
    {
        self.in_flight
    }
}

} // verus!
