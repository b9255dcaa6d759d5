//! The data the engine produces: repository snapshots, and the map from
//! repository URL to snapshot that is both the run's result and the cache.

use vstd::prelude::*;

verus! {

/// How long a cached snapshot stays valid, in days.
pub const GITLAB_CACHE_TTL: i64 = 7;

/// A point in time: seconds since the Unix epoch and the nanoseconds within
/// that second.
#[derive(Debug, Clone, Copy, PartialEq, Eq, Structural)]
pub struct Timestamp {
    pub secs: i64,
    pub nanos: u32,
}

impl Timestamp {
    /// Nanoseconds since the Unix epoch.
    pub open spec fn nanos_since_epoch(self) -> int {
        self.secs * 1_000_000_000 + self.nanos
    }
}

/// The time to live of a cached snapshot, in nanoseconds.
pub open spec fn ttl_nanos() -> int {
    GITLAB_CACHE_TTL * 86_400 * 1_000_000_000
}

/// A snapshot generated at `generated_at` is fresh at `now` when its age is
/// less than the time to live.
pub open spec fn fresh(generated_at: Timestamp, now: Timestamp) -> bool {
    now.nanos_since_epoch() - generated_at.nanos_since_epoch() < ttl_nanos()
}

/// Whether a snapshot generated at `generated_at` may still be reused at
/// `now`.
pub fn is_fresh(generated_at: Timestamp, now: Timestamp) -> (r: bool)
    ensures
        r == fresh(generated_at, now),
{
    let seconds: i128 = now.secs as i128 - generated_at.secs as i128;
    let nanos: i128 = now.nanos as i128 - generated_at.nanos as i128;
    let ttl: i128 = GITLAB_CACHE_TTL as i128 * 86_400 * 1_000_000_000;
    seconds * 1_000_000_000 + nanos < ttl
}

/// The current time: what `SystemTime::now` reads from the system clock, as
/// `chrono` converts it to a UTC date. Nothing is known of the result. The
/// conversion also takes a clock that stands before 1970.
#[verifier::external_body]
pub(crate) fn current_time() -> (now: Timestamp) {
    let now = chrono::DateTime::<chrono::Utc>::from(std::time::SystemTime::now());
    Timestamp { secs: now.timestamp(), nanos: now.timestamp_subsec_nanos() }
}

/// A commit: its web URL and when it was committed.
#[derive(Debug, Clone, PartialEq, Eq)]
pub struct Commit {
    pub url: String,
    pub ts: Option<Timestamp>,
}

/// The contributors of a repository: how many, and where they are listed.
#[derive(Debug, Clone, PartialEq, Eq)]
pub struct Contributors {
    pub count: usize,
    pub url: String,
}

/// A release: when it was published and its web URL.
#[derive(Debug, Clone, PartialEq, Eq)]
pub struct Release {
    pub ts: Option<Timestamp>,
    pub url: String,
}

/// No language occurs twice in a list of shares.
pub open spec fn unique_languages(shares: Seq<(String, i64)>) -> bool {
    forall|i: int, j: int|
        0 <= i < shares.len() && 0 <= j < shares.len() && i != j ==> (#[trigger] shares[i]).0@ != (
        #[trigger] shares[j]).0@
}

/// The facts collected for one repository at one point in time.
///
/// `languages` maps a language name to its share of the repository times one
/// thousand. This is a relative size, not a number of bytes. The list stands
/// for a map and is kept as it was given: it names no language twice
/// (`unique_languages`) where the answer it was read from named none twice.
#[derive(Debug, Clone, PartialEq, Eq)]
pub struct RepositoryGitData {
    pub generated_at: Timestamp,
    pub contributors: Contributors,
    pub description: String,
    pub first_commit: Option<Commit>,
    pub good_first_issues: Option<usize>,
    pub languages: Option<Vec<(String, i64)>>,
    pub latest_commit: Commit,
    pub latest_release: Option<Release>,
    pub license: Option<String>,
    pub stars: i64,
    pub topics: Vec<String>,
    pub url: String,
}

/// Snapshots by repository URL. A URL occurs at most once.
#[derive(Debug)]
pub struct GitData {
    entries: Vec<(String, RepositoryGitData)>,
}

/// Position `i` of `entries` holds the key `url`.
pub open spec fn key_at(entries: Seq<(String, RepositoryGitData)>, url: Seq<char>, i: int) -> bool {
    0 <= i < entries.len() && entries[i].0@ == url
}

/// No key occurs at two positions.
pub open spec fn unique_keys(entries: Seq<(String, RepositoryGitData)>) -> bool {
    forall|i: int, j: int|
        0 <= i < entries.len() && 0 <= j < entries.len() && i != j ==> (#[trigger] entries[i]).0@
            != (#[trigger] entries[j]).0@
}

/// The map that a list of entries with unique keys stands for.
pub open spec fn entries_map(entries: Seq<(String, RepositoryGitData)>) -> Map<
    Seq<char>,
    RepositoryGitData,
> {
    Map::new(
        |url: Seq<char>| exists|i: int| key_at(entries, url, i),
        |url: Seq<char>| entries[choose|i: int| key_at(entries, url, i)].1,
    )
}

/// With unique keys, the map holds at each key the snapshot stored with it.
pub proof fn lemma_entries_map_at(entries: Seq<(String, RepositoryGitData)>, i: int)
    requires
        unique_keys(entries),
        0 <= i < entries.len(),
    ensures
        entries_map(entries).dom().contains(entries[i].0@),
        entries_map(entries)[entries[i].0@] == entries[i].1,
{
    let url = entries[i].0@;
    assert(key_at(entries, url, i));
    let j = choose|j: int| key_at(entries, url, j);
    assert(j == i);
}

impl View for GitData {
    type V = Map<Seq<char>, RepositoryGitData>;

    closed spec fn view(&self) -> Map<Seq<char>, RepositoryGitData> {
        entries_map(self.entries@)
    }
}

impl GitData {
    /// No URL occurs twice.
    pub closed spec fn wf(&self) -> bool {
        unique_keys(self.entries@)
    }

    /// The number of entries.
    pub closed spec fn count(&self) -> nat {
        self.entries@.len()
    }

    /// A map without entries.
    pub fn new() -> (data: GitData)
        ensures
            data.wf(),
            data@ == Map::<Seq<char>, RepositoryGitData>::empty(),
            data.count() == 0,
    {
        let data = GitData { entries: Vec::new() };
        assert(data@ =~= Map::<Seq<char>, RepositoryGitData>::empty());
        data
    }

    /// The number of entries.
    pub fn len(&self) -> (n: usize)
        ensures
            n == self.count(),
    {
        self.entries.len()
    }

    /// The position of the entry for `url`, if there is one.
    fn position(&self, url: &String) -> (r: Option<usize>)
        ensures
            match r {
                Some(i) => key_at(self.entries@, url@, i as int),
                None => forall|i: int| !key_at(self.entries@, url@, i),
            },
    {
        let mut i: usize = 0;
        while i < self.entries.len()
            invariant
                i <= self.entries.len(),
                forall|k: int| 0 <= k < i ==> !key_at(self.entries@, url@, k),
            decreases self.entries.len() - i,
        {
            if self.entries[i].0 == *url {
                return Some(i);
            }
            i += 1;
        }
        None
    }

    /// Whether there is an entry for `url`.
    pub fn contains_key(&self, url: &String) -> (r: bool)
        ensures
            r == self@.dom().contains(url@),
    {
        self.position(url).is_some()
    }

    /// The snapshot stored for `url`, if there is one.
    pub fn get(&self, url: &String) -> (r: Option<&RepositoryGitData>)
        requires
            self.wf(),
        ensures
            match r {
                Some(snapshot) => self@.dom().contains(url@) && *snapshot == self@[url@],
                None => !self@.dom().contains(url@),
            },
    {
        match self.position(url) {
            Some(i) => {
                proof {
                    lemma_entries_map_at(self.entries@, i as int);
                }
                Some(&self.entries[i].1)
            },
            None => None,
        }
    }

    /// Stores `snapshot` for `url`, in place of an earlier snapshot for it.
    pub fn insert(&mut self, url: String, snapshot: RepositoryGitData)
        requires
            old(self).wf(),
        ensures
            final(self).wf(),
            final(self)@ == old(self)@.insert(url@, snapshot),
    {
        let ghost before = self.entries@;
        let ghost pos: int;
        match self.position(&url) {
            Some(i) => {
                proof {
                    pos = i as int;
                }
                self.entries.set(i, (url, snapshot));
            },
            None => {
                proof {
                    pos = before.len() as int;
                }
                self.entries.push((url, snapshot));
            },
        }
        proof {
            let after = self.entries@;
            assert(key_at(after, url@, pos) && after[pos].1 == snapshot);
            assert forall|a: int| 0 <= a < after.len() && a != pos implies key_at(
                before,
                (#[trigger] after[a]).0@,
                a,
            ) && after[a] == before[a] by {}
            assert forall|a: int, b: int|
                0 <= a < after.len() && 0 <= b < after.len() && a != b implies (#[trigger] after[a]).0@
                != (#[trigger] after[b]).0@ by {
                if a != pos && b != pos {
                    assert(before[a].0@ != before[b].0@);
                } else if a == pos {
                    assert(key_at(before, after[b].0@, b));
                } else {
                    assert(key_at(before, after[a].0@, a));
                }
            }
            assert forall|k: Seq<char>| #[trigger]
                entries_map(after).dom().contains(k) == entries_map(before).insert(
                    url@,
                    snapshot,
                ).dom().contains(k) by {
                if k == url@ {
                    assert(key_at(after, k, pos));
                } else if entries_map(before).dom().contains(k) {
                    let i = choose|i: int| key_at(before, k, i);
                    assert(key_at(after, k, i));
                } else if entries_map(after).dom().contains(k) {
                    let i = choose|i: int| key_at(after, k, i);
                    assert(key_at(before, k, i));
                }
            }
            assert forall|k: Seq<char>| #[trigger]
                entries_map(after).dom().contains(k) implies entries_map(after)[k] == entries_map(
                before,
            ).insert(url@, snapshot)[k] by {
                let i = choose|i: int| key_at(after, k, i);
                lemma_entries_map_at(after, i);
                if k != url@ {
                    assert(key_at(before, k, i));
                    lemma_entries_map_at(before, i);
                }
            }
            assert(entries_map(after) =~= entries_map(before).insert(url@, snapshot));
        }
    }

    /// Takes the snapshot stored for `url` out of the map, if there is one.
    pub fn remove(&mut self, url: &String) -> (r: Option<RepositoryGitData>)
        requires
            old(self).wf(),
        ensures
            final(self).wf(),
            final(self)@ == old(self)@.remove(url@),
            match r {
                Some(snapshot) => old(self)@.dom().contains(url@) && snapshot == old(self)@[url@],
                None => !old(self)@.dom().contains(url@),
            },
    {
        let ghost before = self.entries@;
        match self.position(url) {
            Some(i) => {
                let (_, snapshot) = self.entries.remove(i);
                proof {
                    let after = self.entries@;
                    lemma_entries_map_at(before, i as int);
                    assert forall|a: int, b: int|
                        0 <= a < after.len() && 0 <= b < after.len() && a != b implies (
                    #[trigger] after[a]).0@ != (#[trigger] after[b]).0@ by {
                        let a0 = if a < i { a } else { a + 1 };
                        let b0 = if b < i { b } else { b + 1 };
                        assert(after[a] == before[a0] && after[b] == before[b0]);
                    }
                    assert forall|k: Seq<char>| #[trigger]
                        entries_map(after).dom().contains(k) == entries_map(before).remove(
                            url@,
                        ).dom().contains(k) by {
                        if entries_map(after).dom().contains(k) {
                            let a = choose|a: int| key_at(after, k, a);
                            let a0 = if a < i { a } else { a + 1 };
                            assert(key_at(before, k, a0));
                        } else if k != url@ && entries_map(before).dom().contains(k) {
                            let a0 = choose|a0: int| key_at(before, k, a0);
                            let a = if a0 < i { a0 } else { a0 - 1 };
                            assert(key_at(after, k, a));
                        }
                    }
                    assert forall|k: Seq<char>| #[trigger]
                        entries_map(after).dom().contains(k) implies entries_map(after)[k]
                        == entries_map(before).remove(url@)[k] by {
                        let a = choose|a: int| key_at(after, k, a);
                        let a0 = if a < i { a } else { a + 1 };
                        lemma_entries_map_at(after, a);
                        assert(key_at(before, k, a0));
                        lemma_entries_map_at(before, a0);
                    }
                    assert(entries_map(after) =~= entries_map(before).remove(url@));
                }
                Some(snapshot)
            },
            None => {
                assert(entries_map(before) =~= entries_map(before).remove(url@));
                None
            },
        }
    }

    /// The entries as a list, each URL with its snapshot.
    pub fn into_entries(self) -> (entries: Vec<(String, RepositoryGitData)>)
        requires
            self.wf(),
        ensures
            unique_keys(entries@),
            entries_map(entries@) == self@,
    {
        self.entries
    }
}

} // verus!
