//! Instance client pool: the handles of the clients built for one instance,
//! one per token, handed out and taken back one at a time.

use deadpool::unmanaged::Pool;
use vstd::prelude::*;

verus! {

/// The unmanaged pool of `deadpool`.
#[verifier::external_type_specification]
#[verifier::external_body]
#[verifier::reject_recursive_types(T)]
pub struct ExPool<T>(Pool<T>);

/// The objects that wait in the pool, in the order in which they were put
/// there.
pub uninterp spec fn pool_items(pool: Pool<usize>) -> Seq<usize>;

/// How many more objects the pool accepts: the places that are free below
/// its maximum size, and none once the pool is closed.
pub uninterp spec fn pool_room(pool: Pool<usize>) -> nat;

/// `Pool::from` makes a pool that holds the given objects and whose maximum
/// size is their number, so that it accepts no further object.
#[verifier::external_body]
fn pool_from(items: Vec<usize>) -> (pool: Pool<usize>)
    ensures
        pool_items(pool) == items@,
        pool_room(pool) == 0,
{
    Pool::from(items)
}

/// `Pool::try_remove` takes the object that was put into the pool last and
/// gives up its place; it fails, and changes nothing, when no object waits.
#[verifier::external_body]
fn pool_try_remove(pool: &mut Pool<usize>) -> (r: Option<usize>)
    ensures
        match r {
            Some(item) => {
                &&& pool_items(*old(pool)).len() > 0
                &&& item == pool_items(*old(pool)).last()
                &&& pool_items(*final(pool)) == pool_items(*old(pool)).drop_last()
                &&& pool_room(*final(pool)) == pool_room(*old(pool)) + 1
            },
            None => {
                &&& pool_items(*old(pool)).len() == 0
                &&& pool_items(*final(pool)) == pool_items(*old(pool))
                &&& pool_room(*final(pool)) == pool_room(*old(pool))
            },
        },
{
    pool.try_remove().ok()
}

/// `Pool::try_add` puts an object into the pool behind those that wait
/// there; it fails, and changes nothing, when the pool accepts no further
/// object.
#[verifier::external_body]
fn pool_try_add(pool: &mut Pool<usize>, item: usize) -> (added: bool)
    ensures
        added == (pool_room(*old(pool)) > 0),
        added ==> pool_items(*final(pool)) == pool_items(*old(pool)).push(item) && pool_room(
            *final(pool),
        ) == pool_room(*old(pool)) - 1,
        !added ==> pool_items(*final(pool)) == pool_items(*old(pool)) && pool_room(*final(pool))
            == pool_room(*old(pool)),
{
    pool.try_add(item).is_ok()
}

/// A sequence of distinct handles below `size` that lacks one of them is
/// shorter than `size`.
pub proof fn lemma_room_for_missing(handles: Seq<usize>, size: nat, missing: usize)
    requires
        handles.no_duplicates(),
        forall|i: int| 0 <= i < handles.len() ==> handles[i] < size,
        missing < size,
        !handles.contains(missing),
    ensures
        handles.len() < size,
{
    let ints = handles.map_values(|h: usize| h as int);
    assert(ints.no_duplicates()) by {
        assert forall|i: int, j: int| 0 <= i < ints.len() && 0 <= j < ints.len() && i != j implies ints[i]
            != ints[j] by {
            assert(handles[i] != handles[j]);
        }
    }
    ints.unique_seq_to_set();
    let all = vstd::set_lib::set_int_range(0, size as int);
    let others = all.remove(missing as int);
    vstd::set_lib::lemma_int_range(0, size as int);
    assert(ints.to_set().subset_of(others)) by {
        assert forall|x: int| ints.to_set().contains(x) implies others.contains(x) by {
            let i = choose|i: int| 0 <= i < ints.len() && ints[i] == x;
            assert(handles[i] < size);
            assert(handles.contains(handles[i]));
        }
    }
    vstd::set_lib::lemma_len_subset(ints.to_set(), others);
}

/// The pool of one instance. Its clients are known by their handles, the
/// numbers below `size`; the pool holds the handles of the clients that are
/// not in use. The `deadpool` pool inside is never cloned or closed, so what
/// it holds changes through `checkout` and `checkin` alone.
pub struct ClientPool {
    pool: Pool<usize>,
    size: usize,
}

impl ClientPool {
    /// The handles of the clients that are not in use.
    pub closed spec fn available(&self) -> Seq<usize> {
        pool_items(self.pool)
    }

    /// The number of clients, in use or not.
    pub closed spec fn size(&self) -> nat {
        self.size as nat
    }

    /// The available handles are distinct and below `size`, and the pool has
    /// room for exactly those that are in use.
    pub closed spec fn wf(&self) -> bool {
        &&& self.available().no_duplicates()
        &&& forall|i: int| 0 <= i < self.available().len() ==> self.available()[i] < self.size
        &&& pool_room(self.pool) + self.available().len() == self.size
    }

    /// What `wf` says of the available handles.
    pub proof fn lemma_available(&self)
        requires
            self.wf(),
        ensures
            self.available().no_duplicates(),
            self.available().len() <= self.size(),
            forall|i: int| 0 <= i < self.available().len() ==> self.available()[i] < self.size(),
    {
    }

    /// A pool of `size` clients, all of them available.
    pub fn new(size: usize) -> (pool: ClientPool)
        ensures
            pool.wf(),
            pool.size() == size,
            pool.available() == Seq::new(size as nat, |i: int| i as usize),
    {
        let mut handles: Vec<usize> = Vec::new();
        let mut i: usize = 0;
        while i < size
            invariant
                i <= size,
                handles@ == Seq::new(i as nat, |k: int| k as usize),
            decreases size - i,
        {
            handles.push(i);
            i += 1;
        }
        ClientPool { pool: pool_from(handles), size }
    }

    /// The number of clients, in use or not.
    pub fn capacity(&self) -> (n: usize)
        ensures
            n == self.size(),
    {
        self.size
    }

    /// Hands out a client that is not in use: the one that came back last.
    /// Returns `None` exactly when every client is in use.
    pub fn checkout(&mut self) -> (r: Option<usize>)
        requires
            old(self).wf(),
        ensures
            final(self).wf(),
            final(self).size() == old(self).size(),
            match r {
                Some(client) => {
                    &&& old(self).available().len() > 0
                    &&& client == old(self).available().last()
                    &&& client < old(self).size()
                    &&& final(self).available() == old(self).available().drop_last()
                    &&& !final(self).available().contains(client)
                },
                None => old(self).available().len() == 0 && final(self).available() == old(
                    self,
                ).available(),
            },
    {
        let r = pool_try_remove(&mut self.pool);
        proof {
            if r is Some {
                let before = old(self).available();
                let after = self.available();
                if after.contains(r->0) {
                    let i = choose|i: int| 0 <= i < after.len() && after[i] == r->0;
                    assert(before[i] == before[before.len() - 1]);
                }
            }
        }
        r
    }

    /// Takes back a client that was handed out.
    pub fn checkin(&mut self, client: usize)
        requires
            old(self).wf(),
            client < old(self).size(),
            !old(self).available().contains(client),
        ensures
            final(self).wf(),
            final(self).size() == old(self).size(),
            final(self).available() == old(self).available().push(client),
    {
        proof {
            lemma_room_for_missing(self.available(), self.size(), client);
        }
        let added = pool_try_add(&mut self.pool, client);
        assert(added);
    }
}

} // verus!
