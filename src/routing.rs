//! Which worker handles a key: the key-exchange that makes one worker the
//! primary for each state key.
use vstd::prelude::*;
use crate::key::StateKey;

verus! {

/// What std's `DefaultHasher` gives for a key's string.
pub uninterp spec fn key_hash(k: Seq<char>) -> u64;

/// Relies on std's `BuildHasher::hash_one` with `BuildHasherDefault<DefaultHasher>`:
/// every hasher it builds starts the same, so the hash depends on the key alone.
#[verifier::external_body]
fn hash_key(key: &StateKey) -> (r: u64)
    ensures
        r == key_hash(key@),
{
    std::hash::BuildHasher::hash_one(
        &std::hash::BuildHasherDefault::<std::collections::hash_map::DefaultHasher>::default(),
        &key.name,
    )
}

/// Relies on fastrand's `u64(..)`: a random value over the whole range; nothing
/// more is known of it.
#[verifier::external_body]
fn random_u64() -> (r: u64) {
    fastrand::u64(..)
}

/// The worker a route hash selects among `worker_count` workers.
pub fn worker_for_hash(hash: u64, worker_count: usize) -> (r: usize)
    requires
        worker_count > 0,
    ensures
        r == hash % (worker_count as u64),
        r < worker_count,
{
    (hash % (worker_count as u64)) as usize
}

/// The primary worker for `key`.
pub fn worker_for_key(key: &StateKey, worker_count: usize) -> (r: usize)
    requires
        worker_count > 0,
    ensures
        r == key_hash(key@) % (worker_count as u64),
        r < worker_count,
{
    worker_for_hash(hash_key(key), worker_count)
}

/// A worker picked at random, to spread items with no key.
pub fn random_worker(worker_count: usize) -> (r: usize)
    requires
        worker_count > 0,
    ensures
        r < worker_count,
{
    worker_for_hash(random_u64(), worker_count)
}

/// Tags each item with its key's primary worker, keeping the order.
pub fn route_to_workers<V>(items: Vec<(StateKey, V)>, worker_count: usize) -> (r: Vec<(usize, StateKey, V)>)
    requires
        worker_count > 0,
    ensures
        r@.len() == items@.len(),
        forall|i: int| 0 <= i < r@.len() ==> {
            &&& (#[trigger] r@[i]).1@ == items@[i].0@
            &&& r@[i].2 == items@[i].1
            &&& r@[i].0 == key_hash(items@[i].0@) % (worker_count as u64)
        },
{
    let ghost all = items@;
    let mut rev = crate::operator::into_reversed(items);
    let mut r: Vec<(usize, StateKey, V)> = Vec::new();
    while rev.len() > 0
        invariant
            worker_count > 0,
            r@.len() + rev@.len() == all.len(),
            rev@ == all.subrange(r@.len() as int, all.len() as int).reverse(),
            forall|i: int| 0 <= i < r@.len() ==> {
                &&& (#[trigger] r@[i]).1@ == all[i].0@
                &&& r@[i].2 == all[i].1
                &&& r@[i].0 == key_hash(all[i].0@) % (worker_count as u64)
            },
        decreases rev@.len(),
    {
        let ghost n = r@.len();
        proof {
            assert(all.subrange(n as int, all.len() as int).reverse().last() == all[n as int]);
        }
        let (key, value) = rev.pop().unwrap();
        let w = worker_for_key(&key, worker_count);
        r.push((w, key, value));
        proof {
            assert(rev@ =~= all.subrange(n as int + 1, all.len() as int).reverse());
        }
    }
    r
}

/// One primary per key: two workers that both take `k` are the same worker.
pub proof fn lemma_single_primary(k: Seq<char>, worker_count: usize, w1: usize, w2: usize)
    requires
        worker_count > 0,
        w1 == key_hash(k) % (worker_count as u64),
        w2 == key_hash(k) % (worker_count as u64),
    ensures
        w1 == w2,
{
}

} // verus!
