use std::collections::BTreeMap;
use vstd::arithmetic::div_mod::{lemma_mod_add_multiples_vanish, lemma_small_mod};
use vstd::prelude::*;

use crate::hashing::{hash_shard, shard_hash_of};
use crate::placement::{
    add_shard, assignment_view, lemma_places_step, places, redundancy_error, AssignError,
    Assignment,
};
use crate::workers::{distinct_ids, ids_of, unique_worker_ids, Worker};

verus! {

/// The position in `ids` where the run of shard `s` starts.
pub open spec fn run_start(ids: Seq<u32>, s: u32) -> int {
    shard_hash_of(s) as int % ids.len() as int
}

/// The `r` workers of `ids` from the start of `s`'s run onward, wrapping
/// around the end of the list.
pub open spec fn modulo_run(ids: Seq<u32>, s: u32, r: nat) -> Seq<u32> {
    Seq::new(r, |i: int| ids[(run_start(ids, s) + i) % ids.len() as int])
}

/// The owners of shard `s` under the modulo strategy: a contiguous run over
/// the distinct workers, in list order.
pub open spec fn modulo_owners(workers: Seq<Worker>, s: u32, r: nat) -> Set<u32> {
    modulo_run(distinct_ids(ids_of(workers)), s, r).to_set()
}

/// Below twice the modulus, the remainder is reached by at most one subtraction.
pub proof fn lemma_wrap_index(a: int, n: int)
    requires
        0 < n,
        0 <= a < 2 * n,
    ensures
        a % n == if a < n { a } else { a - n },
{
    if a < n {
        lemma_small_mod(a as nat, n as nat);
    } else {
        lemma_mod_add_multiples_vanish(a - n, n);
        lemma_small_mod((a - n) as nat, n as nat);
    }
}

/// The run of `r` distinct workers that own shard `s`.
fn run_of(ids: &Vec<u32>, s: u32, r: usize) -> (o: Vec<u32>)
    requires
        0 < ids@.len(),
        r <= ids@.len(),
    ensures
        o@ == modulo_run(ids@, s, r as nat),
{
    let n = ids.len();
    let start = (hash_shard(s) % (n as u64)) as usize;
    assert(start as int == run_start(ids@, s));
    let mut o: Vec<u32> = Vec::new();
    let mut k: usize = 0;
    while k < r
        invariant
            k <= r <= n,
            n == ids@.len(),
            0 < n,
            start as int == run_start(ids@, s),
            start < n,
            o@ =~= modulo_run(ids@, s, k as nat),
        decreases r - k,
    {
        let idx = if k < n - start {
            start + k
        } else {
            k - (n - start)
        };
        proof {
            lemma_wrap_index(start + k, n as int);
        }
        o.push(ids[idx]);
        k += 1;
    }
    o
}

/// Places each shard on a contiguous run of `redundancy` workers, starting
/// at the position that the shard's hash selects.
///
/// A worker listed more than once counts once, at its first place.  Refused
/// when `redundancy` is zero or exceeds the number of distinct workers.
pub fn naive_assign(workers: &[Worker], shards: &[u32], redundancy: usize) -> (res: Result<
    Assignment,
    AssignError,
>)
    ensures
        match redundancy_error(workers@, redundancy as nat) {
            Some(e) => res == Err::<Assignment, AssignError>(e),
            None => res matches Ok(a) && places(
                assignment_view(a),
                shards@,
                |s: u32| modulo_owners(workers@, s, redundancy as nat),
            ),
        },
{
    if redundancy == 0 {
        return Err(AssignError::ZeroRedundancy);
    }
    let ids = unique_worker_ids(workers);
    if redundancy > ids.len() {
        return Err(AssignError::TooFewWorkers);
    }
    let ghost owners = |s: u32| modulo_owners(workers@, s, redundancy as nat);
    let mut acc: Assignment = BTreeMap::new();
    let mut i: usize = 0;
    proof {
        assert(assignment_view(acc) =~= Map::empty());
        assert(places(assignment_view(acc), shards@.take(0), owners));
    }
    while i < shards.len()
        invariant
            i <= shards@.len(),
            0 < redundancy <= ids@.len(),
            ids@ == distinct_ids(ids_of(workers@)),
            owners == (|s: u32| modulo_owners(workers@, s, redundancy as nat)),
            places(assignment_view(acc), shards@.take(i as int), owners),
        decreases shards@.len() - i,
    {
        let s = shards[i];
        let o = run_of(&ids, s, redundancy);
        let ghost before = assignment_view(acc);
        add_shard(&mut acc, s, &o);
        proof {
            lemma_places_step(before, assignment_view(acc), shards@, i as int, owners, o@);
        }
        i += 1;
    }
    proof {
        assert(shards@.take(shards@.len() as int) =~= shards@);
    }
    Ok(acc)
}

} // verus!
