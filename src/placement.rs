use std::collections::{BTreeMap, BTreeSet};
use vstd::prelude::*;

use crate::workers::{distinct_ids, ids_of, Worker};

verus! {

broadcast use vstd::seq_lib::group_seq_properties;

/// Why a placement request was refused.
#[derive(Debug, Clone, Copy, PartialEq, Eq, Structural)]
pub enum AssignError {
    /// The replication factor is zero.
    ZeroRedundancy,
    /// The replication factor exceeds the number of distinct workers.
    TooFewWorkers,
}

/// The refusal owed to a request, if any.  A worker listed more than once
/// counts once.
pub open spec fn redundancy_error(workers: Seq<Worker>, redundancy: nat) -> Option<AssignError> {
    if redundancy == 0 {
        Some(AssignError::ZeroRedundancy)
    } else if redundancy > distinct_ids(ids_of(workers)).len() {
        Some(AssignError::TooFewWorkers)
    } else {
        None
    }
}

/// Which shards each worker owns, keyed by worker identity.  A worker that
/// owns no shard has no entry.
pub type Assignment = BTreeMap<u32, BTreeSet<u32>>;

/// An assignment as a map from worker identity to its set of shards.
pub open spec fn assignment_view(a: Assignment) -> Map<u32, Set<u32>> {
    a@.map_values(|b: BTreeSet<u32>| b@)
}

/// Worker `w` owns shard `s` in `m`.
pub open spec fn owns(m: Map<u32, Set<u32>>, w: u32, s: u32) -> bool {
    m.contains_key(w) && m[w].contains(s)
}

/// Every worker with an entry owns at least one shard.
pub open spec fn no_empty_bucket(m: Map<u32, Set<u32>>) -> bool {
    forall|w: u32| #[trigger] m.contains_key(w) ==> exists|s: u32| #[trigger] m[w].contains(s)
}

/// `m` places exactly the shards of `shards`, each `s` on the workers of
/// `owners(s)`, and holds no empty entry.
pub open spec fn places(
    m: Map<u32, Set<u32>>,
    shards: Seq<u32>,
    owners: spec_fn(u32) -> Set<u32>,
) -> bool {
    &&& forall|w: u32, s: u32| #[trigger]
        owns(m, w, s) <==> shards.contains(s) && owners(s).contains(w)
    &&& no_empty_bucket(m)
}

/// Adds shard `s` to the entry of each worker in `o`, creating entries as needed.
pub(crate) fn add_shard(acc: &mut Assignment, s: u32, o: &Vec<u32>)
    ensures
        forall|w: u32, t: u32| #[trigger]
            owns(assignment_view(*final(acc)), w, t) <==> owns(assignment_view(*old(acc)), w, t)
                || (t == s && o@.contains(w)),
        no_empty_bucket(assignment_view(*old(acc))) ==> no_empty_bucket(
            assignment_view(*final(acc)),
        ),
{
    let ghost start = assignment_view(*acc);
    let mut j: usize = 0;
    while j < o.len()
        invariant
            j <= o@.len(),
            start == assignment_view(*old(acc)),
            forall|w: u32, t: u32| #[trigger]
                owns(assignment_view(*acc), w, t) <==> owns(start, w, t) || (t == s
                    && o@.take(j as int).contains(w)),
            forall|w: u32| #[trigger]
                assignment_view(*acc).contains_key(w) <==> start.contains_key(w) || o@.take(
                    j as int,
                ).contains(w),
            no_empty_bucket(start) ==> no_empty_bucket(assignment_view(*acc)),
        decreases o@.len() - j,
    {
        let w = o[j];
        let ghost prev = assignment_view(*acc);
        let mut bucket = match acc.remove(&w) {
            Some(b) => b,
            None => BTreeSet::new(),
        };
        let ghost had = bucket@;
        bucket.insert(s);
        acc.insert(w, bucket);
        proof {
            let cur = assignment_view(*acc);
            assert(o@.take(j + 1) =~= o@.take(j as int).push(w));
            assert(cur.contains_key(w) && cur[w] == had.insert(s));
            assert(forall|v: u32| v != w ==> (#[trigger] cur.contains_key(v) <==> prev.contains_key(v)));
            assert(forall|v: u32| v != w && #[trigger] cur.contains_key(v) ==> cur[v] == prev[v]);
            assert(prev.contains_key(w) ==> had == prev[w]);
            assert(!prev.contains_key(w) ==> had == Set::<u32>::empty());
            assert forall|v: u32, t: u32| #[trigger]
                owns(cur, v, t) <==> owns(start, v, t) || (t == s
                    && o@.take(j + 1).contains(v)) by {
                assert(owns(prev, v, t) <==> owns(start, v, t) || (t == s && o@.take(
                    j as int,
                ).contains(v)));
                if v != w {
                    assert(owns(cur, v, t) == owns(prev, v, t));
                }
                assert(o@.take(j + 1).contains(v) <==> (o@.take(j as int).contains(v) || v == w));
            }
            assert forall|v: u32| #[trigger]
                cur.contains_key(v) <==> start.contains_key(v) || o@.take(j + 1).contains(v) by {
                assert(o@.take(j + 1).contains(v) <==> (o@.take(j as int).contains(v) || v == w));
            }
            if no_empty_bucket(start) {
                assert forall|v: u32| #[trigger] cur.contains_key(v) implies exists|t: u32| #[trigger] cur[v].contains(t) by {
                    if v == w {
                        assert(cur[v].contains(s));
                    } else {
                        assert(prev.contains_key(v));
                    }
                }
            }
        }
        j += 1;
    }
    proof {
        assert(o@.take(o@.len() as int) =~= o@);
    }
}

/// One more shard placed: `owners(shards[i])` is what `o` holds.
pub(crate) proof fn lemma_places_step(
    before: Map<u32, Set<u32>>,
    after: Map<u32, Set<u32>>,
    shards: Seq<u32>,
    i: int,
    owners: spec_fn(u32) -> Set<u32>,
    o: Seq<u32>,
)
    requires
        0 <= i < shards.len(),
        places(before, shards.take(i), owners),
        forall|w: u32| o.contains(w) <==> owners(shards[i]).contains(w),
        forall|w: u32, t: u32| #[trigger]
            owns(after, w, t) <==> owns(before, w, t) || (t == shards[i] && o.contains(w)),
        no_empty_bucket(before) ==> no_empty_bucket(after),
    ensures
        places(after, shards.take(i + 1), owners),
{
    assert forall|w: u32, t: u32| #[trigger]
        owns(after, w, t) <==> shards.take(i + 1).contains(t) && owners(t).contains(w) by {
        assert(shards.take(i + 1) =~= shards.take(i).push(shards[i]));
        assert(shards.take(i + 1).contains(t) <==> (shards.take(i).contains(t) || t == shards[i]));
        assert(owns(before, w, t) <==> shards.take(i).contains(t) && owners(t).contains(w));
    }
}

} // verus!
