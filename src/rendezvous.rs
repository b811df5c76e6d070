use std::collections::BTreeMap;
use vstd::prelude::*;
use vstd::set_lib::lemma_len_subset;

use crate::hashing::{hash_pair, pair_hash_of};
use crate::placement::{
    add_shard, assignment_view, lemma_places_step, places, redundancy_error, AssignError,
    Assignment,
};
use crate::workers::{distinct_ids, ids_of, lemma_distinct_ids, unique_worker_ids, Worker};

verus! {

broadcast use vstd::seq_lib::group_seq_properties;

/// For shard `s`, worker `a` ranks ahead of worker `b`: a lower pair hash,
/// or an equal one and a lower identity.
pub open spec fn ranks_before(s: u32, a: u32, b: u32) -> bool {
    pair_hash_of(s, a) < pair_hash_of(s, b) || (pair_hash_of(s, a) == pair_hash_of(s, b) && a
        < b)
}

/// How many workers of `pool` rank ahead of `w` for shard `s`.
pub open spec fn rank(s: u32, pool: Set<u32>, w: u32) -> nat {
    pool.filter(|v: u32| ranks_before(s, v, w)).len()
}

/// The `r` workers of `pool` that rank first for shard `s`.
pub open spec fn top_ranked(s: u32, pool: Set<u32>, r: nat) -> Set<u32> {
    pool.filter(|w: u32| rank(s, pool, w) < r)
}

/// The owners of shard `s` under the rendezvous strategy.  Only the set of
/// worker identities matters, not their order or repetition in the list.
pub open spec fn rendezvous_owners(workers: Seq<Worker>, s: u32, r: nat) -> Set<u32> {
    top_ranked(s, ids_of(workers).to_set(), r)
}

/// `c` is a part of `pool` each of whose members ranks ahead of every
/// member of `pool` outside it.
pub open spec fn ranked_prefix(s: u32, pool: Set<u32>, c: Set<u32>) -> bool {
    &&& c.subset_of(pool)
    &&& forall|x: u32, y: u32|
        #![trigger c.contains(x), pool.contains(y)]
        c.contains(x) && pool.contains(y) && !c.contains(y) ==> ranks_before(s, x, y)
}

/// A ranked prefix of `r` workers is the set of the `r` first-ranked ones.
pub proof fn lemma_ranked_prefix_is_top(s: u32, pool: Set<u32>, c: Set<u32>, r: nat)
    requires
        pool.finite(),
        ranked_prefix(s, pool, c),
        c.len() == r,
    ensures
        c == top_ranked(s, pool, r),
{
    lemma_len_subset(c, pool);
    assert forall|w: u32| pool.contains(w) implies (c.contains(w) <==> rank(s, pool, w) < r) by {
        let ahead = pool.filter(|v: u32| ranks_before(s, v, w));
        if c.contains(w) {
            assert(ahead.subset_of(c.remove(w))) by {
                assert forall|v: u32| ahead.contains(v) implies c.remove(w).contains(v) by {
                    if !c.contains(v) {
                        assert(ranks_before(s, w, v));
                    }
                }
            }
            lemma_len_subset(ahead, c.remove(w));
        } else {
            assert(c.subset_of(ahead)) by {
                assert forall|v: u32| c.contains(v) implies ahead.contains(v) by {
                    assert(ranks_before(s, v, w));
                }
            }
            pool.lemma_len_filter(|v: u32| ranks_before(s, v, w));
            lemma_len_subset(c, ahead);
        }
    }
    assert(c =~= top_ranked(s, pool, r));
}

/// The `r` first-ranked workers of `ids` for shard `s`, in ranking order.
fn top_of(ids: &Vec<u32>, s: u32, r: usize) -> (o: Vec<u32>)
    requires
        ids@.no_duplicates(),
        r <= ids@.len(),
    ensures
        o@.to_set() == top_ranked(s, ids@.to_set(), r as nat),
{
    let n = ids.len();
    let ghost pool = ids@.to_set();
    let mut scores: Vec<u64> = Vec::new();
    let mut taken: Vec<bool> = Vec::new();
    let mut j: usize = 0;
    while j < n
        invariant
            j <= n == ids@.len(),
            scores@.len() == j,
            taken@.len() == j,
            forall|k: int| 0 <= k < j ==> scores@[k] == pair_hash_of(s, ids@[k]),
            forall|k: int| 0 <= k < j ==> !taken@[k],
        decreases n - j,
    {
        scores.push(hash_pair(s, ids[j]));
        taken.push(false);
        j += 1;
    }
    let mut o: Vec<u32> = Vec::new();
    let mut k: usize = 0;
    while k < r
        invariant
            k <= r <= n == ids@.len(),
            ids@.no_duplicates(),
            pool == ids@.to_set(),
            scores@.len() == n,
            taken@.len() == n,
            forall|q: int| 0 <= q < n ==> scores@[q] == pair_hash_of(s, ids@[q]),
            o@.len() == k,
            o@.no_duplicates(),
            forall|q: int| 0 <= q < n ==> (taken@[q] <==> o@.contains(ids@[q])),
            ranked_prefix(s, pool, o@.to_set()),
        decreases r - k,
    {
        proof {
            assert(exists|q: int| 0 <= q < n && !taken@[q]) by {
                if forall|q: int| 0 <= q < n ==> taken@[q] {
                    assert forall|y: u32| pool.contains(y) implies o@.to_set().contains(y) by {
                        let p = choose|p: int| 0 <= p < n && ids@[p] == y;
                        assert(taken@[p]);
                    }
                    o@.unique_seq_to_set();
                    ids@.unique_seq_to_set();
                    lemma_len_subset(pool, o@.to_set());
                }
            }
        }
        let mut best: usize = n;
        let mut q: usize = 0;
        while q < n
            invariant
                q <= n == ids@.len(),
                ids@.no_duplicates(),
                scores@.len() == n,
                taken@.len() == n,
                forall|p: int| 0 <= p < n ==> scores@[p] == pair_hash_of(s, ids@[p]),
                best == n || (best < q && !taken@[best as int]),
                best == n ==> forall|p: int| 0 <= p < q ==> taken@[p],
                best < n ==> forall|p: int|
                    0 <= p < q && !taken@[p] && p != best ==> ranks_before(
                        s,
                        ids@[best as int],
                        ids@[p],
                    ),
            decreases n - q,
        {
            if !taken[q] {
                if best == n || scores[q] < scores[best] || (scores[q] == scores[best] && ids[q]
                    < ids[best]) {
                    best = q;
                }
            }
            q += 1;
        }
        let w = ids[best];
        proof {
            let c = o@.to_set();
            let c2 = o@.push(w).to_set();
            assert(c2 =~= c.insert(w));
            assert(!o@.contains(w));
            assert forall|x: u32, y: u32|
                #![trigger c2.contains(x), pool.contains(y)]
                c2.contains(x) && pool.contains(y) && !c2.contains(y) implies ranks_before(
                s,
                x,
                y,
            ) by {
                let p = choose|p: int| 0 <= p < n && ids@[p] == y;
                assert(!taken@[p]);
                if x == w {
                    assert(p != best);
                } else {
                    assert(c.contains(x));
                }
            }
            assert forall|q2: int| 0 <= q2 < n implies (taken@.update(best as int, true)[q2]
                <==> o@.push(w).contains(ids@[q2])) by {
                if q2 != best {
                    assert(ids@[q2] != w);
                }
            }
        }
        taken.set(best, true);
        o.push(w);
        k += 1;
    }
    proof {
        o@.unique_seq_to_set();
        lemma_ranked_prefix_is_top(s, pool, o@.to_set(), r as nat);
    }
    o
}

/// Places each shard on the `redundancy` workers that rank first for it:
/// lowest pair hash of (shard, worker), ties broken by lower identity.
///
/// A worker listed more than once counts once.  Refused when `redundancy`
/// is zero or exceeds the number of distinct workers.
pub fn rendevoux_assign(workers: &[Worker], shards: &[u32], redundancy: usize) -> (res: Result<
    Assignment,
    AssignError,
>)
    ensures
        match redundancy_error(workers@, redundancy as nat) {
            Some(e) => res == Err::<Assignment, AssignError>(e),
            None => res matches Ok(a) && places(
                assignment_view(a),
                shards@,
                |s: u32| rendezvous_owners(workers@, s, redundancy as nat),
            ),
        },
{
    if redundancy == 0 {
        return Err(AssignError::ZeroRedundancy);
    }
    let ids = unique_worker_ids(workers);
    if redundancy > ids.len() {
        return Err(AssignError::TooFewWorkers);
    }
    proof {
        lemma_distinct_ids(ids_of(workers@));
    }
    let ghost owners = |s: u32| rendezvous_owners(workers@, s, redundancy as nat);
    let mut acc: Assignment = BTreeMap::new();
    let mut i: usize = 0;
    proof {
        assert(assignment_view(acc) =~= Map::empty());
    }
    while i < shards.len()
        invariant
            i <= shards@.len(),
            0 < redundancy <= ids@.len(),
            ids@ == distinct_ids(ids_of(workers@)),
            ids@.no_duplicates(),
            ids@.to_set() == ids_of(workers@).to_set(),
            owners == (|s: u32| rendezvous_owners(workers@, s, redundancy as nat)),
            places(assignment_view(acc), shards@.take(i as int), owners),
        decreases shards@.len() - i,
    {
        let s = shards[i];
        let o = top_of(&ids, s, redundancy);
        let ghost before = assignment_view(acc);
        add_shard(&mut acc, s, &o);
        proof {
            assert forall|w: u32| o@.contains(w) <==> owners(s).contains(w) by {
                assert(o@.contains(w) <==> o@.to_set().contains(w));
            }
            lemma_places_step(before, assignment_view(acc), shards@, i as int, owners, o@);
        }
        i += 1;
    }
    proof {
        assert(shards@.take(shards@.len() as int) =~= shards@);
    }
    Ok(acc)
}

} // verus!
