use vstd::prelude::*;
use vstd::set_lib::lemma_len_subset;

use crate::cost::{cost_of, lemma_assignment_finite, moved, placements};
use crate::hashing::shard_hash_of;
use crate::modulo::{lemma_wrap_index, modulo_owners, modulo_run, run_start};
use crate::placement::{assignment_view, owns, places, redundancy_error, Assignment};
use crate::rendezvous::{
    lemma_ranked_prefix_is_top, rank, ranked_prefix, ranks_before, rendezvous_owners, top_ranked,
};
use crate::workers::{distinct_ids, ids_of, lemma_distinct_ids, Worker};

verus! {

broadcast use vstd::seq_lib::group_seq_properties;

/// The workers that own shard `s` in `m`.
pub open spec fn holders(m: Map<u32, Set<u32>>, s: u32) -> Set<u32> {
    Set::new(|w: u32| owns(m, w, s))
}

/// Two assignments that both place the same shards on the same owners are
/// equal.  Each strategy's result is pinned down this way by its inputs, so
/// calling it twice on the same inputs gives the same assignment.
pub proof fn lemma_placement_unique(
    m1: Map<u32, Set<u32>>,
    m2: Map<u32, Set<u32>>,
    shards: Seq<u32>,
    owners: spec_fn(u32) -> Set<u32>,
)
    requires
        places(m1, shards, owners),
        places(m2, shards, owners),
    ensures
        m1 == m2,
{
    assert forall|w: u32| m1.contains_key(w) implies m2.contains_key(w) by {
        let s = choose|s: u32| #[trigger] m1[w].contains(s);
        assert(owns(m1, w, s));
        assert(owns(m2, w, s));
    }
    assert forall|w: u32| m2.contains_key(w) implies m1.contains_key(w) by {
        let s = choose|s: u32| #[trigger] m2[w].contains(s);
        assert(owns(m2, w, s));
        assert(owns(m1, w, s));
    }
    assert forall|w: u32| m1.contains_key(w) implies m1[w] =~= m2[w] by {
        assert forall|s: u32| m1[w].contains(s) <==> m2[w].contains(s) by {
            assert(owns(m1, w, s) <==> owns(m2, w, s));
        }
    }
    assert(m1 =~= m2);
}

/// The distinct workers number as many as the set of identities.
proof fn lemma_pool_size(workers: Seq<Worker>)
    ensures
        ids_of(workers).to_set().finite(),
        ids_of(workers).to_set().len() == distinct_ids(ids_of(workers)).len(),
{
    lemma_distinct_ids(ids_of(workers));
    distinct_ids(ids_of(workers)).unique_seq_to_set();
}

/// A modulo run over distinct workers, no longer than the list, names
/// `r` different workers.
pub proof fn lemma_modulo_owners_count(workers: Seq<Worker>, s: u32, r: nat)
    requires
        redundancy_error(workers, r) is None,
    ensures
        modulo_owners(workers, s, r).len() == r,
{
    let ids = distinct_ids(ids_of(workers));
    lemma_distinct_ids(ids_of(workers));
    let n = ids.len() as int;
    let a = run_start(ids, s);
    let run = modulo_run(ids, s, r);
    assert(0 <= a < n) by {
        vstd::arithmetic::div_mod::lemma_mod_bound(shard_hash_of(s) as int, n);
    }
    assert(run.no_duplicates()) by {
        assert forall|i: int, j: int| 0 <= i < run.len() && 0 <= j < run.len() && i != j implies run[i]
            != run[j] by {
            lemma_wrap_index(a + i, n);
            lemma_wrap_index(a + j, n);
        }
    }
    run.unique_seq_to_set();
}

/// Each shard of the input lands in exactly `r` workers' entries under the
/// modulo strategy.
pub proof fn lemma_modulo_coverage(
    m: Map<u32, Set<u32>>,
    workers: Seq<Worker>,
    shards: Seq<u32>,
    r: nat,
    s: u32,
)
    requires
        redundancy_error(workers, r) is None,
        places(m, shards, |t: u32| modulo_owners(workers, t, r)),
        shards.contains(s),
    ensures
        holders(m, s).len() == r,
{
    lemma_modulo_owners_count(workers, s, r);
    assert(holders(m, s) =~= modulo_owners(workers, s, r)) by {
        assert forall|w: u32| holders(m, s).contains(w) <==> modulo_owners(workers, s, r).contains(
            w,
        ) by {
            assert(owns(m, w, s) <==> shards.contains(s) && modulo_owners(workers, s, r).contains(
                w,
            ));
        }
    }
}

/// A finite, non-empty set of workers has one that ranks ahead of all the
/// others for shard `s`.
pub proof fn lemma_first_ranked_exists(s: u32, pool: Set<u32>)
    requires
        pool.finite(),
        pool.len() > 0,
    ensures
        exists|m: u32|
            pool.contains(m) && forall|v: u32|
                pool.contains(v) && v != m ==> #[trigger] ranks_before(s, m, v),
    decreases pool.len(),
{
    let x = pool.choose();
    let rest = pool.remove(x);
    if rest.len() == 0 {
        assert forall|v: u32| pool.contains(v) && v != x implies #[trigger] ranks_before(s, x, v) by {
            assert(rest.contains(v));
        }
    } else {
        lemma_first_ranked_exists(s, rest);
        let m = choose|m: u32|
            rest.contains(m) && forall|v: u32|
                rest.contains(v) && v != m ==> #[trigger] ranks_before(s, m, v);
        if ranks_before(s, x, m) {
            assert forall|v: u32| pool.contains(v) && v != x implies #[trigger] ranks_before(s, x, v) by {
                if v != m {
                    assert(ranks_before(s, m, v));
                }
            }
        } else {
            assert forall|v: u32| pool.contains(v) && v != m implies #[trigger] ranks_before(s, m, v) by {
                if v != x {
                    assert(rest.contains(v));
                }
            }
        }
    }
}

/// Every pool of at least `r` workers has a ranked prefix of `r` workers.
pub proof fn lemma_ranked_prefix_exists(s: u32, pool: Set<u32>, r: nat)
    requires
        pool.finite(),
        r <= pool.len(),
    ensures
        exists|c: Set<u32>| ranked_prefix(s, pool, c) && c.len() == r,
    decreases r,
{
    if r == 0 {
        assert(ranked_prefix(s, pool, Set::empty()));
        assert(Set::<u32>::empty().len() == 0);
    } else {
        lemma_ranked_prefix_exists(s, pool, (r - 1) as nat);
        let c = choose|c: Set<u32>| ranked_prefix(s, pool, c) && c.len() == r - 1;
        lemma_len_subset(c, pool);
        let rest = pool - c;
        assert(rest.len() > 0) by {
            if rest.len() == 0 {
                assert(rest =~= Set::empty());
                assert forall|y: u32| pool.contains(y) implies c.contains(y) by {
                    if !c.contains(y) {
                        assert(rest.contains(y));
                    }
                }
                lemma_len_subset(pool, c);
            }
        }
        lemma_first_ranked_exists(s, rest);
        let m = choose|m: u32|
            rest.contains(m) && forall|v: u32|
                rest.contains(v) && v != m ==> #[trigger] ranks_before(s, m, v);
        let c2 = c.insert(m);
        assert forall|x: u32, y: u32|
            #![trigger c2.contains(x), pool.contains(y)]
            c2.contains(x) && pool.contains(y) && !c2.contains(y) implies ranks_before(s, x, y) by {
            if x != m {
                assert(c.contains(x));
            } else {
                assert(rest.contains(y));
            }
        }
        assert(ranked_prefix(s, pool, c2));
        assert(!c.contains(m));
        assert(c2.len() == r);
    }
}

/// For every shard, the first-ranked `r` workers of a pool of at least `r`
/// number exactly `r`.
pub proof fn lemma_top_ranked_count(s: u32, pool: Set<u32>, r: nat)
    requires
        pool.finite(),
        r <= pool.len(),
    ensures
        top_ranked(s, pool, r).len() == r,
{
    lemma_ranked_prefix_exists(s, pool, r);
    let c = choose|c: Set<u32>| ranked_prefix(s, pool, c) && c.len() == r;
    lemma_ranked_prefix_is_top(s, pool, c, r);
}

/// Each shard of the input lands in exactly `r` workers' entries under the
/// rendezvous strategy.
pub proof fn lemma_rendezvous_coverage(
    m: Map<u32, Set<u32>>,
    workers: Seq<Worker>,
    shards: Seq<u32>,
    r: nat,
    s: u32,
)
    requires
        redundancy_error(workers, r) is None,
        places(m, shards, |t: u32| rendezvous_owners(workers, t, r)),
        shards.contains(s),
    ensures
        holders(m, s).len() == r,
{
    lemma_pool_size(workers);
    lemma_top_ranked_count(s, ids_of(workers).to_set(), r);
    assert(holders(m, s) =~= rendezvous_owners(workers, s, r)) by {
        assert forall|w: u32| holders(m, s).contains(w) <==> rendezvous_owners(
            workers,
            s,
            r,
        ).contains(w) by {
            assert(owns(m, w, s) <==> shards.contains(s) && rendezvous_owners(
                workers,
                s,
                r,
            ).contains(w));
        }
    }
}

/// Removing a worker that is not among a shard's owners leaves that
/// shard's rendezvous owners unchanged.
pub proof fn lemma_rendezvous_stable_on_removal(workers: Seq<Worker>, i: int, s: u32, r: nat)
    requires
        0 <= i < workers.len(),
        ids_of(workers).no_duplicates(),
        !rendezvous_owners(workers, s, r).contains(workers[i].0),
    ensures
        rendezvous_owners(workers.remove(i), s, r) == rendezvous_owners(workers, s, r),
{
    let pool = ids_of(workers).to_set();
    let x = workers[i].0;
    let smaller = ids_of(workers.remove(i)).to_set();
    assert(ids_of(workers.remove(i)) =~= ids_of(workers).remove(i));
    assert(smaller =~= pool.remove(x)) by {
        let ids = ids_of(workers);
        assert(ids[i] == x);
        assert forall|w: u32| smaller.contains(w) <==> pool.remove(x).contains(w) by {
            assert(pool.contains(w) <==> ids.contains(w));
            assert(smaller.contains(w) <==> ids.remove(i).contains(w));
            if pool.contains(w) && w != x {
                let j = choose|j: int| 0 <= j < ids.len() && ids[j] == w;
                if j < i {
                    assert(ids.remove(i)[j] == w);
                } else {
                    assert(ids.remove(i)[j - 1] == w);
                }
            }
            if smaller.contains(w) {
                let j = choose|j: int| 0 <= j < ids.remove(i).len() && ids.remove(i)[j] == w;
                if j < i {
                    assert(ids[j] == w);
                    assert(ids.contains(w));
                } else {
                    assert(ids[j + 1] == w);
                    assert(ids.contains(w));
                }
            }
        }
    }
    lemma_pool_size(workers);
    let top = top_ranked(s, pool, r);
    if r <= pool.len() {
        lemma_ranked_prefix_exists(s, pool, r);
        let c = choose|c: Set<u32>| ranked_prefix(s, pool, c) && c.len() == r;
        lemma_ranked_prefix_is_top(s, pool, c, r);
        assert(ranked_prefix(s, smaller, c));
        lemma_ranked_prefix_is_top(s, smaller, c, r);
    } else {
        assert forall|w: u32| pool.contains(w) implies rank(s, pool, w) < r by {
            pool.lemma_len_filter(|v: u32| ranks_before(s, v, w));
        }
        assert(ids_of(workers)[i] == x);
        assert(pool.contains(x));
        assert(top.contains(x));
    }
}

/// The cost of going from one assignment to another is the cost of going
/// back, and it is zero exactly when both hold the same placements.
pub proof fn lemma_cost_symmetric(a: Assignment, b: Assignment)
    ensures
        cost_of(assignment_view(a), assignment_view(b)) == cost_of(
            assignment_view(b),
            assignment_view(a),
        ),
        cost_of(assignment_view(a), assignment_view(b)) == 0 <==> placements(assignment_view(a))
            == placements(assignment_view(b)),
{
    let va = assignment_view(a);
    let vb = assignment_view(b);
    let pa = placements(va);
    let pb = placements(vb);
    assert(moved(va, vb) =~= moved(vb, va));
    lemma_assignment_finite(a);
    lemma_assignment_finite(b);
    lemma_len_subset(moved(va, vb), pa + pb);
    if pa == pb {
        assert(moved(va, vb) =~= Set::empty());
    }
    if moved(va, vb).len() == 0 {
        assert(moved(va, vb) =~= Set::empty());
        assert forall|p: (u32, u32)| pa.contains(p) <==> pb.contains(p) by {
            assert(!moved(va, vb).contains(p));
        }
        assert(pa =~= pb);
    }
}

/// A modulo run as long as the list of distinct workers covers them all.
pub proof fn lemma_modulo_full_run(workers: Seq<Worker>, s: u32)
    requires
        distinct_ids(ids_of(workers)).len() > 0,
    ensures
        modulo_owners(workers, s, distinct_ids(ids_of(workers)).len()) == ids_of(
            workers,
        ).to_set(),
{
    let ids = distinct_ids(ids_of(workers));
    lemma_distinct_ids(ids_of(workers));
    let n = ids.len() as int;
    let a = run_start(ids, s);
    let run = modulo_run(ids, s, n as nat);
    assert(0 <= a < n) by {
        vstd::arithmetic::div_mod::lemma_mod_bound(shard_hash_of(s) as int, n);
    }
    assert forall|w: u32| run.to_set().contains(w) <==> ids.to_set().contains(w) by {
        if run.contains(w) {
            let i = choose|i: int| 0 <= i < run.len() && run[i] == w;
            lemma_wrap_index(a + i, n);
            assert(ids[(a + i) % n] == w);
        }
        if ids.contains(w) {
            let k = choose|k: int| 0 <= k < n && ids[k] == w;
            let i = if k >= a {
                k - a
            } else {
                k + n - a
            };
            lemma_wrap_index(a + i, n);
            assert(run[i] == w);
        }
    }
    assert(run.to_set() =~= ids.to_set());
}

/// With as many replicas as workers, the first-ranked workers are all of them.
pub proof fn lemma_top_ranked_full(s: u32, pool: Set<u32>)
    requires
        pool.finite(),
    ensures
        top_ranked(s, pool, pool.len()) == pool,
{
    assert forall|w: u32| pool.contains(w) implies rank(s, pool, w) < pool.len() by {
        let ahead = pool.filter(|v: u32| ranks_before(s, v, w));
        assert(ahead.subset_of(pool.remove(w)));
        lemma_len_subset(ahead, pool.remove(w));
    }
    assert(top_ranked(s, pool, pool.len()) =~= pool);
}

/// Where every shard's owners are the whole pool, each worker of the pool
/// owns exactly the shards of the input.
proof fn lemma_everyone_owns_everything(
    m: Map<u32, Set<u32>>,
    shards: Seq<u32>,
    owners: spec_fn(u32) -> Set<u32>,
    pool: Set<u32>,
)
    requires
        places(m, shards, owners),
        forall|t: u32| #[trigger] owners(t) == pool,
    ensures
        forall|w: u32, t: u32| pool.contains(w) ==> (#[trigger] owns(m, w, t) <==> shards.contains(t)),
{
    assert forall|w: u32, t: u32| pool.contains(w) implies (#[trigger] owns(m, w, t)
        <==> shards.contains(t)) by {
        assert(owners(t) == pool);
    }
}

/// Under the modulo strategy with as many replicas as distinct workers,
/// every worker owns every shard of the input, and no other.
pub proof fn lemma_modulo_full_replication(
    m: Map<u32, Set<u32>>,
    workers: Seq<Worker>,
    shards: Seq<u32>,
)
    requires
        distinct_ids(ids_of(workers)).len() > 0,
        places(
            m,
            shards,
            |t: u32| modulo_owners(workers, t, distinct_ids(ids_of(workers)).len()),
        ),
    ensures
        forall|w: u32, t: u32|
            ids_of(workers).contains(w) ==> (#[trigger] owns(m, w, t) <==> shards.contains(t)),
{
    let n = distinct_ids(ids_of(workers)).len();
    let owners = |t: u32| modulo_owners(workers, t, n);
    let pool = ids_of(workers).to_set();
    assert forall|t: u32| #[trigger] owners(t) == pool by {
        lemma_modulo_full_run(workers, t);
    }
    lemma_everyone_owns_everything(m, shards, owners, pool);
}

/// Under the rendezvous strategy with as many replicas as distinct workers,
/// every worker owns every shard of the input, and no other.
pub proof fn lemma_rendezvous_full_replication(
    m: Map<u32, Set<u32>>,
    workers: Seq<Worker>,
    shards: Seq<u32>,
)
    requires
        places(
            m,
            shards,
            |t: u32| rendezvous_owners(workers, t, distinct_ids(ids_of(workers)).len()),
        ),
    ensures
        forall|w: u32, t: u32|
            ids_of(workers).contains(w) ==> (#[trigger] owns(m, w, t) <==> shards.contains(t)),
{
    let n = distinct_ids(ids_of(workers)).len();
    let owners = |t: u32| rendezvous_owners(workers, t, n);
    let pool = ids_of(workers).to_set();
    lemma_pool_size(workers);
    assert forall|t: u32| #[trigger] owners(t) == pool by {
        lemma_top_ranked_full(t, pool);
    }
    lemma_everyone_owns_everything(m, shards, owners, pool);
}

} // verus!
