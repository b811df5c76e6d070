use vstd::prelude::*;

verus! {

/// A worker node, known by its identity.
#[derive(Debug, Clone, Copy, PartialEq, Eq, Structural, PartialOrd, Ord, Hash)]
pub struct Worker(pub u32);

/// The identities of a worker list, in list order.
pub open spec fn ids_of(workers: Seq<Worker>) -> Seq<u32> {
    workers.map_values(|w: Worker| w.0)
}

/// The identities of a list, each kept at its first occurrence.
pub open spec fn distinct_ids(ids: Seq<u32>) -> Seq<u32>
    decreases ids.len(),
{
    if ids.len() == 0 {
        ids
    } else {
        let d = distinct_ids(ids.drop_last());
        if d.contains(ids.last()) {
            d
        } else {
            d.push(ids.last())
        }
    }
}

/// Keeping first occurrences loses no identity and leaves no repeat.
pub proof fn lemma_distinct_ids(ids: Seq<u32>)
    ensures
        distinct_ids(ids).no_duplicates(),
        distinct_ids(ids).to_set() == ids.to_set(),
        distinct_ids(ids).len() <= ids.len(),
    decreases ids.len(),
{
    if ids.len() > 0 {
        let p = ids.drop_last();
        lemma_distinct_ids(p);
        let d = distinct_ids(p);
        assert(ids == p.push(ids.last()));
        assert(ids.to_set() =~= p.to_set().insert(ids.last())) by {
            assert forall|x: u32| ids.to_set().contains(x) <==> p.to_set().insert(ids.last()).contains(x) by {
                if ids.contains(x) {
                    let i = choose|i: int| 0 <= i < ids.len() && ids[i] == x;
                    if i < p.len() {
                        assert(p[i] == x);
                    }
                }
                if p.contains(x) {
                    let i = choose|i: int| 0 <= i < p.len() && p[i] == x;
                    assert(ids[i] == x);
                }
            }
        }
        if !d.contains(ids.last()) {
            let e = d.push(ids.last());
            assert(e.to_set() =~= d.to_set().insert(ids.last())) by {
                assert forall|x: u32| e.to_set().contains(x) <==> d.to_set().insert(ids.last()).contains(x) by {
                    if e.contains(x) {
                        let i = choose|i: int| 0 <= i < e.len() && e[i] == x;
                        if i < d.len() {
                            assert(d[i] == x);
                        }
                    }
                    if d.contains(x) {
                        let i = choose|i: int| 0 <= i < d.len() && d[i] == x;
                        assert(e[i] == x);
                    }
                    assert(e[d.len() as int] == ids.last());
                }
            }
        }
    }
}

/// The worker identities of `workers`, each kept once, at its first place.
pub(crate) fn unique_worker_ids(workers: &[Worker]) -> (r: Vec<u32>)
    ensures
        r@ == distinct_ids(ids_of(workers@)),
{
    let mut out: Vec<u32> = Vec::new();
    let mut i: usize = 0;
    while i < workers.len()
        invariant
            i <= workers@.len(),
            out@ == distinct_ids(ids_of(workers@).take(i as int)),
        decreases workers@.len() - i,
    {
        let w = workers[i].0;
        let mut seen = false;
        let mut j: usize = 0;
        while j < out.len()
            invariant
                j <= out@.len(),
                seen <==> exists|k: int| 0 <= k < j && out@[k] == w,
            decreases out@.len() - j,
        {
            if out[j] == w {
                seen = true;
            }
            j += 1;
        }
        let ghost before = ids_of(workers@).take(i as int);
        proof {
            let next = ids_of(workers@).take(i + 1);
            assert(next.drop_last() =~= before);
            assert(next.last() == w);
            assert(seen <==> out@.contains(w));
        }
        if !seen {
            out.push(w);
        }
        i += 1;
    }
    proof {
        assert(ids_of(workers@).take(workers@.len() as int) =~= ids_of(workers@));
    }
    out
}

} // verus!
