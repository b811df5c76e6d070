use std::collections::BTreeSet;
use vstd::prelude::*;
use vstd::set_lib::{lemma_len_subset, lemma_map_size, lemma_set_disjoint_lens};
use vstd::std_specs::btree::spec_btree_keys_iter;
use vstd::std_specs::iter::IteratorSpec;

use crate::placement::{assignment_view, owns, Assignment};

verus! {

broadcast use vstd::seq_lib::group_seq_properties;

/// The (worker, shard) pairs that `m` places.
pub open spec fn placements(m: Map<u32, Set<u32>>) -> Set<(u32, u32)> {
    Set::new(|p: (u32, u32)| owns(m, p.0, p.1))
}

/// The placements present in exactly one of `a` and `b`.
pub open spec fn moved(a: Map<u32, Set<u32>>, b: Map<u32, Set<u32>>) -> Set<(u32, u32)> {
    (placements(a) - placements(b)) + (placements(b) - placements(a))
}

/// The number of placements to create or destroy to go from `a` to `b`.
pub open spec fn cost_of(a: Map<u32, Set<u32>>, b: Map<u32, Set<u32>>) -> nat {
    moved(a, b).len()
}

/// A map with finitely many keys, each mapped to a finite set, places
/// finitely many pairs.
pub proof fn lemma_placements_finite(m: Map<u32, Set<u32>>)
    requires
        m.dom().finite(),
        forall|w: u32| #[trigger] m.contains_key(w) ==> m[w].finite(),
    ensures
        placements(m).finite(),
    decreases m.dom().len(),
{
    if m.dom().len() == 0 {
        assert(m.dom() =~= Set::empty());
        assert(placements(m) =~= Set::empty());
    } else {
        let k = m.dom().choose();
        let rest = m.remove(k);
        assert(rest.dom() =~= m.dom().remove(k));
        lemma_placements_finite(rest);
        let row = m[k].map(|s: u32| (k, s));
        m[k].lemma_map_finite(|s: u32| (k, s));
        assert(placements(m) =~= placements(rest) + row) by {
            assert forall|p: (u32, u32)| placements(m).contains(p) implies (placements(rest)
                + row).contains(p) by {
                if p.0 == k {
                    assert(row.contains((k, p.1)));
                }
            }
        }
    }
}

/// The placements of an assignment are finitely many.
pub proof fn lemma_assignment_finite(a: Assignment)
    ensures
        placements(assignment_view(a)).finite(),
{
    let m = assignment_view(a);
    assert forall|w: u32| #[trigger] m.contains_key(w) implies m[w].finite() by {
        let b: BTreeSet<u32> = a@[w];
        let it = spec_btree_keys_iter(&b).remaining();
        assert(it.unref().to_set() == b@);
    }
    assert(a@.dom().finite());
    assert(m.dom() =~= a@.dom());
    lemma_placements_finite(m);
}

/// How many shards of `sa` worker `w` does not own in `other`.
fn count_missing(w: u32, sa: &BTreeSet<u32>, other: &Assignment) -> (r: usize)
    ensures
        r == sa@.filter(|s: u32| !owns(assignment_view(*other), w, s)).len(),
        sa@.finite(),
{
    let ghost vo = assignment_view(*other);
    let ob = other.get(&w);
    let mut c: usize = 0;
    let ghost mut done: Seq<u32> = Seq::empty();
    let ghost mut seen: Set<u32> = Set::empty();
    let ghost items = spec_btree_keys_iter(sa).remaining();
    proof {
        assert(sa@.len() == sa.len());
    }
    for x in it: sa.iter()
        invariant
            it.seq() == items,
            items.no_duplicates(),
            items.unref().to_set() == sa@,
            items.len() == sa@.len(),
            done.len() <= items.len(),
            sa@.len() <= usize::MAX,
            done.len() == it.index(),
            forall|i: int| 0 <= i < it.index() ==> done[i] == *it.seq()[i],
            seen == done.to_set().filter(|s: u32| !owns(vo, w, s)),
            seen.finite(),
            c == seen.len(),
            c <= it.index(),
            match ob {
                Some(b) => vo.contains_key(w) && vo[w] == b@,
                None => !vo.contains_key(w),
            },
    {
        let s = *x;
        let present = match ob {
            Some(b) => b.contains(&s),
            None => false,
        };
        proof {
            assert(present == owns(vo, w, s));
            assert(!done.contains(s)) by {
                if done.contains(s) {
                    let i = choose|i: int| 0 <= i < done.len() && done[i] == s;
                    assert(it.seq()[i] == it.seq()[it.index()]);
                }
            }
            let d2 = done.push(s);
            assert(d2.to_set() =~= done.to_set().insert(s));
            if !present {
                assert(d2.to_set().filter(|t: u32| !owns(vo, w, t)) =~= seen.insert(s));
            } else {
                assert(d2.to_set().filter(|t: u32| !owns(vo, w, t)) =~= seen);
            }
            done = d2;
            if !present {
                seen = seen.insert(s);
            }
        }
        if !present {
            c += 1;
        }
    }
    proof {
        assert(done.len() == items.len());
        assert(done =~= items.unref());
    }
    c
}

/// How many placements of `a` are missing from `b`.
fn count_one_side(a: &Assignment, b: &Assignment) -> (r: usize)
    requires
        placements(assignment_view(*a)).len() <= usize::MAX,
    ensures
        r == (placements(assignment_view(*a)) - placements(assignment_view(*b))).len(),
{
    let ghost va = assignment_view(*a);
    let ghost vb = assignment_view(*b);
    let ghost target = placements(va) - placements(vb);
    let ghost items = vstd::std_specs::btree::spec_btree_map_iter(a).remaining();
    proof {
        lemma_assignment_finite(*a);
        lemma_len_subset(target, placements(va));
    }
    let mut c: usize = 0;
    let ghost mut done: Seq<u32> = Seq::empty();
    let ghost mut counted: Set<(u32, u32)> = Set::empty();
    for kv in it: a.iter()
        invariant
            it.seq() == items,
            items.len() == a@.dom().len(),
            forall|i: int|
                #![trigger items[i]]
                0 <= i < items.len() ==> a@.contains_key(*items[i].0) && a@[*items[i].0]
                    == *items[i].1,
            forall|k: u32| #[trigger] a@.contains_key(k) ==> items.contains((&k, &a@[k])),
            items.no_duplicates(),
            target == placements(va) - placements(vb),
            target.finite(),
            target.len() <= usize::MAX,
            va == assignment_view(*a),
            vb == assignment_view(*b),
            done.len() == it.index(),
            done.len() <= items.len(),
            forall|i: int| 0 <= i < it.index() ==> done[i] == *items[i].0,
            counted == Set::new(|p: (u32, u32)| done.contains(p.0) && target.contains(p)),
            counted.finite(),
            c == counted.len(),
    {
        let w = *kv.0;
        let n = count_missing(w, kv.1, b);
        proof {
            let i = it.index();
            assert(items[i] == kv);
            let row = kv.1@.filter(|s: u32| !owns(vb, w, s));
            let added = row.map(|s: u32| (w, s));
            assert(!done.contains(w)) by {
                if done.contains(w) {
                    let j = choose|j: int| 0 <= j < done.len() && done[j] == w;
                    assert(items[j] == items[i]);
                }
            }
            lemma_map_size(row, added, |s: u32| (w, s));
            let d2 = done.push(w);
            let c2 = Set::new(|p: (u32, u32)| d2.contains(p.0) && target.contains(p));
            assert(c2 =~= counted + added) by {
                assert forall|p: (u32, u32)| c2.contains(p) implies (counted + added).contains(p) by {
                    if p.0 == w {
                        assert(row.contains(p.1));
                        assert(added.contains((w, p.1)));
                    }
                }
            }
            assert(counted.disjoint(added));
            lemma_set_disjoint_lens(counted, added);
            assert(c2.subset_of(target));
            lemma_len_subset(c2, target);
            done = d2;
            counted = c2;
        }
        c = c + n;
    }
    proof {
        assert(done.len() == items.len());
        assert(counted =~= target) by {
            assert forall|p: (u32, u32)| target.contains(p) implies counted.contains(p) by {
                let k = p.0;
                assert(a@.contains_key(k));
                let j = choose|j: int| 0 <= j < items.len() && items[j] == (&k, &a@[k]);
                assert(done[j] == k);
            }
        }
    }
    c
}

/// The number of (worker, shard) placements present in exactly one of
/// `before` and `after`: what must be created or destroyed to go from one
/// to the other.
pub fn reassignment_cost(before: &Assignment, after: &Assignment) -> (r: usize)
    requires
        placements(assignment_view(*before)).len() + placements(assignment_view(*after)).len()
            <= usize::MAX,
    ensures
        r == cost_of(assignment_view(*before), assignment_view(*after)),
{
    let ghost pa = placements(assignment_view(*before));
    let ghost pb = placements(assignment_view(*after));
    proof {
        lemma_assignment_finite(*before);
        lemma_assignment_finite(*after);
        lemma_len_subset(pa - pb, pa);
        lemma_len_subset(pb - pa, pb);
        assert((pa - pb).disjoint(pb - pa));
        lemma_set_disjoint_lens(pa - pb, pb - pa);
    }
    let gone = count_one_side(before, after);
    let added = count_one_side(after, before);
    gone + added
}

} // verus!
