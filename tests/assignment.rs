use std::collections::{BTreeMap, BTreeSet};

use shard_assign::{naive_assign, reassignment_cost, rendevoux_assign, AssignError, Assignment, Worker};

fn assignment(entries: &[(u32, &[u32])]) -> Assignment {
    let mut acc: Assignment = BTreeMap::new();
    for (w, shards) in entries {
        acc.insert(*w, shards.iter().cloned().collect());
    }
    acc
}

fn four_workers() -> Vec<Worker> {
    vec![Worker(100), Worker(200), Worker(300), Worker(400)]
}

fn holders_of(a: &Assignment, s: u32) -> usize {
    a.values().filter(|b| b.contains(&s)).count()
}

#[test]
fn naive_smoke_test() {
    let workers = four_workers();
    let shards: Vec<u32> = (1..=8).collect();

    assert_eq!(
        naive_assign(&workers, &shards, 1).unwrap(),
        assignment(&[(100, &[1, 4]), (200, &[2]), (300, &[3, 7]), (400, &[5, 6, 8])]),
    );

    assert_eq!(
        naive_assign(&workers, &shards, 2).unwrap(),
        assignment(&[
            (100, &[1, 4, 5, 6, 8]),
            (200, &[1, 2, 4]),
            (300, &[2, 3, 7]),
            (400, &[3, 5, 6, 7, 8]),
        ]),
    );
}

#[test]
fn rendevous_smoke_test() {
    let workers = four_workers();
    let shards: Vec<u32> = (1..=8).collect();

    assert_eq!(
        rendevoux_assign(&workers, &shards, 1).unwrap(),
        assignment(&[(100, &[4, 7]), (200, &[2, 6, 8]), (300, &[5]), (400, &[1, 3])]),
    );

    assert_eq!(
        rendevoux_assign(&workers, &shards, 2).unwrap(),
        assignment(&[
            (100, &[2, 4, 7]),
            (200, &[2, 3, 4, 5, 6, 7, 8]),
            (300, &[1, 5]),
            (400, &[1, 3, 6, 8]),
        ]),
    );
}

#[test]
fn reassignment_score_test() {
    let workers: Vec<Worker> = (0..100).map(|i| Worker(100 * i)).collect();
    let shards: Vec<u32> = (1..=800).collect();

    assert_eq!(
        reassignment_cost(
            &naive_assign(&workers[0..], &shards, 1).unwrap(),
            &naive_assign(&workers[1..], &shards, 1).unwrap(),
        ),
        1_590
    );
    assert_eq!(
        reassignment_cost(
            &rendevoux_assign(&workers[0..], &shards, 1).unwrap(),
            &rendevoux_assign(&workers[1..], &shards, 1).unwrap(),
        ),
        18
    );
}

#[test]
fn zero_redundancy_is_refused() {
    let workers = four_workers();
    assert_eq!(naive_assign(&workers, &[1, 2], 0), Err(AssignError::ZeroRedundancy));
    assert_eq!(rendevoux_assign(&workers, &[1, 2], 0), Err(AssignError::ZeroRedundancy));
}

#[test]
fn too_few_workers_is_refused() {
    let workers = four_workers();
    assert_eq!(naive_assign(&workers, &[1, 2], 5), Err(AssignError::TooFewWorkers));
    assert_eq!(rendevoux_assign(&workers, &[1, 2], 5), Err(AssignError::TooFewWorkers));
}

#[test]
fn no_workers_is_refused() {
    assert_eq!(naive_assign(&[], &[1, 2, 3], 1), Err(AssignError::TooFewWorkers));
    assert_eq!(rendevoux_assign(&[], &[1, 2, 3], 1), Err(AssignError::TooFewWorkers));
}

#[test]
fn repeated_workers_count_once() {
    let listed = vec![Worker(100), Worker(200), Worker(100), Worker(300), Worker(400), Worker(200)];
    let shards: Vec<u32> = (1..=8).collect();
    assert_eq!(naive_assign(&listed, &shards, 5), Err(AssignError::TooFewWorkers));
    assert_eq!(
        naive_assign(&listed, &shards, 2).unwrap(),
        naive_assign(&four_workers(), &shards, 2).unwrap()
    );
    assert_eq!(
        rendevoux_assign(&listed, &shards, 2).unwrap(),
        rendevoux_assign(&four_workers(), &shards, 2).unwrap()
    );
}

#[test]
fn no_shards_gives_empty_assignment() {
    let workers = four_workers();
    assert!(naive_assign(&workers, &[], 2).unwrap().is_empty());
    assert!(rendevoux_assign(&workers, &[], 2).unwrap().is_empty());
}

#[test]
fn every_shard_has_exactly_r_holders() {
    let workers: Vec<Worker> = (1..=10).map(Worker).collect();
    let shards: Vec<u32> = (1..=50).collect();
    for r in 1..=10usize {
        let a = naive_assign(&workers, &shards, r).unwrap();
        let b = rendevoux_assign(&workers, &shards, r).unwrap();
        for &s in &shards {
            assert_eq!(holders_of(&a, s), r);
            assert_eq!(holders_of(&b, s), r);
        }
    }
}

#[test]
fn same_inputs_same_assignment() {
    let workers = four_workers();
    let shards: Vec<u32> = (1..=30).collect();
    assert_eq!(naive_assign(&workers, &shards, 2), naive_assign(&workers, &shards, 2));
    assert_eq!(rendevoux_assign(&workers, &shards, 3), rendevoux_assign(&workers, &shards, 3));
}

#[test]
fn rendezvous_removal_moves_only_owned_shards() {
    let workers: Vec<Worker> = (0..20).map(|i| Worker(7 * i + 3)).collect();
    let shards: Vec<u32> = (1..=200).collect();
    let removed = workers[5];
    let mut fewer = workers.clone();
    fewer.remove(5);
    let before = rendevoux_assign(&workers, &shards, 2).unwrap();
    let after = rendevoux_assign(&fewer, &shards, 2).unwrap();
    let owned_by_removed: BTreeSet<u32> = before.get(&removed.0).cloned().unwrap_or_default();
    for &s in &shards {
        let holders_before: BTreeSet<u32> =
            before.iter().filter(|(_, b)| b.contains(&s)).map(|(w, _)| *w).collect();
        let holders_after: BTreeSet<u32> =
            after.iter().filter(|(_, b)| b.contains(&s)).map(|(w, _)| *w).collect();
        if !owned_by_removed.contains(&s) {
            assert_eq!(holders_before, holders_after);
        }
    }
    assert_eq!(
        reassignment_cost(&before, &after),
        2 * owned_by_removed.len()
    );
}

#[test]
fn cost_is_symmetric_and_zero_on_equal() {
    let a = assignment(&[(1, &[1, 2, 3]), (2, &[4])]);
    let b = assignment(&[(1, &[2, 3, 5]), (3, &[4, 6])]);
    assert_eq!(reassignment_cost(&a, &b), 5);
    assert_eq!(reassignment_cost(&b, &a), 5);
    assert_eq!(reassignment_cost(&a, &a.clone()), 0);
    assert_eq!(reassignment_cost(&BTreeMap::new(), &a), 4);
}

#[test]
fn full_replication_gives_every_shard_to_every_worker() {
    let workers = four_workers();
    let shards: Vec<u32> = (1..=8).collect();
    let all: BTreeSet<u32> = shards.iter().cloned().collect();
    for a in [
        naive_assign(&workers, &shards, 4).unwrap(),
        rendevoux_assign(&workers, &shards, 4).unwrap(),
    ] {
        assert_eq!(a.len(), 4);
        for w in &workers {
            assert_eq!(a.get(&w.0), Some(&all));
        }
    }
}

#[test]
fn modulo_moves_far_more_than_rendezvous() {
    let workers: Vec<Worker> = (0..100).map(|i| Worker(100 * i)).collect();
    let shards: Vec<u32> = (1..=800).collect();
    let modulo = reassignment_cost(
        &naive_assign(&workers[0..], &shards, 1).unwrap(),
        &naive_assign(&workers[1..], &shards, 1).unwrap(),
    );
    let rendezvous = reassignment_cost(
        &rendevoux_assign(&workers[0..], &shards, 1).unwrap(),
        &rendevoux_assign(&workers[1..], &shards, 1).unwrap(),
    );
    assert!(modulo > 10 * rendezvous);
}
