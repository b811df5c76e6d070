//! Placement of shards on workers, with replication, by two deterministic
//! hashing strategies (contiguous modulo runs and rendezvous ranking), and a
//! measure of how many replica placements differ between two assignments.

mod cost;
mod hashing;
mod laws;
mod modulo;
mod placement;
mod rendezvous;
mod workers;

pub use cost::{
    cost_of, lemma_assignment_finite, lemma_placements_finite, moved, placements,
    reassignment_cost,
};
pub use hashing::{pair_hash_of, shard_hash_of};
pub use laws::{
    holders, lemma_cost_symmetric, lemma_first_ranked_exists, lemma_modulo_coverage,
    lemma_modulo_full_replication, lemma_modulo_full_run, lemma_modulo_owners_count,
    lemma_placement_unique, lemma_ranked_prefix_exists, lemma_rendezvous_coverage,
    lemma_rendezvous_full_replication, lemma_rendezvous_stable_on_removal, lemma_top_ranked_count,
    lemma_top_ranked_full,
};
pub use modulo::{lemma_wrap_index, modulo_owners, modulo_run, naive_assign, run_start};
pub use placement::{
    assignment_view, no_empty_bucket, owns, places, redundancy_error, AssignError, Assignment,
};
pub use rendezvous::{
    lemma_ranked_prefix_is_top, rank, ranked_prefix, ranks_before, rendevoux_assign,
    rendezvous_owners, top_ranked,
};
pub use workers::{distinct_ids, ids_of, lemma_distinct_ids, Worker};
