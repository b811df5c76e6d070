use vstd::prelude::*;

verus! {

/// The 64-bit digest that std's `DefaultHasher` gives a shard id.
pub uninterp spec fn shard_hash_of(s: u32) -> u64;

/// The 64-bit digest that std's `DefaultHasher` gives the ordered pair
/// (shard id, worker id).
pub uninterp spec fn pair_hash_of(s: u32, w: u32) -> u64;

/// Relies on `DefaultHasher::new`, `Hash::hash` for `u32` and `Hasher::finish`:
/// a hasher made by `new` always starts from the same keys, so the digest
/// depends on the shard id alone.
#[verifier::external_body]
pub(crate) fn hash_shard(s: u32) -> (r: u64)
    ensures
        r == shard_hash_of(s),
{
    let mut hasher = std::collections::hash_map::DefaultHasher::new();
    std::hash::Hash::hash(&s, &mut hasher);
    std::hash::Hasher::finish(&hasher)
}

/// Relies on `DefaultHasher::new`, `Hash::hash` for the tuple `(u32, u32)` and
/// `Hasher::finish`: the digest depends on the two ids, in their order, alone.
#[verifier::external_body]
pub(crate) fn hash_pair(s: u32, w: u32) -> (r: u64)
    ensures
        r == pair_hash_of(s, w),
{
    let mut hasher = std::collections::hash_map::DefaultHasher::new();
    std::hash::Hash::hash(&(s, w), &mut hasher);
    std::hash::Hasher::finish(&hasher)
}

} // verus!
