//! Pairs of token ids, their packing into one integer, and merge rules.

use vstd::prelude::*;

verus! {

/// Two adjacent ids of a word.
pub type Pair = (u32, u32);

/// "When `left` is followed by `right`, write `new_id` for the two."
#[derive(Debug, Clone, Copy, PartialEq, Eq, Structural)]
pub struct MergeRule {
    /// The first id of the pair.
    pub left: u32,
    /// The second id of the pair.
    pub right: u32,
    /// The id that replaces the pair.
    pub new_id: u32,
}

/// The pair as one integer: the first id in the upper half, the second in the lower.
pub open spec fn pair_key(pair: Pair) -> u64 {
    (pair.0 * 0x1_0000_0000 + pair.1) as u64
}

/// The pair that `pair_key` packed into `key`.
pub open spec fn key_pair(key: u64) -> Pair {
    ((key / 0x1_0000_0000) as u32, (key % 0x1_0000_0000) as u32)
}

/// Packing loses nothing: every pair comes back from its key, and every key from
/// its pair.
pub proof fn lemma_pair_key(pair: Pair, key: u64)
    ensures
        key_pair(pair_key(pair)) == pair,
        pair_key(key_pair(key)) == key,
{
}

/// Different pairs have different keys.
pub proof fn lemma_pair_key_injective(p: Pair, q: Pair)
    ensures
        pair_key(p) == pair_key(q) <==> p == q,
{
    lemma_pair_key(p, 0);
    lemma_pair_key(q, 0);
}

/// Packs a pair into its key.
pub fn pack_pair(pair: Pair) -> (key: u64)
    ensures
        key == pair_key(pair),
{
    let high: u64 = pair.0 as u64;
    let low: u64 = pair.1 as u64;
    high * 0x1_0000_0000 + low
}

/// Unpacks a key into its pair.
pub fn unpack_pair(key: u64) -> (pair: Pair)
    ensures
        pair == key_pair(key),
{
    ((key / 0x1_0000_0000) as u32, (key % 0x1_0000_0000) as u32)
}

} // verus!
