//! The live counts: for every pair, how often it occurs in the corpus now.

use crate::pairs::{lemma_pair_key, lemma_pair_key_injective, pack_pair, pair_key, Pair};
use std::collections::HashMap;
use vstd::prelude::*;

verus! {

/// The count of `pair` in `live`, 0 where it has none.
pub open spec fn live_count(live: Map<Pair, int>, pair: Pair) -> int {
    if live.contains_key(pair) {
        live[pair]
    } else {
        0
    }
}

/// `live` after the count of `pair` changed by `delta`: a count that is not
/// positive any more leaves the map.
pub open spec fn live_add(live: Map<Pair, int>, pair: Pair, delta: int) -> Map<Pair, int> {
    let now = live_count(live, pair) + delta;
    if now <= 0 {
        live.remove(pair)
    } else {
        live.insert(pair, now)
    }
}

/// Every count of `live` is positive.
pub open spec fn all_positive(live: Map<Pair, int>) -> bool {
    forall|pair: Pair| live.contains_key(pair) ==> #[trigger] live[pair] > 0
}

/// The counts of the pairs that occur, each of them positive. The view is the map
/// from pairs to counts.
pub struct PairCounts {
    counts: HashMap<u64, i64>,
}

impl View for PairCounts {
    type V = Map<Pair, int>;

    closed spec fn view(&self) -> Map<Pair, int> {
        Map::new(
            |pair: Pair| self.counts@.contains_key(pair_key(pair)),
            |pair: Pair| self.counts@[pair_key(pair)] as int,
        )
    }
}

impl PairCounts {
    /// The invariant: no count is zero or negative.
    pub closed spec fn wf(&self) -> bool {
        forall|key: u64| self.counts@.contains_key(key) ==> #[trigger] self.counts@[key] > 0
    }

    /// In a valid value every count is positive and fits 64 bits.
    pub proof fn lemma_wf(&self)
        requires
            self.wf(),
        ensures
            all_positive(self@),
            forall|pair: Pair| self@.contains_key(pair) ==> #[trigger] self@[pair] <= i64::MAX,
    {
    }

    /// No counts.
    pub fn new() -> (counts: Self)
        ensures
            counts.wf(),
            counts@ == Map::<Pair, int>::empty(),
    {
        let counts = Self { counts: HashMap::new() };
        assert(counts@ =~= Map::<Pair, int>::empty());
        counts
    }

    /// The count of `pair`, if it occurs.
    pub fn get(&self, pair: Pair) -> (count: Option<i64>)
        ensures
            count is Some <==> self@.contains_key(pair),
            count matches Some(c) ==> c == self@[pair],
    {
        broadcast use vstd::std_specs::hash::group_hash_axioms;

        let key = pack_pair(pair);
        match self.counts.get(&key) {
            Some(c) => Some(*c),
            None => None,
        }
    }

    /// Changes the count of `pair` by `delta` and returns the new count. A count
    /// that is not positive any more is dropped.
    pub fn add(&mut self, pair: Pair, delta: i64) -> (now: i64)
        requires
            old(self).wf(),
            i64::MIN <= live_count(old(self)@, pair) + delta <= i64::MAX,
        ensures
            final(self).wf(),
            now == live_count(old(self)@, pair) + delta,
            final(self)@ == live_add(old(self)@, pair, delta as int),
    {
        broadcast use vstd::std_specs::hash::group_hash_axioms;

        let ghost before = *self;
        let key = pack_pair(pair);
        let current: i64 = match self.counts.get(&key) {
            Some(c) => *c,
            None => 0,
        };
        let now: i64 = current + delta;
        if now <= 0 {
            self.counts.remove(&key);
        } else {
            self.counts.insert(key, now);
        }
        proof {
            let target = live_add(before@, pair, delta as int);
            assert forall|p: Pair| #[trigger] self@.contains_key(p) <==> target.contains_key(p) by {
                lemma_pair_key_injective(p, pair);
            }
            assert forall|p: Pair| #[trigger] self@.contains_key(p) implies self@[p] == target[p] by {
                lemma_pair_key_injective(p, pair);
            }
            assert(self@ =~= target);
        }
        now
    }

    /// The number of pairs that occur.
    pub fn len(&self) -> (n: usize)
        ensures
            n == self@.dom().len(),
    {
        broadcast use vstd::std_specs::hash::group_hash_axioms;

        proof {
            // The pairs of the view and the keys of the table stand one to one.
            let keys = self.counts@.dom();
            let pairs = self@.dom();
            assert(keys.finite());
            assert(pairs =~= keys.map(|key: u64| crate::pairs::key_pair(key))) by {
                assert forall|p: Pair| pairs.contains(p) <==> keys.map(
                    |key: u64| crate::pairs::key_pair(key),
                ).contains(p) by {
                    lemma_pair_key(p, 0);
                    if pairs.contains(p) {
                        assert(keys.contains(pair_key(p)));
                    }
                    if keys.map(|key: u64| crate::pairs::key_pair(key)).contains(p) {
                        let k = choose|k: u64|
                            keys.contains(k) && p == crate::pairs::key_pair(k);
                        lemma_pair_key(p, k);
                    }
                }
            }
            assert(vstd::relations::injective(|key: u64| crate::pairs::key_pair(key))) by {
                assert forall|a: u64, b: u64| #[trigger]
                    crate::pairs::key_pair(a) == #[trigger] crate::pairs::key_pair(b) implies a
                    == b by {
                    lemma_pair_key((0, 0), a);
                    lemma_pair_key((0, 0), b);
                }
            }
            vstd::set_lib::lemma_map_size(
                keys,
                pairs,
                |key: u64| crate::pairs::key_pair(key),
            );
        }
        self.counts.len()
    }
}

} // verus!
