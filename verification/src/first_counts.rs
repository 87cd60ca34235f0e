//! The counts of the first sweep in closed form: the count of a pair is the sum,
//! over all words, of the word's weight times the number of places at which the
//! pair stands in the word.

use crate::learner_model::{initial_model, initial_tally, pair_gains, publish, LearnerModel};
use crate::pair_counts::{live_add, live_count};
use crate::pairs::Pair;
use crate::tally::{
    lemma_tally_add, tally_add, tally_add_all, tally_delta, tally_has, tally_slot, tally_wf,
    TallyEntryModel,
};
use crate::word::adjacent_pairs;
use vstd::prelude::*;

verus! {

/// The number of places at which `pair` stands in `pairs`.
pub open spec fn places_of(pairs: Seq<Pair>, pair: Pair) -> int
    decreases pairs.len(),
{
    if pairs.len() == 0 {
        0
    } else {
        places_of(pairs.drop_last(), pair) + if pairs.last() == pair {
            1int
        } else {
            0int
        }
    }
}

/// The weighted number of places at which `pair` stands in the first `n` words.
pub open spec fn weighted_places(words: Seq<Seq<u32>>, weights: Seq<i32>, pair: Pair, n: int) -> int
    decreases n,
{
    if n <= 0 {
        0
    } else {
        weighted_places(words, weights, pair, n - 1) + weights[n - 1] * places_of(
            adjacent_pairs(words[n - 1]),
            pair,
        )
    }
}

/// The sum of the changes of `deltas` that are for `pair`.
pub open spec fn change_of(deltas: Seq<(Pair, i32)>, pair: Pair) -> int
    decreases deltas.len(),
{
    if deltas.len() == 0 {
        0
    } else {
        change_of(deltas.drop_last(), pair) + if deltas.last().0 == pair {
            deltas.last().1 as int
        } else {
            0int
        }
    }
}

/// Adding to a tally moves the sum of the pair added to, and no other.
pub proof fn lemma_delta_after_add(
    tally: Seq<TallyEntryModel>,
    added: Pair,
    amount: int,
    word: usize,
    pair: Pair,
)
    requires
        tally_wf(tally),
    ensures
        tally_delta(tally_add(tally, added, amount, word), pair) == tally_delta(tally, pair) + if added
            == pair {
            amount
        } else {
            0int
        },
{
    let after = tally_add(tally, added, amount, word);
    lemma_tally_add(tally, added, amount, word);
    if tally_has(tally, added) {
        let slot = tally_slot(tally, added);
        assert(after.len() == tally.len());
        assert forall|i: int| 0 <= i < after.len() implies (#[trigger] after[i]).pair
            == tally[i].pair by {}
        if tally_has(tally, pair) {
            let at = tally_slot(tally, pair);
            assert(after[at].pair == pair);
            assert(tally_has(after, pair));
            let now = tally_slot(after, pair);
            assert(tally[now].pair == pair);
            if now < at {
                assert(tally[now].pair != tally[at].pair);
            } else if at < now {
                assert(tally[at].pair != tally[now].pair);
            }
            if added == pair {
                if slot < at {
                    assert(tally[slot].pair != tally[at].pair);
                } else if at < slot {
                    assert(tally[at].pair != tally[slot].pair);
                }
            } else {
                assert(at != slot);
            }
        } else {
            if tally_has(after, pair) {
                let now = tally_slot(after, pair);
                assert(tally[now].pair == pair);
            }
        }
    } else {
        assert(after.len() == tally.len() + 1);
        assert(after[tally.len() as int].pair == added);
        if tally_has(tally, pair) {
            let at = tally_slot(tally, pair);
            assert(after[at].pair == pair);
            assert(tally_has(after, pair));
            let now = tally_slot(after, pair);
            if now < at {
                assert(after[now].pair != after[at].pair);
            } else if at < now {
                assert(after[at].pair != after[now].pair);
            }
        } else if added == pair {
            assert(tally_has(after, pair));
            let now = tally_slot(after, pair);
            if now < tally.len() {
                assert(tally[now].pair == pair);
            }
        } else {
            if tally_has(after, pair) {
                let now = tally_slot(after, pair);
                if now < tally.len() {
                    assert(tally[now].pair == pair);
                }
            }
        }
    }
}

/// Adding the changes of one word moves the sum of a pair by the weight of the
/// word times the changes for the pair.
pub proof fn lemma_delta_after_all(
    tally: Seq<TallyEntryModel>,
    deltas: Seq<(Pair, i32)>,
    weight: int,
    word: usize,
    pair: Pair,
)
    requires
        tally_wf(tally),
    ensures
        tally_wf(tally_add_all(tally, deltas, weight, word)),
        tally_delta(tally_add_all(tally, deltas, weight, word), pair) == tally_delta(tally, pair)
            + weight * change_of(deltas, pair),
    decreases deltas.len(),
{
    if deltas.len() == 0 {
        assert(weight * 0 == 0);
    } else {
        let front = deltas.drop_last();
        let prior = tally_add_all(tally, front, weight, word);
        lemma_delta_after_all(tally, front, weight, word, pair);
        lemma_tally_add(prior, deltas.last().0, deltas.last().1 * weight, word);
        lemma_delta_after_add(prior, deltas.last().0, deltas.last().1 * weight, word, pair);
        let step = deltas.last().1 as int;
        let sum = change_of(front, pair);
        if deltas.last().0 == pair {
            assert(weight * (sum + step) == weight * sum + step * weight) by (nonlinear_arith);
        }
    }
}

/// The changes of a first sweep for a pair are the places at which it stands.
pub proof fn lemma_gains(ids: Seq<u32>, pair: Pair)
    ensures
        change_of(pair_gains(ids), pair) == places_of(adjacent_pairs(ids), pair),
{
    lemma_gains_of(adjacent_pairs(ids), pair_gains(ids), pair);
}

proof fn lemma_gains_of(pairs: Seq<Pair>, gains: Seq<(Pair, i32)>, pair: Pair)
    requires
        gains.len() == pairs.len(),
        forall|i: int| 0 <= i < gains.len() ==> #[trigger] gains[i] == (pairs[i], 1i32),
    ensures
        change_of(gains, pair) == places_of(pairs, pair),
    decreases pairs.len(),
{
    if pairs.len() > 0 {
        assert forall|i: int| 0 <= i < gains.drop_last().len() implies #[trigger] gains.drop_last()[i]
            == (pairs.drop_last()[i], 1i32) by {
            assert(gains[i] == (pairs[i], 1i32));
        }
        lemma_gains_of(pairs.drop_last(), gains.drop_last(), pair);
        assert(gains.last() == (pairs.last(), 1i32)) by {
            assert(gains[gains.len() - 1] == (pairs[gains.len() - 1], 1i32));
        }
    }
}

/// The first sweep in closed form: the sum that the tally of the first `n` words
/// holds for a pair is the weighted number of its places in these words.
pub proof fn lemma_initial_tally(words: Seq<Seq<u32>>, weights: Seq<i32>, pair: Pair, n: int)
    requires
        n <= words.len(),
    ensures
        tally_wf(initial_tally(words, weights, n)),
        tally_delta(initial_tally(words, weights, n), pair) == weighted_places(
            words,
            weights,
            pair,
            n,
        ),
    decreases n,
{
    if n <= 0 {
        assert(!tally_has(initial_tally(words, weights, n), pair));
    } else {
        lemma_initial_tally(words, weights, pair, n - 1);
        let prior = initial_tally(words, weights, n - 1);
        lemma_delta_after_all(
            prior,
            pair_gains(words[n - 1]),
            weights[n - 1] as int,
            (n - 1) as usize,
            pair,
        );
        lemma_gains(words[n - 1], pair);
    }
}

/// Publishing a valid tally into live counts that hold nothing of its pairs
/// gives every pair its sum, where the sum is positive, and no count else.
pub proof fn lemma_published_counts(m: LearnerModel, tally: Seq<TallyEntryModel>, pair: Pair)
    requires
        tally_wf(tally),
        forall|i: int| 0 <= i < tally.len() ==> !m.live.contains_key((#[trigger] tally[i]).pair),
    ensures
        live_count(publish(m, tally).live, pair) == if tally_has(tally, pair) {
            if tally_delta(tally, pair) > 0 {
                tally_delta(tally, pair)
            } else {
                0
            }
        } else {
            live_count(m.live, pair)
        },
    decreases tally.len(),
{
    if tally.len() > 0 {
        let front = tally.drop_last();
        let entry = tally.last();
        assert forall|i: int, j: int| 0 <= i < j < front.len() implies (#[trigger] front[i]).pair != (
        #[trigger] front[j]).pair by {
            assert(tally[i].pair != tally[j].pair);
        }
        assert forall|i: int| 0 <= i < front.len() implies (#[trigger] front[i]).positions.len()
            > 0 by {
            assert(tally[i].positions.len() > 0);
        }
        assert forall|i: int| 0 <= i < front.len() implies !m.live.contains_key(
            (#[trigger] front[i]).pair,
        ) by {
            assert(!m.live.contains_key(tally[i].pair));
        }
        lemma_published_counts(m, front, pair);
        lemma_published_counts(m, front, entry.pair);
        let prior = publish(m, front);
        assert(!tally_has(front, entry.pair)) by {
            if tally_has(front, entry.pair) {
                let i = tally_slot(front, entry.pair);
                assert(tally[i].pair != tally[tally.len() - 1].pair);
            }
        }
        assert(!m.live.contains_key(tally[tally.len() - 1].pair));
        assert(live_count(prior.live, entry.pair) == 0);
        let after_live = live_add(prior.live, entry.pair, entry.delta);
        assert(publish(m, tally).live == after_live);
        assert(tally_has(tally, entry.pair)) by {
            assert(tally[tally.len() - 1].pair == entry.pair);
        }
        let last_slot = tally_slot(tally, entry.pair);
        if last_slot < tally.len() - 1 {
            assert(tally[last_slot].pair != tally[tally.len() - 1].pair);
        }
        if pair == entry.pair {
        } else {
            if tally_has(front, pair) {
                let i = tally_slot(front, pair);
                assert(tally[i].pair == pair);
                assert(tally_has(tally, pair));
                let now = tally_slot(tally, pair);
                if now < i {
                    assert(tally[now].pair != tally[i].pair);
                } else if i < now {
                    assert(tally[i].pair != tally[now].pair);
                }
            } else if tally_has(tally, pair) {
                let now = tally_slot(tally, pair);
                assert(now < tally.len() - 1);
                assert(front[now].pair == pair);
            }
        }
    }
}

/// The live counts before the first merge in closed form: the count of a pair
/// is the weighted number of its places in the words, and a pair for which that
/// number is not positive has no count.
pub proof fn lemma_first_counts(words: Seq<Seq<u32>>, weights: Seq<i32>, first_id: u32, pair: Pair)
    ensures
        live_count(initial_model(words, weights, first_id).live, pair) == if weighted_places(
            words,
            weights,
            pair,
            words.len() as int,
        ) > 0 {
            weighted_places(words, weights, pair, words.len() as int)
        } else {
            0
        },
{
    let tally = initial_tally(words, weights, words.len() as int);
    let start = LearnerModel {
        words,
        weights,
        live: Map::empty(),
        jobs: seq![],
        waiting: Set::empty(),
        first_id,
        merges_done: 0,
    };
    lemma_initial_tally(words, weights, pair, words.len() as int);
    lemma_published_counts(start, tally, pair);
}

} // verus!
