//! The merge learner: pair counts, a queue of merge jobs with stale entries, and
//! the merge loop that never rescans the corpus.

use crate::heap::{heap_keys, heap_new, heap_pop, heap_push, key_le, HeapKey};
use crate::learner_model::{
    apply_merge, drop_job, first_waiting, initial_model, initial_tally, is_first, is_stale,
    ids_below, ids_ok, learn, learn_state, lemma_next_merge_ids, lemma_tally_add_all_rising,
    lemma_total_len_bounds, lemma_total_len_nonnegative, lemma_total_len_update, merge_tally,
    merged_words, model_wf, next_id, next_merge, outranks, pair_gains, publish, publish_one,
    tally_rising, total_len, JobModel, LearnerModel,
};
use crate::merge_job::{lemma_ascending_unique, strictly_ascending, MergeJob};
use crate::pair_counts::{all_positive, live_count, PairCounts};
use crate::pairs::{MergeRule, Pair};
use crate::tally::{
    lemma_tally_add, tally_add, tally_add_all, tally_has, tally_slot, tally_wf, tally_within,
    PairTally, TallyEntryModel,
};
use crate::word::{lemma_merge_shrinks, merge_ids, Word};
use dary_heap::OctonaryHeap;
use vstd::prelude::*;

verus! {

/// The most ids that the words of a corpus may hold together. With this many no
/// pair count leaves the range of 64 bits.
pub const MAX_CORPUS_IDS: usize = 0x2000_0000;

/// The largest weight of one count change.
#[verifier::inline]
pub open spec fn weight_cap() -> int {
    0x8000_0000
}

/// The bound that every live count keeps while the words hold `len` ids together:
/// it grows by four changes for every id that the words lose.
#[verifier::inline]
pub open spec fn allowance(len: int) -> int {
    weight_cap() * (5 * MAX_CORPUS_IDS - 4 * len)
}

/// The ids of the words.
pub open spec fn words_view(words: Seq<Word<u32>>) -> Seq<Seq<u32>> {
    Seq::new(words.len(), |i: int| words[i]@)
}

/// The one listing of `set` in rising order.
pub open spec fn ascending_listing(set: Set<usize>) -> Seq<usize> {
    choose|listing: Seq<usize>| strictly_ascending(listing) && listing.to_set() == set
}

/// A job as the model sees it.
pub open spec fn job_model(job: MergeJob<u32>) -> JobModel {
    JobModel { pair: job.pair, count: job.count as int, positions: ascending_listing(job.pos@) }
}

/// The key under which job `i` waits in the queue.
pub open spec fn job_key(job: JobModel, i: int) -> HeapKey {
    (job.count as u64, (u32::MAX - job.pair.0) as u32, (u32::MAX - job.pair.1) as u32, i as usize)
}

/// The order of the keys is the order in which the jobs leave the queue.
pub proof fn lemma_key_order(a: JobModel, i: int, b: JobModel, j: int)
    requires
        0 <= a.count <= u64::MAX,
        0 <= b.count <= u64::MAX,
        0 <= i <= usize::MAX,
        0 <= j <= usize::MAX,
    ensures
        key_le(job_key(b, j), job_key(a, i)) == outranks(a, i, b, j),
{
}

/// Whether two ids are the same.
pub fn same_id(a: &u32, b: &u32) -> (same: bool)
    ensures
        same == (a == b),
{
    *a == *b
}

/// Add the changes of one word to a tally, each weighted by the word's count.
fn tally_word(
    tally: &mut PairTally,
    deltas: &Vec<(Pair, i32)>,
    weight: i32,
    word: usize,
    Ghost(bound): Ghost<int>,
    Ghost(before): Ghost<int>,
)
    requires
        old(tally).wf(),
        0 <= bound,
        tally_within(old(tally)@, bound),
        bound + weight_cap() * deltas@.len() <= i64::MAX,
        forall|k: int| 0 <= k < deltas@.len() ==> -1 <= (#[trigger] deltas@[k]).1 <= 1,
        tally_rising(old(tally)@, before),
        before <= word,
    ensures
        final(tally).wf(),
        final(tally)@ == tally_add_all(old(tally)@, deltas@, weight as int, word),
        tally_within(final(tally)@, bound + weight_cap() * deltas@.len()),
        tally_rising(final(tally)@, word as int),
{
    let mut k: usize = 0;
    proof {
        assert(deltas@.take(0) =~= Seq::<(Pair, i32)>::empty());
        old(tally).lemma_wf();
        lemma_tally_add_all_rising(old(tally)@, deltas@.take(0), weight as int, before, word);
    }
    while k < deltas.len()
        invariant
            k <= deltas@.len(),
            tally.wf(),
            0 <= bound,
            bound + weight_cap() * deltas@.len() <= i64::MAX,
            forall|k: int| 0 <= k < deltas@.len() ==> -1 <= (#[trigger] deltas@[k]).1 <= 1,
            tally@ == tally_add_all(old(tally)@, deltas@.take(k as int), weight as int, word),
            tally_within(tally@, bound + weight_cap() * k),
            tally_rising(tally@, word as int),
        decreases deltas.len() - k,
    {
        let (pair, change) = deltas[k];
        assert(-1 <= deltas@[k as int].1 <= 1);
        assert(-0x8000_0000 <= change * weight <= 0x8000_0000) by (nonlinear_arith)
            requires
                -1 <= change <= 1,
                -0x8000_0000 <= weight <= 0x7fff_ffff,
        ;
        let amount: i64 = (change as i64) * (weight as i64);
        proof {
            tally.lemma_wf();
            if tally_has(tally@, pair) {
                assert(-(bound + weight_cap() * k) <= tally@[tally_slot(tally@, pair)].delta <= bound
                    + weight_cap() * k);
            }
            assert(deltas@.take(k + 1).drop_last() =~= deltas@.take(k as int));
            lemma_tally_add(tally@, pair, amount as int, word);
            crate::learner_model::lemma_tally_add_rising(
                tally@,
                pair,
                amount as int,
                word as int,
                word,
            );
            assert(tally_within(
                tally_add(tally@, pair, amount as int, word),
                (bound + weight_cap() * k) + weight_cap(),
            ));
        }
        tally.add(pair, amount, word);
        k += 1;
    }
    proof {
        assert(deltas@.take(deltas@.len() as int) =~= deltas@);
    }
}

/// The first sweep: counts every adjacent pair of every word, weighted by the
/// word's count, and notes the words in which each pair occurs.
pub fn count_pairs(words: &Vec<Word<u32>>, counts: &Vec<i32>) -> (tally: PairTally)
    requires
        counts@.len() == words@.len(),
        total_len(words_view(words@)) <= MAX_CORPUS_IDS,
    ensures
        tally.wf(),
        tally@ == initial_tally(words_view(words@), counts@, words@.len() as int),
        tally_within(tally@, weight_cap() * total_len(words_view(words@))),
        tally_rising(tally@, words@.len() - 1),
{
    let ghost all = words_view(words@);
    let mut tally = PairTally::new();
    let mut i: usize = 0;
    proof {
        assert(all.take(0) =~= Seq::<Seq<u32>>::empty());
    }
    while i < words.len()
        invariant
            i <= words@.len(),
            counts@.len() == words@.len(),
            all == words_view(words@),
            total_len(all) <= MAX_CORPUS_IDS,
            tally.wf(),
            tally@ == initial_tally(all, counts@, i as int),
            tally_within(tally@, weight_cap() * total_len(all.take(i as int))),
            tally_rising(tally@, i - 1),
        decreases words.len() - i,
    {
        let word = &words[i];
        let mut gains: Vec<(Pair, i32)> = Vec::new();
        let n = word.ids.len();
        let mut k: usize = 0;
        while k + 1 < n
            invariant
                n == word.ids@.len(),
                k <= n,
                k < n || n == 0,
                gains@.len() == k,
                forall|j: int| 0 <= j < k ==> gains@[j] == ((word.ids@[j], word.ids@[j + 1]), 1i32),
            decreases n - k,
        {
            gains.push(((word.ids[k], word.ids[k + 1]), 1));
            k += 1;
        }
        proof {
            assert(all[i as int] == word@);
            assert(gains@ =~= pair_gains(word@));
            lemma_total_len_bounds(all, i as int);
            lemma_total_len_nonnegative(all.take(i as int));
            assert(gains@.len() <= word@.len());
        }
        tally_word(
            &mut tally,
            &gains,
            counts[i],
            i,
            Ghost(weight_cap() * total_len(all.take(i as int))),
            Ghost(i - 1),
        );
        proof {
            assert forall|j: int| 0 <= j < tally@.len() implies -(weight_cap() * total_len(
                all.take(i + 1),
            )) <= (#[trigger] tally@[j]).delta <= weight_cap() * total_len(all.take(i + 1)) by {
                assert(-(weight_cap() * total_len(all.take(i as int)) + weight_cap()
                    * gains@.len()) <= tally@[j].delta <= weight_cap() * total_len(
                    all.take(i as int),
                ) + weight_cap() * gains@.len());
            }
        }
        i += 1;
    }
    proof {
        assert(all.take(words@.len() as int) =~= all);
    }
    tally
}

/// A learner of merge rules over a corpus of counted words.
pub struct MergeLearner {
    words: Vec<Word<u32>>,
    counts: Vec<i32>,
    pair_counts: PairCounts,
    heap: OctonaryHeap<HeapKey>,
    jobs: Vec<MergeJob<u32>>,
    first_id: u32,
    merges_done: u32,
}

impl View for MergeLearner {
    type V = LearnerModel;

    closed spec fn view(&self) -> LearnerModel {
        LearnerModel {
            words: words_view(self.words@),
            weights: self.counts@,
            live: self.pair_counts@,
            jobs: Seq::new(self.jobs@.len(), |i: int| job_model(self.jobs@[i])),
            waiting: Set::new(|i: int| self.waits(i)),
            first_id: self.first_id,
            merges_done: self.merges_done as nat,
        }
    }
}

impl MergeLearner {
    spec fn waits(&self, i: int) -> bool {
        0 <= i < self.jobs@.len() && heap_keys(self.heap).contains(
            job_key(job_model(self.jobs@[i]), i),
        )
    }

    spec fn job_ok(&self, i: int) -> bool {
        let job = self.jobs@[i];
        &&& job.count > 0
        &&& strictly_ascending(ascending_listing(job.pos@))
        &&& ascending_listing(job.pos@).to_set() == job.pos@
        &&& forall|p: usize| job.pos@.contains(p) ==> p < self.words@.len()
    }

    /// The invariant of the learner.
    pub closed spec fn wf(&self) -> bool {
        &&& self.counts@.len() == self.words@.len()
        &&& self.pair_counts.wf()
        &&& forall|i: int| 0 <= i < self.jobs@.len() ==> #[trigger] self.job_ok(i)
        &&& forall|key: HeapKey| #[trigger] heap_keys(self.heap).count(key) <= 1
        &&& forall|key: HeapKey| #[trigger]
            heap_keys(self.heap).contains(key) ==> key.3 < self.jobs@.len() && key == job_key(
                job_model(self.jobs@[key.3 as int]),
                key.3 as int,
            )
        &&& total_len(words_view(self.words@)) <= MAX_CORPUS_IDS
        &&& forall|pair: Pair|
            self.pair_counts@.contains_key(pair) ==> #[trigger] self.pair_counts@[pair]
                <= allowance(total_len(words_view(self.words@)))
    }

    /// A valid learner has a valid state.
    pub proof fn lemma_wf(&self)
        requires
            self.wf(),
        ensures
            model_wf(self@),
    {
        self.pair_counts.lemma_wf();
        let m = self@;
        let range = vstd::set_lib::set_int_range(0, self.jobs@.len() as int);
        vstd::set_lib::lemma_int_range(0, self.jobs@.len() as int);
        assert(m.waiting.subset_of(range));
        vstd::set_lib::lemma_len_subset(m.waiting, range);
        assert forall|i: int| 0 <= i < m.jobs.len() implies {
            &&& (#[trigger] m.jobs[i]).count > 0
            &&& strictly_ascending(m.jobs[i].positions)
            &&& forall|k: int|
                0 <= k < m.jobs[i].positions.len() ==> (#[trigger] m.jobs[i].positions[k])
                    < m.words.len()
        } by {
            assert(self.job_ok(i));
            let listing = m.jobs[i].positions;
            assert forall|k: int| 0 <= k < listing.len() implies (#[trigger] listing[k])
                < m.words.len() by {
                assert(listing.to_set().contains(listing[k]));
            }
        }
    }

    /// The words of the corpus as they stand.
    pub fn words(&self) -> (words: &Vec<Word<u32>>)
        ensures
            words_view(words@) == self@.words,
    {
        &self.words
    }

    /// The number of merges done.
    pub fn merges_done(&self) -> (n: u32)
        ensures
            n == self@.merges_done,
    {
        self.merges_done
    }

    /// The live count of `pair`, if the pair occurs.
    pub fn live_count(&self, pair: Pair) -> (count: Option<i64>)
        ensures
            count is Some <==> self@.live.contains_key(pair),
            count matches Some(c) ==> c == self@.live[pair],
    {
        self.pair_counts.get(pair)
    }

    /// Publishes the sums of a tally: each moves the live count of its pair, and
    /// every count that stays positive gets a fresh job.
    fn publish(&mut self, tally: &PairTally, Ghost(bound): Ghost<int>)
        requires
            old(self).counts@.len() == old(self).words@.len(),
            old(self).pair_counts.wf(),
            forall|i: int| 0 <= i < old(self).jobs@.len() ==> #[trigger] old(self).job_ok(i),
            forall|key: HeapKey| #[trigger] heap_keys(old(self).heap).count(key) <= 1,
            forall|key: HeapKey| #[trigger]
                heap_keys(old(self).heap).contains(key) ==> key.3 < old(self).jobs@.len() && key
                    == job_key(job_model(old(self).jobs@[key.3 as int]), key.3 as int),
            total_len(words_view(old(self).words@)) <= MAX_CORPUS_IDS,
            tally.wf(),
            tally_rising(tally@, old(self).words@.len() - 1),
            0 <= bound <= allowance(total_len(words_view(old(self).words@))),
            tally_within(tally@, bound),
            forall|pair: Pair|
                old(self).pair_counts@.contains_key(pair) ==> #[trigger] old(
                    self,
                ).pair_counts@[pair] + bound <= allowance(
                    total_len(words_view(old(self).words@)),
                ),
        ensures
            final(self).wf(),
            final(self)@ == publish(old(self)@, tally@),
            final(self).words == old(self).words,
            final(self).first_id == old(self).first_id,
            final(self).merges_done == old(self).merges_done,
    {
        broadcast use vstd::multiset::group_multiset_axioms;

        let ghost start = *self;
        let ghost limit = allowance(total_len(words_view(self.words@)));
        let mut k: usize = 0;
        proof {
            tally.lemma_wf();
            lemma_total_len_nonnegative(words_view(self.words@));
            assert(tally@.take(0) =~= Seq::<TallyEntryModel>::empty());
        }
        while k < tally.len()
            invariant
                k <= tally@.len(),
                tally.wf(),
                tally_wf(tally@),
                tally_rising(tally@, self.words@.len() - 1),
                tally_within(tally@, bound),
                0 <= bound <= limit,
                limit == allowance(total_len(words_view(self.words@))),
                limit <= 5 * 0x1000_0000_0000_0000,
                self.words == start.words,
                self.counts == start.counts,
                self.first_id == start.first_id,
                self.merges_done == start.merges_done,
                self.counts@.len() == self.words@.len(),
                self.pair_counts.wf(),
                forall|i: int| 0 <= i < self.jobs@.len() ==> #[trigger] self.job_ok(i),
                forall|key: HeapKey| #[trigger] heap_keys(self.heap).count(key) <= 1,
                forall|key: HeapKey| #[trigger]
                    heap_keys(self.heap).contains(key) ==> key.3 < self.jobs@.len() && key
                        == job_key(job_model(self.jobs@[key.3 as int]), key.3 as int),
                self@ == publish(start@, tally@.take(k as int)),
                forall|pair: Pair|
                    self.pair_counts@.contains_key(pair) ==> #[trigger] self.pair_counts@[pair]
                        <= limit,
                forall|pair: Pair|
                    self.pair_counts@.contains_key(pair) && !tally_has(tally@.take(k as int), pair)
                        ==> #[trigger] self.pair_counts@[pair] + bound <= limit,
            decreases tally@.len() - k,
        {
            let ghost before = *self;
            let entry = tally.entry(k);
            let pair = entry.pair;
            proof {
                self.pair_counts.lemma_wf();
                assert(tally@[k as int] == entry@);
                assert(-bound <= entry@.delta <= bound);
                assert(!tally_has(tally@.take(k as int), pair)) by {
                    if tally_has(tally@.take(k as int), pair) {
                        let s = tally_slot(tally@.take(k as int), pair);
                        assert(tally@.take(k as int)[s].pair == pair);
                        assert(tally@[s].pair != tally@[k as int].pair);
                    }
                }
                assert(tally@.take(k + 1).drop_last() =~= tally@.take(k as int));
                assert(tally@.take(k + 1).last() == entry@);
            }
            assert(i64::MIN <= live_count(self.pair_counts@, pair) + entry.delta <= i64::MAX) by {
                if self.pair_counts@.contains_key(pair) {
                    assert(self.pair_counts@[pair] + bound <= limit);
                    assert(self.pair_counts@[pair] > 0);
                }
            }
            let now = self.pair_counts.add(pair, entry.delta);
            proof {
                assert forall|i: int| 0 <= i < self.jobs@.len() implies #[trigger] self.job_ok(i) by {
                    assert(before.job_ok(i));
                }
                assert forall|other: Pair| self.pair_counts@.contains_key(other) implies #[trigger] self.pair_counts@[other] <= limit by {
                    if other != pair {
                        assert(before.pair_counts@[other] <= limit);
                    }
                }
            }
            if now > 0 {
                let mut job = MergeJob::new(pair, now as u64);
                job.add_positions(entry.positions.as_slice());
                let number = self.jobs.len();
                let key: HeapKey = (now as u64, u32::MAX - pair.0, u32::MAX - pair.1, number);
                proof {
                    let listing = entry.positions@;
                    assert(strictly_ascending(listing) && listing.last() <= self.words@.len() - 1);
                    assert(job.pos@ =~= listing.to_set());
                    lemma_ascending_unique(ascending_listing(job.pos@), listing);
                    assert(job_model(job) == JobModel {
                        pair: entry@.pair,
                        count: now as int,
                        positions: entry@.positions,
                    });
                    assert(key == job_key(job_model(job), number as int));
                    assert forall|p: usize| job.pos@.contains(p) implies p < self.words@.len() by {
                        let at = choose|at: int| 0 <= at < listing.len() && listing[at] == p;
                        if at < listing.len() - 1 {
                            assert(listing[at] < listing[listing.len() - 1]);
                        }
                    }
                    assert(!heap_keys(self.heap).contains(key));
                }
                self.jobs.push(job);
                heap_push(&mut self.heap, key);
                proof {
                    assert forall|i: int| 0 <= i < self.jobs@.len() implies #[trigger] self.job_ok(
                        i,
                    ) by {
                        if i < number {
                            assert(before.job_ok(i));
                        }
                    }
                    assert forall|other: HeapKey| #[trigger]
                        heap_keys(self.heap).contains(other) implies other.3 < self.jobs@.len()
                        && other == job_key(
                        job_model(self.jobs@[other.3 as int]),
                        other.3 as int,
                    ) by {
                        if other != key {
                            assert(heap_keys(before.heap).contains(other));
                        }
                    }
                    assert forall|other: HeapKey| #[trigger] heap_keys(self.heap).count(other)
                        <= 1 by {
                        assert(heap_keys(before.heap).count(other) <= 1);
                    }
                    let target = publish_one(before@, entry@);
                    assert(self@.jobs =~= target.jobs);
                    assert(self@.waiting =~= target.waiting) by {
                        assert forall|i: int| self@.waiting.contains(i) <==> target.waiting.contains(
                            i,
                        ) by {
                            if 0 <= i < number {
                                assert(job_key(job_model(self.jobs@[i]), i) != key);
                                assert(before.waits(i) <==> self.waits(i));
                            }
                            if i == number {
                                assert(self.waits(i));
                            }
                        }
                    }
                    assert(self@ =~= target);
                }
            } else {
                proof {
                    let target = publish_one(before@, entry@);
                    assert(self@.jobs =~= target.jobs);
                    assert(self@.waiting =~= target.waiting) by {
                        assert forall|i: int| self@.waiting.contains(i) <==> target.waiting.contains(
                            i,
                        ) by {
                            assert(before.waits(i) <==> self.waits(i));
                        }
                    }
                    assert(self@ =~= target);
                }
            }
            proof {
                assert forall|other: Pair|
                    self.pair_counts@.contains_key(other) && !tally_has(
                        tally@.take(k + 1),
                        other,
                    ) implies #[trigger] self.pair_counts@[other] + bound <= limit by {
                    if other != pair {
                        if tally_has(tally@.take(k as int), other) {
                            let s = tally_slot(tally@.take(k as int), other);
                            assert(tally@.take(k + 1)[s].pair == other);
                        }
                    } else {
                        assert(tally@.take(k + 1)[k as int].pair == pair);
                    }
                }
            }
            k += 1;
        }
        proof {
            assert(tally@.take(tally@.len() as int) =~= tally@);
        }
    }

    /// A learner over the given words, each with the number of times that it
    /// occurs in the corpus. The first merge gets the id `first_id`.
    pub fn new(words: Vec<Word<u32>>, counts: Vec<i32>, first_id: u32) -> (learner: Self)
        requires
            counts@.len() == words@.len(),
            total_len(words_view(words@)) <= MAX_CORPUS_IDS,
        ensures
            learner.wf(),
            learner@ == initial_model(words_view(words@), counts@, first_id),
            learner@.first_id == first_id,
            learner@.merges_done == 0,
            learner@.words == words_view(words@),
    {
        let tally = count_pairs(&words, &counts);
        let ghost len = total_len(words_view(words@));
        let mut learner = MergeLearner {
            words,
            counts,
            pair_counts: PairCounts::new(),
            heap: heap_new(),
            jobs: Vec::new(),
            first_id,
            merges_done: 0,
        };
        proof {
            lemma_total_len_nonnegative(words_view(learner.words@));
            assert(learner@.jobs =~= Seq::<JobModel>::empty());
            assert(learner@.waiting =~= Set::<int>::empty());
            assert(learner@ =~= LearnerModel {
                words: words_view(words@),
                weights: counts@,
                live: Map::empty(),
                jobs: seq![],
                waiting: Set::empty(),
                first_id,
                merges_done: 0,
            });
        }
        learner.publish(&tally, Ghost(weight_cap() * len));
        learner
    }

    /// Merges the pair of job `number` in the words of the job and publishes the
    /// count changes.
    fn merge_job(&mut self, number: usize) -> (rule: MergeRule)
        requires
            old(self).wf(),
            number < old(self).jobs@.len(),
            old(self).first_id + old(self).merges_done < u32::MAX,
        ensures
            final(self).wf(),
            final(self)@ == apply_merge(old(self)@, old(self)@.jobs[number as int]),
            rule == (MergeRule {
                left: old(self)@.jobs[number as int].pair.0,
                right: old(self)@.jobs[number as int].pair.1,
                new_id: next_id(old(self)@),
            }),
    {
        let ghost start = *self;
        let ghost job = start@.jobs[number as int];
        let ghost old_words = start@.words;
        let ghost old_len = total_len(old_words);
        let pair = self.jobs[number].pair;
        let positions = self.jobs[number].sorted_positions();
        let new_id: u32 = self.first_id + self.merges_done;
        proof {
            assert(start.job_ok(number as int));
            lemma_ascending_unique(positions@, ascending_listing(start.jobs@[number as int].pos@));
            assert(positions@ == job.positions);
            assert(positions@.take(0) =~= Seq::<usize>::empty());
            lemma_total_len_nonnegative(old_words);
            assert(words_view(self.words@) =~= merged_words(
                old_words,
                positions@.take(0),
                pair,
                new_id,
            ));
        }
        let mut tally = PairTally::new();
        let word_total = self.words.len();
        let mut k: usize = 0;
        while k < positions.len()
            invariant
                k <= positions@.len(),
                word_total == self.words@.len(),
                strictly_ascending(positions@),
                forall|p: usize| positions@.to_set().contains(p) ==> p < self.words@.len(),
                old_words == start@.words,
                old_len == total_len(old_words),
                0 <= old_len <= MAX_CORPUS_IDS,
                self.words@.len() == start.words@.len(),
                self.counts == start.counts,
                self.pair_counts == start.pair_counts,
                self.heap == start.heap,
                self.jobs == start.jobs,
                self.first_id == start.first_id,
                self.merges_done == start.merges_done,
                self.counts@.len() == self.words@.len(),
                words_view(self.words@) == merged_words(
                    old_words,
                    positions@.take(k as int),
                    pair,
                    new_id,
                ),
                0 <= total_len(words_view(self.words@)) <= old_len,
                tally.wf(),
                tally@ == merge_tally(
                    old_words,
                    self.counts@,
                    positions@.take(k as int),
                    pair,
                    new_id,
                ),
                tally_within(
                    tally@,
                    weight_cap() * 4 * (old_len - total_len(words_view(self.words@))),
                ),
                tally_rising(tally@, if k == 0 { -1 } else { positions@[k - 1] as int }),
            decreases positions.len() - k,
        {
            let at = positions[k];
            let ghost before_words = words_view(self.words@);
            let ghost before_len = total_len(before_words);
            proof {
                assert(positions@.to_set().contains(at));
                assert(!positions@.take(k as int).contains(at)) by {
                    if positions@.take(k as int).contains(at) {
                        let j = choose|j: int|
                            0 <= j < positions@.take(k as int).len() && positions@.take(
                                k as int,
                            )[j] == at;
                        assert(positions@[j] < positions@[k as int]);
                    }
                }
                assert(before_words[at as int] == old_words[at as int]);
                lemma_merge_shrinks(None, old_words[at as int], pair, new_id);
                lemma_total_len_bounds(before_words, at as int);
            }
            let deltas = self.words[at].merge_pair(pair, new_id, same_id);
            proof {
                let now_words = words_view(self.words@);
                assert(now_words =~= before_words.update(
                    at as int,
                    merge_ids(old_words[at as int], pair, new_id),
                ));
                lemma_total_len_update(
                    before_words,
                    at as int,
                    merge_ids(old_words[at as int], pair, new_id),
                );
                lemma_total_len_nonnegative(now_words);
                assert(positions@.take(k + 1).drop_last() =~= positions@.take(k as int));
                assert(now_words =~= merged_words(old_words, positions@.take(k + 1), pair, new_id))
                    by {
                    assert forall|i: int| 0 <= i < old_words.len() implies now_words[i]
                        == merged_words(old_words, positions@.take(k + 1), pair, new_id)[i] by {
                        assert(old_words.len() == self.words@.len());
                        let shorter = positions@.take(k as int);
                        let longer = positions@.take(k + 1);
                        if longer.contains(i as usize) {
                            let j = choose|j: int| 0 <= j < longer.len() && longer[j] == i as usize;
                            if j < k {
                                assert(shorter[j] == i as usize);
                            }
                        }
                        if shorter.contains(i as usize) {
                            let j = choose|j: int|
                                0 <= j < shorter.len() && shorter[j] == i as usize;
                            assert(longer[j] == i as usize);
                        }
                        if i == at {
                            assert(longer[k as int] == at);
                        }
                    }
                }
                if k > 0 {
                    assert(positions@[k - 1] < positions@[k as int]);
                }
                assert(weight_cap() * 4 * (old_len - before_len) + weight_cap() * deltas@.len()
                    <= weight_cap() * 4 * (old_len - total_len(now_words)));
            }
            tally_word(
                &mut tally,
                &deltas,
                self.counts[at],
                at,
                Ghost(weight_cap() * 4 * (old_len - before_len)),
                Ghost(if k == 0 { -1 } else { positions@[k - 1] as int }),
            );
            proof {
                let now_len = total_len(words_view(self.words@));
                assert forall|j: int| 0 <= j < tally@.len() implies -(weight_cap() * 4 * (old_len
                    - now_len)) <= (#[trigger] tally@[j]).delta <= weight_cap() * 4 * (old_len
                    - now_len) by {
                    assert(-(weight_cap() * 4 * (old_len - before_len) + weight_cap()
                        * deltas@.len()) <= tally@[j].delta <= weight_cap() * 4 * (old_len
                        - before_len) + weight_cap() * deltas@.len());
                }
            }
            k += 1;
        }
        self.merges_done = self.merges_done + 1;
        proof {
            assert(positions@.take(positions@.len() as int) =~= positions@);
            let now_len = total_len(words_view(self.words@));
            assert forall|i: int| 0 <= i < self.jobs@.len() implies #[trigger] self.job_ok(i) by {
                assert(start.job_ok(i));
            }
            assert forall|i: int| 0 <= i < tally@.len() implies strictly_ascending(
                (#[trigger] tally@[i]).positions,
            ) && tally@[i].positions.last() <= self.words@.len() - 1 by {
                if positions@.len() > 0 {
                    assert(positions@.to_set().contains(positions@[positions@.len() - 1]));
                } else {
                    assert(tally@.len() == 0);
                }
            }
            assert forall|other: Pair|
                self.pair_counts@.contains_key(other) implies #[trigger] self.pair_counts@[other]
                + weight_cap() * 4 * (old_len - now_len) <= allowance(now_len) by {
                assert(start.pair_counts@[other] <= allowance(old_len));
            }
            let middle = LearnerModel {
                words: merged_words(start@.words, job.positions, job.pair, next_id(start@)),
                merges_done: start@.merges_done + 1,
                ..start@
            };
            assert(self@.jobs =~= middle.jobs);
            assert(self@.waiting =~= middle.waiting) by {
                assert forall|i: int| self@.waiting.contains(i) <==> middle.waiting.contains(i) by {
                    assert(self.waits(i) <==> start.waits(i));
                }
            }
            assert(self@ =~= middle);
        }
        let ghost bound = weight_cap() * 4 * (old_len - total_len(words_view(self.words@)));
        self.publish(&tally, Ghost(bound));
        MergeRule { left: pair.0, right: pair.1, new_id }
    }

    /// One round of the merge loop: jobs leave the queue until one is not stale;
    /// that one is merged and its rule returned. `None` when the queue ran empty.
    pub fn next_merge(&mut self) -> (rule: Option<MergeRule>)
        requires
            old(self).wf(),
            old(self)@.first_id + old(self)@.merges_done < u32::MAX,
        ensures
            final(self).wf(),
            final(self)@ == next_merge(old(self)@).0,
            rule == next_merge(old(self)@).1,
            rule is None ==> final(self)@.waiting == Set::<int>::empty(),
    {
        broadcast use vstd::multiset::group_multiset_axioms;

        loop
            invariant
                self.wf(),
                self.first_id == old(self).first_id,
                self.merges_done == old(self).merges_done,
                self.first_id + self.merges_done < u32::MAX,
                next_merge(self@) == next_merge(old(self)@),
            decreases heap_keys(self.heap).len(),
        {
            let ghost before = *self;
            proof {
                assert(self.jobs.len() == self.jobs@.len());
                before.lemma_wf();
            }
            match heap_pop(&mut self.heap) {
                None => {
                    proof {
                        assert forall|i: int| 0 <= i < self.jobs@.len() implies #[trigger] self.job_ok(i) by {
                            assert(before.job_ok(i));
                        }
                        assert forall|other: HeapKey| #[trigger] heap_keys(self.heap).count(other) <= 1 by {
                            assert(heap_keys(before.heap).count(other) <= 1);
                        }
                        assert(self@.waiting =~= Set::<int>::empty()) by {
                            assert forall|i: int| !self@.waiting.contains(i) by {
                                if self.waits(i) {
                                    let key = job_key(job_model(self.jobs@[i]), i);
                                    assert(heap_keys(self.heap).count(key) > 0);
                                    vstd::multiset::axiom_count_le_len(heap_keys(self.heap), key);
                                }
                            }
                        }
                        assert(self@ =~= before@);
                    }
                    return None;
                },
                Some(key) => {
                    let number = key.3;
                    proof {
                        let m = before@;
                        assert(before.waits(number as int));
                        assert(is_first(m, number as int)) by {
                            assert forall|j: int| m.waiting.contains(j) implies outranks(
                                m.jobs[number as int],
                                number as int,
                                #[trigger] m.jobs[j],
                                j,
                            ) by {
                                assert(before.waits(j));
                                let other = job_key(job_model(before.jobs@[j]), j);
                                assert(key_le(other, key));
                                assert(before.job_ok(j));
                                assert(before.job_ok(number as int));
                                lemma_key_order(m.jobs[number as int], number as int, m.jobs[j], j);
                            }
                        }
                        let chosen = first_waiting(m);
                        assert(is_first(m, chosen));
                        assert(outranks(m.jobs[chosen], chosen, m.jobs[number as int], number as int));
                        assert(outranks(m.jobs[number as int], number as int, m.jobs[chosen], chosen));
                        assert(chosen == number);
                        assert(m.waiting.len() > 0) by {
                            if m.waiting.len() == 0 {
                                assert(m.waiting =~= Set::<int>::empty());
                            }
                        }
                        // Without the popped key the queue holds the other jobs as before.
                        assert forall|other: HeapKey| #[trigger]
                            heap_keys(self.heap).count(other) <= 1 by {
                            assert(heap_keys(before.heap).count(other) <= 1);
                        }
                        assert forall|i: int| self.waits(i) <==> (before.waits(i) && i
                            != number) by {
                            if 0 <= i < self.jobs@.len() {
                                let k = job_key(job_model(self.jobs@[i]), i);
                                if i == number {
                                    assert(k == key);
                                    assert(heap_keys(before.heap).count(key) <= 1);
                                } else {
                                    assert(k != key);
                                }
                            }
                        }
                        assert(self@.jobs =~= drop_job(m, number as int).jobs);
                        assert(self@.waiting =~= drop_job(m, number as int).waiting);
                        assert(self@ =~= drop_job(m, number as int));
                        assert(self.wf()) by {
                            assert forall|i: int| 0 <= i < self.jobs@.len() implies #[trigger] self.job_ok(
                                i,
                            ) by {
                                assert(before.job_ok(i));
                            }
                            assert forall|other: HeapKey| #[trigger]
                                heap_keys(self.heap).contains(other) implies other.3
                                < self.jobs@.len() && other == job_key(
                                job_model(self.jobs@[other.3 as int]),
                                other.3 as int,
                            ) by {
                                assert(heap_keys(before.heap).contains(other));
                            }
                        }
                        assert(before.job_ok(number as int));
                    }
                    let job_pair = self.jobs[number].pair;
                    let job_count = self.jobs[number].count;
                    let stale = match self.pair_counts.get(job_pair) {
                        Some(count) => {
                            proof {
                                self.pair_counts.lemma_wf();
                            }
                            count as u64 != job_count
                        },
                        None => true,
                    };
                    assert(stale == is_stale(before@.live, before@.jobs[number as int]));
                    if !stale {
                        let rule = self.merge_job(number);
                        return Some(rule);
                    }
                },
            }
        }
    }
    /// The merge loop: rounds until `budget` rules are learned or a round finds
    /// the queue empty. Returns the rules in the order learned. Every rule gets
    /// the next free id; no live count is ever zero or negative; and where fewer
    /// rules were learned than asked for, no job waits any more. Where every id
    /// of the corpus lies below the first free id, every rule joins two ids
    /// known before it.
    pub fn run(&mut self, budget: u32) -> (rules: Vec<MergeRule>)
        requires
            old(self).wf(),
            old(self)@.first_id + old(self)@.merges_done + budget <= u32::MAX,
        ensures
            final(self).wf(),
            rules@ == learn(old(self)@, budget as nat),
            final(self)@ == learn_state(old(self)@, budget as nat),
            rules@.len() <= budget,
            final(self)@.first_id == old(self)@.first_id,
            final(self)@.merges_done == old(self)@.merges_done + rules@.len(),
            all_positive(final(self)@.live),
            rules@.len() < budget ==> final(self)@.waiting == Set::<int>::empty(),
            forall|k: int|
                0 <= k < rules@.len() ==> (#[trigger] rules@[k]).new_id == old(self)@.first_id
                    + old(self)@.merges_done + k,
            ids_below(old(self)@, old(self)@.first_id + old(self)@.merges_done) ==> {
                &&& ids_below(final(self)@, final(self)@.first_id + final(self)@.merges_done)
                &&& forall|k: int|
                    0 <= k < rules@.len() ==> (#[trigger] rules@[k]).left < rules@[k].new_id
                        && rules@[k].right < rules@[k].new_id
            },
    {
        let ghost below = ids_below(self@, self@.first_id + self@.merges_done);
        proof {
            if below {
                crate::learner_model::lemma_ids_below(
                    self@,
                    self@.first_id + self@.merges_done,
                );
                crate::learner_model::lemma_ids_ok_weaken(
                    self@,
                    |id: u32| id < self@.first_id + self@.merges_done,
                    |id: u32| true,
                );
            }
        }
        self.run_within(budget, Ghost(|id: u32| true), Ghost(below))
    }

    /// The merge loop as `run` does it. Where `below` holds, the ids of the
    /// corpus lie below the first free id and all meet `ok`: the ids of every
    /// rule then meet `ok` too.
    pub(crate) fn run_within(
        &mut self,
        budget: u32,
        Ghost(ok): Ghost<spec_fn(u32) -> bool>,
        Ghost(below): Ghost<bool>,
    ) -> (rules: Vec<MergeRule>)
        requires
            old(self).wf(),
            old(self)@.first_id + old(self)@.merges_done + budget <= u32::MAX,
            below ==> ids_below(old(self)@, old(self)@.first_id + old(self)@.merges_done),
            below ==> ids_ok(old(self)@, ok),
            forall|id: u32| id >= old(self)@.first_id ==> #[trigger] ok(id),
        ensures
            final(self).wf(),
            rules@ == learn(old(self)@, budget as nat),
            final(self)@ == learn_state(old(self)@, budget as nat),
            rules@.len() <= budget,
            final(self)@.first_id == old(self)@.first_id,
            final(self)@.merges_done == old(self)@.merges_done + rules@.len(),
            all_positive(final(self)@.live),
            rules@.len() < budget ==> final(self)@.waiting == Set::<int>::empty(),
            below ==> ids_below(final(self)@, final(self)@.first_id + final(self)@.merges_done),
            below ==> ids_ok(final(self)@, ok),
            forall|k: int|
                0 <= k < rules@.len() ==> (#[trigger] rules@[k]).new_id == old(self)@.first_id
                    + old(self)@.merges_done + k,
            below ==> forall|k: int|
                0 <= k < rules@.len() ==> {
                    &&& (#[trigger] rules@[k]).left < rules@[k].new_id
                    &&& rules@[k].right < rules@[k].new_id
                    &&& ok(rules@[k].left)
                    &&& ok(rules@[k].right)
                },
    {
        let ghost start = self@;
        let mut rules: Vec<MergeRule> = Vec::new();
        let mut done: u32 = 0;
        proof {
            self.lemma_wf();
        }
        while done < budget
            invariant
                self.wf(),
                done <= budget,
                rules@.len() == done,
                start == old(self)@,
                self@.first_id == start.first_id,
                self@.merges_done == start.merges_done + done,
                start.first_id + start.merges_done + budget <= u32::MAX,
                below ==> ids_below(self@, self@.first_id + self@.merges_done),
                below ==> ids_ok(self@, ok),
                forall|id: u32| id >= start.first_id ==> #[trigger] ok(id),
                all_positive(self@.live),
                learn(start, budget as nat) == rules@ + learn(self@, (budget - done) as nat),
                learn_state(start, budget as nat) == learn_state(self@, (budget - done) as nat),
                forall|k: int|
                    0 <= k < rules@.len() ==> (#[trigger] rules@[k]).new_id == start.first_id
                        + start.merges_done + k,
                below ==> forall|k: int|
                    0 <= k < rules@.len() ==> {
                        &&& (#[trigger] rules@[k]).left < rules@[k].new_id
                        &&& rules@[k].right < rules@[k].new_id
                        &&& ok(rules@[k].left)
                        &&& ok(rules@[k].right)
                    },
            decreases budget - done,
        {
            let ghost before = self@;
            let ghost learned = rules@;
            proof {
                self.lemma_wf();
                assert(ok(next_id(before)));
                let any = |id: u32| true;
                assert(ids_ok(before, any));
                lemma_next_merge_ids(before, any);
                if below {
                    lemma_next_merge_ids(before, ok);
                    crate::learner_model::lemma_next_merge_below(before);
                }
            }
            match self.next_merge() {
                None => {
                    proof {
                        assert(learn(before, (budget - done) as nat) =~= Seq::<MergeRule>::empty());
                        assert(rules@ + Seq::<MergeRule>::empty() =~= rules@);
                    }
                    return rules;
                },
                Some(rule) => {
                    rules.push(rule);
                    done = done + 1;
                    proof {
                        assert(learn(before, (budget - (done - 1)) as nat) == seq![rule] + learn(
                            self@,
                            (budget - done) as nat,
                        ));
                        assert(learned + (seq![rule] + learn(self@, (budget - done) as nat))
                            =~= rules@ + learn(self@, (budget - done) as nat));
                    }
                },
            }
        }
        proof {
            assert(rules@ + Seq::<MergeRule>::empty() =~= rules@);
        }
        rules
    }
}

} // verus!
