//! The merge learner as mathematics: its state, and what one merge does to it.

use crate::merge_job::strictly_ascending;
use crate::pair_counts::{all_positive, live_add, live_count};
use crate::pairs::{MergeRule, Pair};
use crate::tally::{tally_add, tally_add_all, tally_wf, TallyEntryModel};
use crate::word::{adjacent_pairs, merge_deltas, merge_ids};
use vstd::prelude::*;

verus! {

/// A published job.
#[verifier::ext_equal]
pub struct JobModel {
    /// The pair to merge.
    pub pair: Pair,
    /// The live count of the pair when the job was published.
    pub count: int,
    /// The words to look at, in rising order.
    pub positions: Seq<usize>,
}

/// The state of a learner.
#[verifier::ext_equal]
pub struct LearnerModel {
    /// The words of the corpus as they stand.
    pub words: Seq<Seq<u32>>,
    /// How often each word occurs in the corpus.
    pub weights: Seq<i32>,
    /// The live counts of the pairs.
    pub live: Map<Pair, int>,
    /// Every job published so far, in the order of publishing.
    pub jobs: Seq<JobModel>,
    /// The numbers of the jobs that still wait in the queue.
    pub waiting: Set<int>,
    /// The id of the first merge.
    pub first_id: u32,
    /// The number of merges done.
    pub merges_done: nat,
}

/// The number of ids in all words together.
pub open spec fn total_len(words: Seq<Seq<u32>>) -> int
    decreases words.len(),
{
    if words.len() == 0 {
        0
    } else {
        total_len(words.drop_last()) + words.last().len()
    }
}

/// The adjacent pairs of a word as count changes of +1 each.
pub open spec fn pair_gains(ids: Seq<u32>) -> Seq<(Pair, i32)> {
    Seq::new(adjacent_pairs(ids).len(), |i: int| (adjacent_pairs(ids)[i], 1i32))
}

/// The tally of the first sweep over the first `n` words: every adjacent pair of
/// every word, weighted by the word's count.
pub open spec fn initial_tally(words: Seq<Seq<u32>>, weights: Seq<i32>, n: int) -> Seq<
    TallyEntryModel,
>
    decreases n,
{
    if n <= 0 {
        seq![]
    } else {
        tally_add_all(
            initial_tally(words, weights, n - 1),
            pair_gains(words[n - 1]),
            weights[n - 1] as int,
            (n - 1) as usize,
        )
    }
}

/// The words after `pair` was merged in those listed in `positions`.
pub open spec fn merged_words(
    words: Seq<Seq<u32>>,
    positions: Seq<usize>,
    pair: Pair,
    new_id: u32,
) -> Seq<Seq<u32>> {
    Seq::new(
        words.len(),
        |i: int|
            if positions.contains(i as usize) {
                merge_ids(words[i], pair, new_id)
            } else {
                words[i]
            },
    )
}

/// The tally of merging `pair` in the words listed in `positions`, first to last:
/// the count changes that each merge reports, weighted by the word's count.
pub open spec fn merge_tally(
    words: Seq<Seq<u32>>,
    weights: Seq<i32>,
    positions: Seq<usize>,
    pair: Pair,
    new_id: u32,
) -> Seq<TallyEntryModel>
    decreases positions.len(),
{
    if positions.len() == 0 {
        seq![]
    } else {
        let word = positions.last();
        tally_add_all(
            merge_tally(words, weights, positions.drop_last(), pair, new_id),
            merge_deltas(None, words[word as int], pair, new_id),
            weights[word as int] as int,
            word,
        )
    }
}

/// The state after one tally entry was published: the live count of its pair
/// moves by the entry's sum; a count that is not positive leaves the live counts,
/// any other is published as a fresh job with the entry's words. Jobs published
/// earlier stay in the queue.
pub open spec fn publish_one(m: LearnerModel, entry: TallyEntryModel) -> LearnerModel {
    let now = live_count(m.live, entry.pair) + entry.delta;
    if now <= 0 {
        LearnerModel { live: live_add(m.live, entry.pair, entry.delta), ..m }
    } else {
        LearnerModel {
            live: live_add(m.live, entry.pair, entry.delta),
            jobs: m.jobs.push(
                JobModel { pair: entry.pair, count: now, positions: entry.positions },
            ),
            waiting: m.waiting.insert(m.jobs.len() as int),
            ..m
        }
    }
}

/// The state after the entries of `tally` were published, first to last.
pub open spec fn publish(m: LearnerModel, tally: Seq<TallyEntryModel>) -> LearnerModel
    decreases tally.len(),
{
    if tally.len() == 0 {
        m
    } else {
        publish_one(publish(m, tally.drop_last()), tally.last())
    }
}

/// The state of a learner before its first merge: the live counts of the first
/// sweep, and one job for every pair that occurs.
pub open spec fn initial_model(words: Seq<Seq<u32>>, weights: Seq<i32>, first_id: u32) -> LearnerModel {
    publish(
        LearnerModel {
            words,
            weights,
            live: Map::empty(),
            jobs: seq![],
            waiting: Set::empty(),
            first_id,
            merges_done: 0,
        },
        initial_tally(words, weights, words.len() as int),
    )
}

/// Whether job `a`, numbered `i`, leaves the queue no later than job `b`,
/// numbered `j`: the higher count first, then the smaller pair, then the job
/// published later.
pub open spec fn outranks(a: JobModel, i: int, b: JobModel, j: int) -> bool {
    if a.count != b.count {
        a.count > b.count
    } else if a.pair.0 != b.pair.0 {
        a.pair.0 < b.pair.0
    } else if a.pair.1 != b.pair.1 {
        a.pair.1 < b.pair.1
    } else {
        i >= j
    }
}

/// Whether job `i` waits and no waiting job leaves the queue before it.
pub open spec fn is_first(m: LearnerModel, i: int) -> bool {
    &&& m.waiting.contains(i)
    &&& forall|j: int| m.waiting.contains(j) ==> outranks(m.jobs[i], i, #[trigger] m.jobs[j], j)
}

/// The number of the job that leaves the queue next.
pub open spec fn first_waiting(m: LearnerModel) -> int {
    choose|i: int| is_first(m, i)
}

/// A job is stale when the live count of its pair is no longer the count that the
/// job was published with.
pub open spec fn is_stale(live: Map<Pair, int>, job: JobModel) -> bool {
    !live.contains_key(job.pair) || live[job.pair] != job.count
}

/// The id that the next merge allocates.
pub open spec fn next_id(m: LearnerModel) -> u32 {
    (m.first_id + m.merges_done) as u32
}

/// The state after the merge that `job` asks for: the pair is replaced in the
/// words of the job, and the count changes are published.
pub open spec fn apply_merge(m: LearnerModel, job: JobModel) -> LearnerModel {
    publish(
        LearnerModel {
            words: merged_words(m.words, job.positions, job.pair, next_id(m)),
            merges_done: m.merges_done + 1,
            ..m
        },
        merge_tally(m.words, m.weights, job.positions, job.pair, next_id(m)),
    )
}

/// The state without job `i` in the queue.
pub open spec fn drop_job(m: LearnerModel, i: int) -> LearnerModel {
    LearnerModel { waiting: m.waiting.remove(i), ..m }
}

/// One round of the merge loop: jobs leave the queue until one is not stale; that
/// one is merged. The result is the state afterwards and the rule learned, or no
/// rule when the queue ran empty.
pub open spec fn next_merge(m: LearnerModel) -> (LearnerModel, Option<MergeRule>)
    decreases m.waiting.len(),
    when m.waiting.finite()
    via next_merge_decreases
{
    if m.waiting.len() == 0 || !m.waiting.contains(first_waiting(m)) {
        (m, None)
    } else {
        let i = first_waiting(m);
        let job = m.jobs[i];
        if is_stale(m.live, job) {
            next_merge(drop_job(m, i))
        } else {
            (
                apply_merge(drop_job(m, i), job),
                Some(MergeRule { left: job.pair.0, right: job.pair.1, new_id: next_id(m) }),
            )
        }
    }
}

#[via_fn]
proof fn next_merge_decreases(m: LearnerModel) {
    if !(m.waiting.len() == 0 || !m.waiting.contains(first_waiting(m))) {
        let i = first_waiting(m);
        assert(m.waiting.remove(i).len() < m.waiting.len());
    }
}

/// The rules of up to `budget` rounds of the merge loop, in the order learned.
/// Learning ends early when a round finds the queue empty.
pub open spec fn learn(m: LearnerModel, budget: nat) -> Seq<MergeRule>
    decreases budget,
{
    if budget == 0 {
        seq![]
    } else {
        match next_merge(m).1 {
            Some(rule) => seq![rule] + learn(next_merge(m).0, (budget - 1) as nat),
            None => seq![],
        }
    }
}

/// The state after up to `budget` rounds of the merge loop.
pub open spec fn learn_state(m: LearnerModel, budget: nat) -> LearnerModel
    decreases budget,
{
    if budget == 0 {
        m
    } else {
        match next_merge(m).1 {
            Some(rule) => learn_state(next_merge(m).0, (budget - 1) as nat),
            None => next_merge(m).0,
        }
    }
}

/// What holds of every state that a learner reaches.
pub open spec fn model_wf(m: LearnerModel) -> bool {
    &&& m.weights.len() == m.words.len()
    &&& m.waiting.finite()
    &&& all_positive(m.live)
    &&& forall|i: int| m.waiting.contains(i) ==> 0 <= i < m.jobs.len()
    &&& forall|i: int|
        0 <= i < m.jobs.len() ==> {
            &&& (#[trigger] m.jobs[i]).count > 0
            &&& strictly_ascending(m.jobs[i].positions)
            &&& forall|k: int|
                0 <= k < m.jobs[i].positions.len() ==> (#[trigger] m.jobs[i].positions[k])
                    < m.words.len()
        }
}

/// Every list of words in `tally` rises strictly and ends at `word` or before.
pub open spec fn tally_rising(tally: Seq<TallyEntryModel>, word: int) -> bool {
    forall|i: int|
        0 <= i < tally.len() ==> strictly_ascending((#[trigger] tally[i]).positions)
            && tally[i].positions.last() <= word
}

/// A tally whose lists rise keeps them rising when a later word is added.
pub proof fn lemma_tally_add_rising(
    tally: Seq<TallyEntryModel>,
    pair: Pair,
    amount: int,
    before: int,
    word: usize,
)
    requires
        tally_wf(tally),
        tally_rising(tally, before),
        before <= word,
    ensures
        tally_rising(tally_add(tally, pair, amount, word), word as int),
{
    let after = tally_add(tally, pair, amount, word);
    assert forall|i: int| 0 <= i < after.len() implies strictly_ascending(
        (#[trigger] after[i]).positions,
    ) && after[i].positions.last() <= word by {
        if i < tally.len() {
            assert(strictly_ascending(tally[i].positions) && tally[i].positions.last() <= before);
            assert(tally[i].positions.len() > 0);
        }
    }
}

/// The same for a list of changes in one word.
pub proof fn lemma_tally_add_all_rising(
    tally: Seq<TallyEntryModel>,
    deltas: Seq<(Pair, i32)>,
    weight: int,
    before: int,
    word: usize,
)
    requires
        tally_wf(tally),
        tally_rising(tally, before),
        before <= word,
    ensures
        tally_wf(tally_add_all(tally, deltas, weight, word)),
        tally_rising(tally_add_all(tally, deltas, weight, word), word as int),
    decreases deltas.len(),
{
    if deltas.len() == 0 {
        assert forall|i: int| 0 <= i < tally.len() implies strictly_ascending(
            (#[trigger] tally[i]).positions,
        ) && tally[i].positions.last() <= word by {}
    } else {
        lemma_tally_add_all_rising(tally, deltas.drop_last(), weight, before, word);
        let prior = tally_add_all(tally, deltas.drop_last(), weight, word);
        crate::tally::lemma_tally_add(prior, deltas.last().0, deltas.last().1 * weight, word);
        lemma_tally_add_rising(
            prior,
            deltas.last().0,
            deltas.last().1 * weight,
            word as int,
            word,
        );
    }
}

/// Replacing one word moves the total length by the difference of the two.
pub proof fn lemma_total_len_update(words: Seq<Seq<u32>>, i: int, word: Seq<u32>)
    requires
        0 <= i < words.len(),
    ensures
        total_len(words.update(i, word)) == total_len(words) - words[i].len() + word.len(),
    decreases words.len(),
{
    let after = words.update(i, word);
    if i == words.len() - 1 {
        assert(after.drop_last() =~= words.drop_last());
    } else {
        assert(after.drop_last() =~= words.drop_last().update(i, word));
        lemma_total_len_update(words.drop_last(), i, word);
    }
}

/// No word is longer than all words together.
pub proof fn lemma_total_len_bounds(words: Seq<Seq<u32>>, i: int)
    requires
        0 <= i < words.len(),
    ensures
        words[i].len() <= total_len(words),
        0 <= total_len(words.take(i)) <= total_len(words.take(i + 1)) <= total_len(words),
        total_len(words.take(i + 1)) == total_len(words.take(i)) + words[i].len(),
    decreases words.len(),
{
    lemma_total_len_nonnegative(words.take(i));
    assert(words.take(i + 1).drop_last() =~= words.take(i));
    if i == words.len() - 1 {
        assert(words.take(i + 1) =~= words);
    } else {
        lemma_total_len_bounds(words.drop_last(), i);
        assert(words.drop_last().take(i) =~= words.take(i));
        assert(words.drop_last().take(i + 1) =~= words.take(i + 1));
    }
}

/// A total length is never negative.
pub proof fn lemma_total_len_nonnegative(words: Seq<Seq<u32>>)
    ensures
        0 <= total_len(words),
    decreases words.len(),
{
    if words.len() > 0 {
        lemma_total_len_nonnegative(words.drop_last());
    }
}

/// Every id of `ids` meets `ok`.
pub open spec fn word_ok(ids: Seq<u32>, ok: spec_fn(u32) -> bool) -> bool {
    forall|k: int| 0 <= k < ids.len() ==> ok(#[trigger] ids[k])
}

/// Every id of `ids` is below `limit`.
pub open spec fn word_below(ids: Seq<u32>, limit: int) -> bool {
    forall|k: int| 0 <= k < ids.len() ==> (#[trigger] ids[k]) < limit
}

/// Both ids of every listed pair meet `ok`.
pub open spec fn deltas_ok(deltas: Seq<(Pair, i32)>, ok: spec_fn(u32) -> bool) -> bool {
    forall|k: int| 0 <= k < deltas.len() ==> ok((#[trigger] deltas[k]).0.0) && ok(deltas[k].0.1)
}

/// Both ids of every pair of `tally` meet `ok`.
pub open spec fn tally_ok(tally: Seq<TallyEntryModel>, ok: spec_fn(u32) -> bool) -> bool {
    forall|k: int| 0 <= k < tally.len() ==> ok((#[trigger] tally[k]).pair.0) && ok(tally[k].pair.1)
}

/// Every id in the words and in the pairs of the jobs meets `ok`.
pub open spec fn ids_ok(m: LearnerModel, ok: spec_fn(u32) -> bool) -> bool {
    &&& forall|i: int| 0 <= i < m.words.len() ==> word_ok(#[trigger] m.words[i], ok)
    &&& forall|i: int| 0 <= i < m.jobs.len() ==> ok((#[trigger] m.jobs[i]).pair.0) && ok(
        m.jobs[i].pair.1,
    )
}

/// Every id in the words and in the pairs of the jobs is below `limit`.
pub open spec fn ids_below(m: LearnerModel, limit: int) -> bool {
    &&& forall|i: int| 0 <= i < m.words.len() ==> word_below(#[trigger] m.words[i], limit)
    &&& forall|i: int|
        0 <= i < m.jobs.len() ==> (#[trigger] m.jobs[i]).pair.0 < limit && m.jobs[i].pair.1
            < limit
}

/// To be below a limit is to meet the condition of being below it.
pub proof fn lemma_ids_below(m: LearnerModel, limit: int)
    ensures
        ids_below(m, limit) <==> ids_ok(m, |id: u32| id < limit),
{
    let ok = |id: u32| id < limit;
    if ids_below(m, limit) {
        assert forall|i: int| 0 <= i < m.words.len() implies word_ok(#[trigger] m.words[i], ok) by {
            assert(word_below(m.words[i], limit));
        }
        assert forall|i: int| 0 <= i < m.jobs.len() implies ok((#[trigger] m.jobs[i]).pair.0)
            && ok(m.jobs[i].pair.1) by {
            assert(m.jobs[i].pair.0 < limit);
        }
    }
    if ids_ok(m, ok) {
        assert forall|i: int| 0 <= i < m.words.len() implies word_below(
            #[trigger] m.words[i],
            limit,
        ) by {
            assert(word_ok(m.words[i], ok));
            assert forall|k: int| 0 <= k < m.words[i].len() implies (#[trigger] m.words[i][k])
                < limit by {
                assert(ok(m.words[i][k]));
            }
        }
        assert forall|i: int| 0 <= i < m.jobs.len() implies (#[trigger] m.jobs[i]).pair.0 < limit
            && m.jobs[i].pair.1 < limit by {
            assert(ok(m.jobs[i].pair.0) && ok(m.jobs[i].pair.1));
        }
    }
}

/// One round of the merge loop with ids below the next free id: the rule that it
/// learns joins two ids below the next free id, and afterwards every id is below
/// the id that is free then.
pub proof fn lemma_next_merge_below(m: LearnerModel)
    requires
        model_wf(m),
        m.first_id + m.merges_done < u32::MAX,
        ids_below(m, m.first_id + m.merges_done),
    ensures
        next_merge(m).1 matches Some(rule) ==> {
            &&& rule.left < m.first_id + m.merges_done
            &&& rule.right < m.first_id + m.merges_done
            &&& ids_below(next_merge(m).0, m.first_id + m.merges_done + 1)
        },
        next_merge(m).1 is None ==> ids_below(next_merge(m).0, m.first_id + m.merges_done),
{
    let now = m.first_id + m.merges_done;
    let tight = |id: u32| id < now;
    let wide = |id: u32| id < now + 1;
    lemma_ids_below(m, now);
    lemma_ids_ok_weaken(m, tight, wide);
    lemma_next_merge_ids(m, wide);
    lemma_ids_below(next_merge(m).0, now + 1);
    if next_merge(m).1 is None {
        lemma_next_merge_quiet(m);
    } else {
        lemma_next_merge_rule(m);
        let rule = next_merge(m).1->0;
        lemma_job_ids(m, tight);
    }
}

/// A round that learns nothing leaves the jobs and the words as they are.
pub proof fn lemma_next_merge_quiet(m: LearnerModel)
    requires
        m.waiting.finite(),
        next_merge(m).1 is None,
    ensures
        next_merge(m).0.jobs == m.jobs,
        next_merge(m).0.words == m.words,
    decreases m.waiting.len(),
{
    if m.waiting.len() == 0 || !m.waiting.contains(first_waiting(m)) {
    } else {
        let i = first_waiting(m);
        if is_stale(m.live, m.jobs[i]) {
            lemma_next_merge_quiet(drop_job(m, i));
        }
    }
}

/// The rule of a round is the pair of one of the jobs.
pub proof fn lemma_next_merge_rule(m: LearnerModel)
    requires
        m.waiting.finite(),
        forall|i: int| m.waiting.contains(i) ==> 0 <= i < m.jobs.len(),
        next_merge(m).1 is Some,
    ensures
        exists|i: int|
            0 <= i < m.jobs.len() && (#[trigger] m.jobs[i]).pair == (
                next_merge(m).1->0.left,
                next_merge(m).1->0.right,
            ),
    decreases m.waiting.len(),
{
    if m.waiting.len() == 0 || !m.waiting.contains(first_waiting(m)) {
    } else {
        let i = first_waiting(m);
        if is_stale(m.live, m.jobs[i]) {
            lemma_next_merge_rule(drop_job(m, i));
        } else {
            assert(m.jobs[i].pair == (next_merge(m).1->0.left, next_merge(m).1->0.right));
        }
    }
}

/// Where every id meets `ok`, the ids of the rule of a round do.
pub proof fn lemma_job_ids(m: LearnerModel, ok: spec_fn(u32) -> bool)
    requires
        m.waiting.finite(),
        forall|i: int| m.waiting.contains(i) ==> 0 <= i < m.jobs.len(),
        ids_ok(m, ok),
        next_merge(m).1 is Some,
    ensures
        ok(next_merge(m).1->0.left),
        ok(next_merge(m).1->0.right),
{
    lemma_next_merge_rule(m);
    let i = choose|i: int|
        0 <= i < m.jobs.len() && (#[trigger] m.jobs[i]).pair == (
            next_merge(m).1->0.left,
            next_merge(m).1->0.right,
        );
    assert(ok(m.jobs[i].pair.0) && ok(m.jobs[i].pair.1));
}

/// A merge writes ids of the word and the new id only.
pub proof fn lemma_merge_ids_ok(ids: Seq<u32>, pair: Pair, new_id: u32, ok: spec_fn(u32) -> bool)
    requires
        word_ok(ids, ok),
        ok(new_id),
    ensures
        word_ok(merge_ids(ids, pair, new_id), ok),
    decreases ids.len(),
{
    if ids.len() < 2 {
    } else if ids[0] == pair.0 && ids[1] == pair.1 {
        assert forall|k: int| 0 <= k < ids.skip(2).len() implies ok(#[trigger] ids.skip(2)[k]) by {
            assert(ok(ids[k + 2]));
        }
        lemma_merge_ids_ok(ids.skip(2), pair, new_id, ok);
        let rest = merge_ids(ids.skip(2), pair, new_id);
        assert forall|k: int| 0 <= k < (seq![new_id] + rest).len() implies ok(
            #[trigger] (seq![new_id] + rest)[k],
        ) by {
            if k > 0 {
                assert(ok(rest[k - 1]));
            }
        }
    } else {
        assert forall|k: int| 0 <= k < ids.skip(1).len() implies ok(#[trigger] ids.skip(1)[k]) by {
            assert(ok(ids[k + 1]));
        }
        lemma_merge_ids_ok(ids.skip(1), pair, new_id, ok);
        let rest = merge_ids(ids.skip(1), pair, new_id);
        assert(ok(ids[0]));
        assert forall|k: int| 0 <= k < (seq![ids[0]] + rest).len() implies ok(
            #[trigger] (seq![ids[0]] + rest)[k],
        ) by {
            if k > 0 {
                assert(ok(rest[k - 1]));
            }
        }
    }
}

/// The changes of a merge name ids of the word and the new id only.
pub proof fn lemma_merge_deltas_ok(
    prev: Option<u32>,
    ids: Seq<u32>,
    pair: Pair,
    new_id: u32,
    ok: spec_fn(u32) -> bool,
)
    requires
        word_ok(ids, ok),
        ok(new_id),
        prev matches Some(p) ==> ok(p),
    ensures
        deltas_ok(merge_deltas(prev, ids, pair, new_id), ok),
    decreases ids.len(),
{
    if ids.len() < 2 {
    } else if ids[0] == pair.0 && ids[1] == pair.1 {
        assert forall|k: int| 0 <= k < ids.skip(2).len() implies ok(#[trigger] ids.skip(2)[k]) by {
            assert(ok(ids[k + 2]));
        }
        lemma_merge_deltas_ok(Some(new_id), ids.skip(2), pair, new_id, ok);
        let tail = merge_deltas(Some(new_id), ids.skip(2), pair, new_id);
        let next = if ids.len() > 2 {
            Some(ids[2])
        } else {
            None
        };
        let head = crate::word::replacement_deltas(prev, next, pair, new_id);
        assert(ok(ids[0]) && ok(ids[1]));
        if ids.len() > 2 {
            assert(ok(ids[2]));
        }
        assert(deltas_ok(head, ok));
        assert forall|k: int| 0 <= k < (head + tail).len() implies ok(
            (#[trigger] (head + tail)[k]).0.0,
        ) && ok((head + tail)[k].0.1) by {
            if k < head.len() {
                assert(ok(head[k].0.0));
            } else {
                assert(ok(tail[k - head.len()].0.0));
            }
        }
    } else {
        assert forall|k: int| 0 <= k < ids.skip(1).len() implies ok(#[trigger] ids.skip(1)[k]) by {
            assert(ok(ids[k + 1]));
        }
        assert(ok(ids[0]));
        lemma_merge_deltas_ok(Some(ids[0]), ids.skip(1), pair, new_id, ok);
    }
}

/// A tally of pairs that meet `ok` stays one when such pairs are added.
pub proof fn lemma_tally_add_all_ok(
    tally: Seq<TallyEntryModel>,
    deltas: Seq<(Pair, i32)>,
    weight: int,
    word: usize,
    ok: spec_fn(u32) -> bool,
)
    requires
        tally_ok(tally, ok),
        deltas_ok(deltas, ok),
    ensures
        tally_ok(tally_add_all(tally, deltas, weight, word), ok),
    decreases deltas.len(),
{
    if deltas.len() > 0 {
        assert forall|k: int| 0 <= k < deltas.drop_last().len() implies ok(
            (#[trigger] deltas.drop_last()[k]).0.0,
        ) && ok(deltas.drop_last()[k].0.1) by {
            assert(ok(deltas[k].0.0));
        }
        lemma_tally_add_all_ok(tally, deltas.drop_last(), weight, word, ok);
        let prior = tally_add_all(tally, deltas.drop_last(), weight, word);
        let after = tally_add(prior, deltas.last().0, deltas.last().1 * weight, word);
        assert(ok(deltas[deltas.len() - 1].0.0) && ok(deltas[deltas.len() - 1].0.1));
        assert forall|k: int| 0 <= k < after.len() implies ok((#[trigger] after[k]).pair.0) && ok(
            after[k].pair.1,
        ) by {
            if k < prior.len() {
                assert(ok(prior[k].pair.0));
            }
        }
    }
}

/// The tally of a merge names ids of the words and the new id only.
pub proof fn lemma_merge_tally_ok(
    words: Seq<Seq<u32>>,
    weights: Seq<i32>,
    positions: Seq<usize>,
    pair: Pair,
    new_id: u32,
    ok: spec_fn(u32) -> bool,
)
    requires
        forall|i: int| 0 <= i < words.len() ==> word_ok(#[trigger] words[i], ok),
        forall|k: int| 0 <= k < positions.len() ==> (#[trigger] positions[k]) < words.len(),
        ok(new_id),
    ensures
        tally_ok(merge_tally(words, weights, positions, pair, new_id), ok),
    decreases positions.len(),
{
    if positions.len() > 0 {
        let word = positions.last();
        assert(positions[positions.len() - 1] < words.len());
        assert forall|k: int| 0 <= k < positions.drop_last().len() implies (
        #[trigger] positions.drop_last()[k]) < words.len() by {
            assert(positions[k] < words.len());
        }
        lemma_merge_tally_ok(words, weights, positions.drop_last(), pair, new_id, ok);
        assert(word_ok(words[word as int], ok));
        lemma_merge_deltas_ok(None, words[word as int], pair, new_id, ok);
        lemma_tally_add_all_ok(
            merge_tally(words, weights, positions.drop_last(), pair, new_id),
            merge_deltas(None, words[word as int], pair, new_id),
            weights[word as int] as int,
            word,
            ok,
        );
    }
}

/// The tally of the first sweep names ids of the words only.
pub proof fn lemma_initial_tally_ok(
    words: Seq<Seq<u32>>,
    weights: Seq<i32>,
    n: int,
    ok: spec_fn(u32) -> bool,
)
    requires
        forall|i: int| 0 <= i < words.len() ==> word_ok(#[trigger] words[i], ok),
        0 <= n <= words.len(),
    ensures
        tally_ok(initial_tally(words, weights, n), ok),
    decreases n,
{
    if n > 0 {
        lemma_initial_tally_ok(words, weights, n - 1, ok);
        let ids = words[n - 1];
        assert(word_ok(ids, ok));
        assert forall|k: int| 0 <= k < pair_gains(ids).len() implies ok(
            (#[trigger] pair_gains(ids)[k]).0.0,
        ) && ok(pair_gains(ids)[k].0.1) by {
            assert(ok(ids[k]) && ok(ids[k + 1]));
        }
        lemma_tally_add_all_ok(
            initial_tally(words, weights, n - 1),
            pair_gains(ids),
            weights[n - 1] as int,
            (n - 1) as usize,
            ok,
        );
    }
}

/// Publishing leaves the words, the counts of the words, the first id and the
/// number of merges as they are, keeps the live counts positive, and publishes
/// jobs for pairs of the tally only.
pub proof fn lemma_publish(m: LearnerModel, tally: Seq<TallyEntryModel>)
    ensures
        publish(m, tally).words == m.words,
        publish(m, tally).weights == m.weights,
        publish(m, tally).first_id == m.first_id,
        publish(m, tally).merges_done == m.merges_done,
        all_positive(m.live) ==> all_positive(publish(m, tally).live),
        forall|ok: spec_fn(u32) -> bool|
            ids_ok(m, ok) && tally_ok(tally, ok) ==> #[trigger] ids_ok(publish(m, tally), ok),
        tally.len() == 0 ==> publish(m, tally) == m,
    decreases tally.len(),
{
    if tally.len() > 0 {
        lemma_publish(m, tally.drop_last());
        let prior = publish(m, tally.drop_last());
        let after = publish_one(prior, tally.last());
        assert forall|ok: spec_fn(u32) -> bool|
            ids_ok(m, ok) && tally_ok(tally, ok) implies #[trigger] ids_ok(
            publish(m, tally),
            ok,
        ) by {
            assert forall|k: int| 0 <= k < tally.drop_last().len() implies ok(
                (#[trigger] tally.drop_last()[k]).pair.0,
            ) && ok(tally.drop_last()[k].pair.1) by {
                assert(ok(tally[k].pair.0));
            }
            assert(ids_ok(prior, ok));
            assert(ok(tally[tally.len() - 1].pair.0) && ok(tally[tally.len() - 1].pair.1));
            assert forall|i: int| 0 <= i < after.jobs.len() implies ok(
                (#[trigger] after.jobs[i]).pair.0,
            ) && ok(after.jobs[i].pair.1) by {
                if i < prior.jobs.len() {
                    assert(ok(prior.jobs[i].pair.0));
                }
            }
        }
    }
}

/// Before the first merge every id is an id of the corpus.
pub proof fn lemma_initial_ids_ok(
    words: Seq<Seq<u32>>,
    weights: Seq<i32>,
    first_id: u32,
    ok: spec_fn(u32) -> bool,
)
    requires
        forall|i: int| 0 <= i < words.len() ==> word_ok(#[trigger] words[i], ok),
    ensures
        ids_ok(initial_model(words, weights, first_id), ok),
        initial_model(words, weights, first_id).words == words,
        initial_model(words, weights, first_id).first_id == first_id,
        initial_model(words, weights, first_id).merges_done == 0,
        all_positive(initial_model(words, weights, first_id).live),
{
    let start = LearnerModel {
        words,
        weights,
        live: Map::empty(),
        jobs: seq![],
        waiting: Set::empty(),
        first_id,
        merges_done: 0,
    };
    lemma_initial_tally_ok(words, weights, words.len() as int, ok);
    lemma_publish(start, initial_tally(words, weights, words.len() as int));
    assert(ids_ok(start, ok));
}

/// Ids that meet a condition meet every weaker one.
pub proof fn lemma_ids_ok_weaken(m: LearnerModel, ok: spec_fn(u32) -> bool, weaker: spec_fn(u32) -> bool)
    requires
        ids_ok(m, ok),
        forall|id: u32| ok(id) ==> #[trigger] weaker(id),
    ensures
        ids_ok(m, weaker),
{
    assert forall|i: int| 0 <= i < m.words.len() implies word_ok(#[trigger] m.words[i], weaker) by {
        assert(word_ok(m.words[i], ok));
        assert forall|k: int| 0 <= k < m.words[i].len() implies weaker(
            #[trigger] m.words[i][k],
        ) by {
            assert(ok(m.words[i][k]));
        }
    }
    assert forall|i: int| 0 <= i < m.jobs.len() implies weaker((#[trigger] m.jobs[i]).pair.0)
        && weaker(m.jobs[i].pair.1) by {
        assert(ok(m.jobs[i].pair.0) && ok(m.jobs[i].pair.1));
    }
}

/// What one round of the merge loop does to the ids. Where every id meets `ok`
/// and the next free id does too, the rule that the round learns joins two ids
/// that meet `ok` into the next free id, and every id meets `ok` afterwards.
/// The live counts stay positive.
pub proof fn lemma_next_merge_ids(m: LearnerModel, ok: spec_fn(u32) -> bool)
    requires
        model_wf(m),
        m.first_id + m.merges_done < u32::MAX,
        ids_ok(m, ok),
        ok(next_id(m)),
    ensures
        next_merge(m).0.first_id == m.first_id,
        next_merge(m).0.weights == m.weights,
        all_positive(next_merge(m).0.live),
        ids_ok(next_merge(m).0, ok),
        next_merge(m).1 matches Some(rule) ==> {
            &&& ok(rule.left)
            &&& ok(rule.right)
            &&& rule.new_id == m.first_id + m.merges_done
            &&& next_merge(m).0.merges_done == m.merges_done + 1
        },
        next_merge(m).1 is None ==> {
            &&& next_merge(m).0.merges_done == m.merges_done
            &&& next_merge(m).0.words == m.words
        },
    decreases m.waiting.len(),
{
    if m.waiting.len() == 0 || !m.waiting.contains(first_waiting(m)) {
    } else {
        let i = first_waiting(m);
        let job = m.jobs[i];
        let rest = drop_job(m, i);
        if is_stale(m.live, job) {
            lemma_next_merge_ids(rest, ok);
        } else {
            let new_id = next_id(m);
            let words = merged_words(m.words, job.positions, job.pair, new_id);
            let middle = LearnerModel { words, merges_done: m.merges_done + 1, ..rest };
            let tally = merge_tally(m.words, m.weights, job.positions, job.pair, new_id);
            assert forall|k: int| 0 <= k < words.len() implies word_ok(#[trigger] words[k], ok) by {
                assert(word_ok(m.words[k], ok));
                lemma_merge_ids_ok(m.words[k], job.pair, new_id, ok);
            }
            lemma_merge_tally_ok(m.words, m.weights, job.positions, job.pair, new_id, ok);
            lemma_publish(middle, tally);
            assert(ids_ok(middle, ok)) by {
                assert forall|k: int| 0 <= k < middle.jobs.len() implies ok(
                    (#[trigger] middle.jobs[k]).pair.0,
                ) && ok(middle.jobs[k].pair.1) by {
                    assert(ok(m.jobs[k].pair.0));
                }
            }
            assert(ok(job.pair.0) && ok(job.pair.1));
        }
    }
}

/// A corpus in which no word has two ids teaches nothing: no round of the merge
/// loop finds a job.
pub proof fn lemma_short_words_teach_nothing(
    words: Seq<Seq<u32>>,
    weights: Seq<i32>,
    first_id: u32,
    budget: nat,
)
    requires
        forall|i: int| 0 <= i < words.len() ==> (#[trigger] words[i]).len() < 2,
    ensures
        learn(initial_model(words, weights, first_id), budget) == Seq::<MergeRule>::empty(),
{
    lemma_short_words_count_nothing(words, weights, words.len() as int);
    let start = LearnerModel {
        words,
        weights,
        live: Map::empty(),
        jobs: seq![],
        waiting: Set::empty(),
        first_id,
        merges_done: 0,
    };
    lemma_publish(start, initial_tally(words, weights, words.len() as int));
    assert(initial_model(words, weights, first_id) == start);
    assert(start.waiting.len() == 0);
    assert(next_merge(start).1 is None);
}

/// The first sweep over words of one id at most counts no pair.
pub proof fn lemma_short_words_count_nothing(words: Seq<Seq<u32>>, weights: Seq<i32>, n: int)
    requires
        forall|i: int| 0 <= i < words.len() ==> (#[trigger] words[i]).len() < 2,
        0 <= n <= words.len(),
    ensures
        initial_tally(words, weights, n) == Seq::<TallyEntryModel>::empty(),
    decreases n,
{
    if n > 0 {
        lemma_short_words_count_nothing(words, weights, n - 1);
        assert(words[n - 1].len() < 2);
        assert(pair_gains(words[n - 1]) =~= Seq::<(Pair, i32)>::empty());
    }
}

/// Training is a function of the corpus, the first id and the number of merges
/// asked for: equal inputs give equal rules.
pub proof fn lemma_learning_is_determined(
    words: Seq<Seq<u32>>,
    weights: Seq<i32>,
    first_id: u32,
    budget: nat,
    other_words: Seq<Seq<u32>>,
    other_weights: Seq<i32>,
    other_first_id: u32,
    other_budget: nat,
)
    requires
        words == other_words,
        weights == other_weights,
        first_id == other_first_id,
        budget == other_budget,
    ensures
        learn(initial_model(words, weights, first_id), budget) == learn(
            initial_model(other_words, other_weights, other_first_id),
            other_budget,
        ),
{
}

/// With no merge asked for, no rule is learned.
pub proof fn lemma_no_budget_no_rules(m: LearnerModel)
    ensures
        learn(m, 0) == Seq::<MergeRule>::empty(),
        learn_state(m, 0) == m,
{
}

} // verus!
