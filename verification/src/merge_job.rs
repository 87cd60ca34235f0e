//! A merge job: a candidate pair, the count it was published with, and the words
//! that hold it.

use std::collections::HashSet;
use vstd::prelude::*;
use vstd::std_specs::iter::IteratorSpec;

verus! {

/// A candidate for the next merge.
#[derive(Debug)]
pub struct MergeJob<Id> {
    /// The pair to merge.
    pub pair: (Id, Id),
    /// The number of occurrences of the pair when the job was published.
    pub count: u64,
    /// The indices of the words that hold the pair.
    pub pos: HashSet<usize>,
}

/// `s` rises strictly from left to right.
pub open spec fn strictly_ascending(s: Seq<usize>) -> bool {
    forall|i: int, j: int| 0 <= i < j < s.len() ==> s[i] < s[j]
}

/// A set of indices has one strictly ascending listing only.
pub proof fn lemma_ascending_unique(x: Seq<usize>, y: Seq<usize>)
    requires
        strictly_ascending(x),
        strictly_ascending(y),
        x.to_set() == y.to_set(),
    ensures
        x == y,
    decreases x.len(),
{
    if x.len() == 0 {
        if y.len() > 0 {
            assert(y.to_set().contains(y[0]));
            assert(x.to_set().contains(y[0]));
        }
        assert(x =~= y);
    } else {
        let top = x.last();
        assert(x.to_set().contains(top));
        assert(y.to_set().contains(top));
        assert(y.len() > 0);
        let k = choose|k: int| 0 <= k < y.len() && y[k] == top;
        assert(y.to_set().contains(y.last()));
        assert(x.to_set().contains(y.last()));
        let m = choose|m: int| 0 <= m < x.len() && x[m] == y.last();
        assert(y.last() == top);
        let xs = x.drop_last();
        let ys = y.drop_last();
        assert forall|v: usize| xs.to_set().contains(v) <==> ys.to_set().contains(v) by {
            if xs.to_set().contains(v) {
                let i = choose|i: int| 0 <= i < xs.len() && xs[i] == v;
                assert(x[i] == v);
                assert(x.to_set().contains(v));
                assert(y.to_set().contains(v));
                let j = choose|j: int| 0 <= j < y.len() && y[j] == v;
                assert(v < top);
                assert(ys[j] == v);
            }
            if ys.to_set().contains(v) {
                let i = choose|i: int| 0 <= i < ys.len() && ys[i] == v;
                assert(y[i] == v);
                assert(y.to_set().contains(v));
                assert(x.to_set().contains(v));
                let j = choose|j: int| 0 <= j < x.len() && x[j] == v;
                assert(v < top);
                assert(xs[j] == v);
            }
        }
        assert(xs.to_set() =~= ys.to_set());
        lemma_ascending_unique(xs, ys);
        assert(x =~= xs.push(top));
        assert(y =~= ys.push(top));
    }
}

/// `slice::sort_unstable` of std on word indices: afterwards the vector holds what
/// it held before, each index as often as before, in rising order.
#[verifier::external_body]
pub(crate) fn sort_indices(indices: &mut Vec<usize>)
    ensures
        final(indices)@.to_multiset() == old(indices)@.to_multiset(),
        forall|i: int, j: int|
            0 <= i < j < final(indices)@.len() ==> final(indices)@[i] <= final(indices)@[j],
{
    indices.sort_unstable();
}

impl<Id> MergeJob<Id> {
    /// A job for `pair` with the given count and no positions yet.
    pub fn new(pair: (Id, Id), count: u64) -> (job: Self)
        ensures
            job.pair == pair,
            job.count == count,
            job.pos@ == Set::<usize>::empty(),
    {
        Self { pair, count, pos: HashSet::new() }
    }

    /// Adds one word index.
    pub fn add_position(&mut self, pos: usize)
        ensures
            final(self).pos@ == old(self).pos@.insert(pos),
            final(self).pair == old(self).pair,
            final(self).count == old(self).count,
    {
        broadcast use vstd::std_specs::hash::group_hash_axioms;

        self.pos.insert(pos);
    }

    /// Adds every word index of `positions`.
    pub fn add_positions(&mut self, positions: &[usize])
        ensures
            final(self).pos@ == old(self).pos@.union(positions@.to_set()),
            final(self).pair == old(self).pair,
            final(self).count == old(self).count,
    {
        broadcast use vstd::std_specs::hash::group_hash_axioms;

        let mut i: usize = 0;
        while i < positions.len()
            invariant
                i <= positions.len(),
                self.pos@ == old(self).pos@.union(positions@.take(i as int).to_set()),
                self.pair == old(self).pair,
                self.count == old(self).count,
            decreases positions.len() - i,
        {
            self.pos.insert(positions[i]);
            proof {
                let before = positions@.take(i as int);
                let after = positions@.take(i + 1);
                assert(after == before.push(positions@[i as int]));
                assert forall|v: usize| after.to_set().contains(v) <==> (before.to_set().contains(
                    v,
                ) || v == positions@[i as int]) by {
                    if after.to_set().contains(v) {
                        let k = choose|k: int| 0 <= k < after.len() && after[k] == v;
                        if k < i {
                            assert(before[k] == v);
                        }
                    }
                    if before.to_set().contains(v) {
                        let k = choose|k: int| 0 <= k < before.len() && before[k] == v;
                        assert(after[k] == v);
                    }
                    if v == positions@[i as int] {
                        assert(after[i as int] == v);
                    }
                }
                assert(self.pos@ =~= old(self).pos@.union(after.to_set()));
            }
            i += 1;
        }
        proof {
            assert(positions@.take(positions@.len() as int) == positions@);
        }
    }

    /// The word indices of the job in rising order.
    pub fn sorted_positions(&self) -> (indices: Vec<usize>)
        ensures
            strictly_ascending(indices@),
            indices@.to_set() == self.pos@,
    {
        rising(&self.pos)
    }
}

/// The numbers of a set in rising order.
pub fn rising(set: &HashSet<usize>) -> (indices: Vec<usize>)
    ensures
        strictly_ascending(indices@),
        indices@.to_set() == set@,
{
    broadcast use vstd::std_specs::hash::group_hash_axioms;

    let mut indices: Vec<usize> = Vec::new();
    for x in it: set.iter()
        invariant
            it.seq() == set.iter().remaining(),
            indices@ == it.seq().unref().take(it.index() as int),
    {
        indices.push(*x);
    }
    let ghost listed = indices@;
    assert(listed == set.iter().remaining().unref());
    assert(listed.no_duplicates());
    sort_indices(&mut indices);
    proof {
        broadcast use vstd::seq_lib::group_to_multiset_ensures;

        let sorted = indices@;
        listed.lemma_multiset_has_no_duplicates();
        sorted.lemma_multiset_has_no_duplicates_conv();
        assert forall|v: usize| sorted.to_set().contains(v) <==> listed.to_set().contains(
            v,
        ) by {
            assert(sorted.contains(v) <==> sorted.to_multiset().count(v) > 0);
            assert(listed.contains(v) <==> listed.to_multiset().count(v) > 0);
        }
        assert(sorted.to_set() =~= listed.to_set());
        assert forall|i: int, j: int| 0 <= i < j < sorted.len() implies sorted[i]
            < sorted[j] by {
            assert(sorted[i] != sorted[j]);
        }
    }
    indices
}

/// Whether a job of `count` for `pair` leaves a queue before one of
/// `other_count` for `other`: the higher count first, and of two jobs with the
/// same count the one with the smaller pair.
pub open spec fn ranks_above(pair: (u32, u32), count: u64, other: (u32, u32), other_count: u64) -> bool {
    if count != other_count {
        count > other_count
    } else if pair.0 != other.0 {
        pair.0 < other.0
    } else {
        pair.1 < other.1
    }
}

impl MergeJob<u32> {
    /// Whether the two jobs have the same count and the same pair. Their
    /// positions do not count.
    pub fn same_rank(&self, other: &Self) -> (same: bool)
        ensures
            same == (self.count == other.count && self.pair == other.pair),
    {
        self.count == other.count && self.pair.0 == other.pair.0 && self.pair.1 == other.pair.1
    }

    /// Whether this job leaves a queue before `other`.
    pub fn goes_before(&self, other: &Self) -> (first: bool)
        ensures
            first == ranks_above(self.pair, self.count, other.pair, other.count),
            first ==> !ranks_above(other.pair, other.count, self.pair, self.count),
            !first && !self.same_rank_spec(other) ==> ranks_above(
                other.pair,
                other.count,
                self.pair,
                self.count,
            ),
    {
        if self.count != other.count {
            self.count > other.count
        } else if self.pair.0 != other.pair.0 {
            self.pair.0 < other.pair.0
        } else {
            self.pair.1 < other.pair.1
        }
    }

    /// Whether the two jobs have the same count and the same pair.
    pub open spec fn same_rank_spec(&self, other: &Self) -> bool {
        self.count == other.count && self.pair == other.pair
    }
}

} // verus!
