//! A word: the id sequence of one pre-token, with the pair-aware merge.

use vstd::prelude::*;

verus! {

/// The id sequence that stands for one pre-token.
#[derive(Debug, Clone, PartialEq, Eq)]
pub struct Word<Id> {
    /// The ids, in text order.
    pub ids: Vec<Id>,
}

impl<Id> View for Word<Id> {
    type V = Seq<Id>;

    open spec fn view(&self) -> Seq<Id> {
        self.ids@
    }
}

/// The adjacent pairs of `ids`, left to right: `(ids[0], ids[1])`, `(ids[1], ids[2])`, ...
pub open spec fn adjacent_pairs<Id>(ids: Seq<Id>) -> Seq<(Id, Id)> {
    Seq::new(
        if ids.len() >= 2 {
            (ids.len() - 1) as nat
        } else {
            0
        },
        |i: int| (ids[i], ids[i + 1]),
    )
}

/// `ids` after every occurrence of `pair` met in one left-to-right scan has been
/// replaced by `new_id`. An id that a replacement produced is not looked at again,
/// so overlapping occurrences are taken from the left.
pub open spec fn merge_ids<Id>(ids: Seq<Id>, pair: (Id, Id), new_id: Id) -> Seq<Id>
    decreases ids.len(),
{
    if ids.len() < 2 {
        ids
    } else if ids[0] == pair.0 && ids[1] == pair.1 {
        seq![new_id] + merge_ids(ids.skip(2), pair, new_id)
    } else {
        seq![ids[0]] + merge_ids(ids.skip(1), pair, new_id)
    }
}

/// The pair-count changes of one replacement: the neighbours that it destroys, each
/// with -1, then the neighbours that it creates, each with +1. `prev` is the id left
/// of the occurrence, if any, and `next` the id right of it.
pub open spec fn replacement_deltas<Id>(
    prev: Option<Id>,
    next: Option<Id>,
    pair: (Id, Id),
    new_id: Id,
) -> Seq<((Id, Id), i32)> {
    let lost_left = match prev {
        Some(p) => seq![((p, pair.0), -1i32)],
        None => seq![],
    };
    let lost_right = match next {
        Some(n) => seq![((pair.1, n), -1i32)],
        None => seq![],
    };
    let won_left = match prev {
        Some(p) => seq![((p, new_id), 1i32)],
        None => seq![],
    };
    let won_right = match next {
        Some(n) => seq![((new_id, n), 1i32)],
        None => seq![],
    };
    lost_left + lost_right + won_left + won_right
}

/// The pair-count changes of the whole scan that `merge_ids` describes, in scan
/// order. `prev` is the last id already written, `rest` what is still to be read.
pub open spec fn merge_deltas<Id>(prev: Option<Id>, rest: Seq<Id>, pair: (Id, Id), new_id: Id) -> Seq<
    ((Id, Id), i32),
>
    decreases rest.len(),
{
    if rest.len() < 2 {
        seq![]
    } else if rest[0] == pair.0 && rest[1] == pair.1 {
        let next = if rest.len() > 2 {
            Some(rest[2])
        } else {
            None
        };
        replacement_deltas(prev, next, pair, new_id) + merge_deltas(
            Some(new_id),
            rest.skip(2),
            pair,
            new_id,
        )
    } else {
        merge_deltas(Some(rest[0]), rest.skip(1), pair, new_id)
    }
}

/// One scan never lengthens a word, reports four changes at most for every id that
/// the word loses, and reports changes of one occurrence only.
pub proof fn lemma_merge_shrinks<Id>(prev: Option<Id>, ids: Seq<Id>, pair: (Id, Id), new_id: Id)
    ensures
        merge_ids(ids, pair, new_id).len() <= ids.len(),
        merge_deltas(prev, ids, pair, new_id).len() <= 4 * (ids.len() - merge_ids(
            ids,
            pair,
            new_id,
        ).len()),
        forall|k: int|
            0 <= k < merge_deltas(prev, ids, pair, new_id).len() ==> {
                let change = (#[trigger] merge_deltas(prev, ids, pair, new_id)[k]).1;
                change == 1 || change == -1
            },
    decreases ids.len(),
{
    if ids.len() < 2 {
    } else if ids[0] == pair.0 && ids[1] == pair.1 {
        lemma_merge_shrinks(Some(new_id), ids.skip(2), pair, new_id);
    } else {
        lemma_merge_shrinks(Some(ids[0]), ids.skip(1), pair, new_id);
    }
}

impl<Id> Word<Id> {
    /// A word with the given ids.
    pub fn new(ids: Vec<Id>) -> (word: Self)
        ensures
            word@ == ids@,
    {
        Self { ids }
    }

    /// The ids of the word.
    pub fn ids(&self) -> (ids: &[Id])
        ensures
            ids@ == self@,
    {
        self.ids.as_slice()
    }

    /// The ids of the word, for changing them in place.
    pub fn ids_mut(&mut self) -> (ids: &mut Vec<Id>)
        ensures
            *ids == old(self).ids,
            final(self).ids == *final(ids),
    {
        &mut self.ids
    }
}

impl<Id: Copy> Word<Id> {
    /// The adjacent pairs of the word, left to right.
    pub fn pairs(&self) -> (pairs: Vec<(Id, Id)>)
        ensures
            pairs@ == adjacent_pairs(self@),
    {
        let mut pairs: Vec<(Id, Id)> = Vec::new();
        if self.ids.len() < 2 {
            return pairs;
        }
        let mut i: usize = 0;
        while i + 1 < self.ids.len()
            invariant
                self.ids.len() >= 2,
                i + 1 <= self.ids.len(),
                pairs@.len() == i,
                forall|k: int| 0 <= k < i ==> pairs@[k] == (self.ids@[k], self.ids@[k + 1]),
            decreases self.ids.len() - i,
        {
            pairs.push((self.ids[i], self.ids[i + 1]));
            i += 1;
        }
        pairs
    }

    /// Replaces the occurrences of `pair` by `new_id` in one scan from the left and
    /// returns the pair-count changes that the replacements cause, in scan order.
    /// `id_eq` decides whether two ids are the same.
    pub fn merge_pair<F>(&mut self, pair: (Id, Id), new_id: Id, id_eq: F) -> (deltas: Vec<
        ((Id, Id), i32),
    >) where F: Fn(&Id, &Id) -> bool
        requires
            forall|a: &Id, b: &Id| #[trigger] id_eq.requires((a, b)),
            forall|a: &Id, b: &Id, r: bool| #[trigger] id_eq.ensures((a, b), r) ==> r == (*a == *b),
        ensures
            final(self)@ == merge_ids(old(self)@, pair, new_id),
            deltas@ == merge_deltas(None, old(self)@, pair, new_id),
    {
        let n = self.ids.len();
        let mut merged: Vec<Id> = Vec::new();
        let mut deltas: Vec<((Id, Id), i32)> = Vec::new();
        let mut prev: Option<Id> = None;
        let mut i: usize = 0;
        assert(self.ids@.skip(0) == self.ids@);
        while i < n
            invariant
                n == self.ids.len(),
                i <= n,
                self.ids == old(self).ids,
                forall|a: &Id, b: &Id| #[trigger] id_eq.requires((a, b)),
                forall|a: &Id, b: &Id, r: bool| #[trigger]
                    id_eq.ensures((a, b), r) ==> r == (*a == *b),
                merged@ + merge_ids(self.ids@.skip(i as int), pair, new_id) == merge_ids(
                    self.ids@,
                    pair,
                    new_id,
                ),
                deltas@ + merge_deltas(prev, self.ids@.skip(i as int), pair, new_id)
                    == merge_deltas(None, self.ids@, pair, new_id),
            decreases n - i,
        {
            let ghost rest = self.ids@.skip(i as int);
            let here = i + 1 < n && id_eq(&self.ids[i], &pair.0) && id_eq(
                &self.ids[i + 1],
                &pair.1,
            );
            if here {
                proof {
                    assert(rest[0] == pair.0 && rest[1] == pair.1);
                    assert(rest.skip(2) == self.ids@.skip(i + 2));
                }
                let next = if i + 2 < n {
                    Some(self.ids[i + 2])
                } else {
                    None
                };
                match prev {
                    Some(p) => {
                        deltas.push(((p, pair.0), -1));
                    },
                    None => {},
                }
                match next {
                    Some(x) => {
                        deltas.push(((pair.1, x), -1));
                    },
                    None => {},
                }
                match prev {
                    Some(p) => {
                        deltas.push(((p, new_id), 1));
                    },
                    None => {},
                }
                match next {
                    Some(x) => {
                        deltas.push(((new_id, x), 1));
                    },
                    None => {},
                }
                merged.push(new_id);
                prev = Some(new_id);
                i += 2;
            } else {
                proof {
                    assert(rest.len() >= 1);
                    assert(rest.skip(1) == self.ids@.skip(i + 1));
                    if rest.len() < 2 {
                        assert(rest.skip(1).len() == 0);
                        assert(merge_ids(rest, pair, new_id) == seq![rest[0]] + merge_ids(
                            rest.skip(1),
                            pair,
                            new_id,
                        ));
                    }
                }
                merged.push(self.ids[i]);
                prev = Some(self.ids[i]);
                i += 1;
            }
        }
        self.ids = merged;
        deltas
    }
}

} // verus!
