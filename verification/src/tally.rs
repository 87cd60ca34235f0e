//! The tally of one sweep: for every pair that was touched, the sum of its count
//! changes and the words in which it was touched, in the order of first touch.

use crate::pairs::{lemma_pair_key_injective, pack_pair, pair_key, Pair};
use ahash::AHashMap;
use vstd::prelude::*;

verus! {

/// What a tally holds for one pair, as mathematics.
#[verifier::ext_equal]
pub struct TallyEntryModel {
    /// The pair.
    pub pair: Pair,
    /// The sum of the changes of its count.
    pub delta: int,
    /// The words in which it was touched, in the order of the sweep.
    pub positions: Seq<usize>,
}

/// Whether `tally` has an entry for `pair`.
pub open spec fn tally_has(tally: Seq<TallyEntryModel>, pair: Pair) -> bool {
    exists|i: int| 0 <= i < tally.len() && (#[trigger] tally[i]).pair == pair
}

/// The place of the entry for `pair` in `tally`.
pub open spec fn tally_slot(tally: Seq<TallyEntryModel>, pair: Pair) -> int {
    choose|i: int| 0 <= i < tally.len() && (#[trigger] tally[i]).pair == pair
}

/// No pair has two entries, and every entry names a word.
pub open spec fn tally_wf(tally: Seq<TallyEntryModel>) -> bool {
    &&& forall|i: int, j: int|
        0 <= i < j < tally.len() ==> (#[trigger] tally[i]).pair != (#[trigger] tally[j]).pair
    &&& forall|i: int| 0 <= i < tally.len() ==> (#[trigger] tally[i]).positions.len() > 0
}

/// `tally` after the count of `pair` changed by `amount` in the word `word`. A
/// pair that is new to the tally gets an entry at the end. A word is listed once
/// while the sweep stays in it.
pub open spec fn tally_add(tally: Seq<TallyEntryModel>, pair: Pair, amount: int, word: usize) -> Seq<
    TallyEntryModel,
> {
    if tally_has(tally, pair) {
        let slot = tally_slot(tally, pair);
        let entry = tally[slot];
        tally.update(
            slot,
            TallyEntryModel {
                pair,
                delta: entry.delta + amount,
                positions: if entry.positions.last() == word {
                    entry.positions
                } else {
                    entry.positions.push(word)
                },
            },
        )
    } else {
        tally.push(TallyEntryModel { pair, delta: amount, positions: seq![word] })
    }
}

/// `tally` after the listed changes, each weighted by `weight`, were added for the
/// word `word`, first to last.
pub open spec fn tally_add_all(
    tally: Seq<TallyEntryModel>,
    deltas: Seq<(Pair, i32)>,
    weight: int,
    word: usize,
) -> Seq<TallyEntryModel>
    decreases deltas.len(),
{
    if deltas.len() == 0 {
        tally
    } else {
        tally_add(
            tally_add_all(tally, deltas.drop_last(), weight, word),
            deltas.last().0,
            deltas.last().1 * weight,
            word,
        )
    }
}

/// The sum that `tally` holds for `pair`, 0 where it has no entry.
pub open spec fn tally_delta(tally: Seq<TallyEntryModel>, pair: Pair) -> int {
    if tally_has(tally, pair) {
        tally[tally_slot(tally, pair)].delta
    } else {
        0
    }
}

/// No sum of `tally` exceeds `bound` in either direction.
pub open spec fn tally_within(tally: Seq<TallyEntryModel>, bound: int) -> bool {
    forall|i: int| 0 <= i < tally.len() ==> -bound <= (#[trigger] tally[i]).delta <= bound
}

/// Adding to a valid tally leaves it valid, lengthens it by one entry at most,
/// and moves one sum, by `amount`.
pub proof fn lemma_tally_add(tally: Seq<TallyEntryModel>, pair: Pair, amount: int, word: usize)
    requires
        tally_wf(tally),
    ensures
        tally_wf(tally_add(tally, pair, amount, word)),
        tally.len() <= tally_add(tally, pair, amount, word).len() <= tally.len() + 1,
        forall|bound: int, step: int|
            tally_within(tally, bound) && -step <= amount <= step && 0 <= bound ==> tally_within(
                #[trigger] tally_add(tally, pair, amount, word),
                #[trigger] (bound + step),
            ),
{
    let after = tally_add(tally, pair, amount, word);
    if tally_has(tally, pair) {
        assert forall|i: int, j: int| 0 <= i < j < after.len() implies (#[trigger] after[i]).pair != (
        #[trigger] after[j]).pair by {
            assert(tally[i].pair != tally[j].pair);
        }
        assert forall|i: int| 0 <= i < after.len() implies (#[trigger] after[i]).positions.len()
            > 0 by {
            assert(tally[i].positions.len() > 0);
        }
    } else {
        assert forall|i: int, j: int| 0 <= i < j < after.len() implies (#[trigger] after[i]).pair != (
        #[trigger] after[j]).pair by {
            if j < tally.len() {
                assert(tally[i].pair != tally[j].pair);
            } else {
                assert(tally[i].pair != pair);
            }
        }
        assert forall|i: int| 0 <= i < after.len() implies (#[trigger] after[i]).positions.len()
            > 0 by {
            if i < tally.len() {
                assert(tally[i].positions.len() > 0);
            }
        }
    }
    assert forall|bound: int, step: int|
        tally_within(tally, bound) && -step <= amount <= step && 0 <= bound implies tally_within(
        #[trigger] tally_add(tally, pair, amount, word),
        #[trigger] (bound + step),
    ) by {
        assert forall|i: int| 0 <= i < after.len() implies -(bound + step) <= (
        #[trigger] after[i]).delta <= bound + step by {
            if i < tally.len() {
                assert(-bound <= tally[i].delta <= bound);
            }
        }
    }
}

/// `AHashMap` of ahash: a hash map with the hasher of ahash.
#[verifier::external_type_specification]
#[verifier::external_body]
#[verifier::reject_recursive_types(K)]
#[verifier::reject_recursive_types(V)]
#[verifier::reject_recursive_types(S)]
pub struct ExAHashMap<K, V, S>(AHashMap<K, V, S>);

/// `RandomState` of ahash: the state from which an `AHashMap` makes its hashers.
#[verifier::external_type_specification]
#[verifier::external_body]
pub struct ExAHashState(ahash::RandomState);

/// What a table from pair keys to places holds.
pub uninterp spec fn slot_table(table: AHashMap<u64, usize>) -> Map<u64, usize>;

/// `AHashMap::new` of ahash: a table that holds nothing.
#[verifier::external_body]
fn table_new() -> (table: AHashMap<u64, usize>)
    ensures
        slot_table(table) == (Map::<u64, usize>::empty()),
{
    AHashMap::new()
}

/// `AHashMap::get` of ahash: the place stored under `key`, if there is one.
#[verifier::external_body]
fn table_get(table: &AHashMap<u64, usize>, key: u64) -> (slot: Option<usize>)
    ensures
        slot is Some <==> slot_table(*table).contains_key(key),
        slot matches Some(i) ==> i == slot_table(*table)[key],
{
    table.get(&key).copied()
}

/// `AHashMap::insert` of ahash: `key` now leads to `slot`; nothing else changes.
#[verifier::external_body]
fn table_insert(table: &mut AHashMap<u64, usize>, key: u64, slot: usize)
    ensures
        slot_table(*final(table)) == slot_table(*old(table)).insert(key, slot),
{
    table.insert(key, slot);
}

/// What a tally holds for one pair.
#[derive(Debug)]
pub struct TallyEntry {
    /// The pair.
    pub pair: Pair,
    /// The sum of the changes of its count.
    pub delta: i64,
    /// The words in which it was touched, in the order of the sweep.
    pub positions: Vec<usize>,
}

impl View for TallyEntry {
    type V = TallyEntryModel;

    open spec fn view(&self) -> TallyEntryModel {
        TallyEntryModel { pair: self.pair, delta: self.delta as int, positions: self.positions@ }
    }
}

/// The tally of one sweep over words.
pub struct PairTally {
    entries: Vec<TallyEntry>,
    index: AHashMap<u64, usize>,
}

impl View for PairTally {
    type V = Seq<TallyEntryModel>;

    closed spec fn view(&self) -> Seq<TallyEntryModel> {
        Seq::new(self.entries@.len(), |i: int| self.entries@[i]@)
    }
}

impl PairTally {
    /// The invariant: the table leads from every pair of the tally to its entry,
    /// and to nothing else.
    pub closed spec fn wf(&self) -> bool {
        &&& tally_wf(self@)
        &&& forall|i: int|
            0 <= i < self.entries@.len() ==> slot_table(self.index).contains_key(
                #[trigger] pair_key(self.entries@[i].pair),
            ) && slot_table(self.index)[pair_key(self.entries@[i].pair)] == i
        &&& forall|key: u64| #[trigger]
            slot_table(self.index).contains_key(key) ==> slot_table(self.index)[key]
                < self.entries@.len() && pair_key(
                self.entries@[slot_table(self.index)[key] as int].pair,
            ) == key
    }

    /// A valid tally has a valid view.
    pub proof fn lemma_wf(&self)
        requires
            self.wf(),
        ensures
            tally_wf(self@),
    {
    }

    /// An empty tally.
    pub fn new() -> (tally: Self)
        ensures
            tally.wf(),
            tally@ == Seq::<TallyEntryModel>::empty(),
    {
        let tally = Self { entries: Vec::new(), index: table_new() };
        assert(tally@ =~= Seq::<TallyEntryModel>::empty());
        tally
    }

    /// The number of pairs in the tally.
    pub fn len(&self) -> (n: usize)
        ensures
            n == self@.len(),
    {
        self.entries.len()
    }

    /// The entry at place `i`.
    pub fn entry(&self, i: usize) -> (entry: &TallyEntry)
        requires
            i < self@.len(),
        ensures
            entry@ == self@[i as int],
    {
        &self.entries[i]
    }

    proof fn lemma_lookup(&self, pair: Pair)
        requires
            self.wf(),
        ensures
            tally_has(self@, pair) <==> slot_table(self.index).contains_key(pair_key(pair)),
            tally_has(self@, pair) ==> tally_slot(self@, pair) == slot_table(self.index)[pair_key(
                pair,
            )],
    {
        let key = pair_key(pair);
        if slot_table(self.index).contains_key(key) {
            let i = slot_table(self.index)[key] as int;
            lemma_pair_key_injective(self.entries@[i].pair, pair);
            assert(self@[i].pair == pair);
        }
        if tally_has(self@, pair) {
            let s = tally_slot(self@, pair);
            assert(self@[s].pair == pair);
            assert(slot_table(self.index).contains_key(pair_key(self.entries@[s].pair)));
            let i = slot_table(self.index)[key] as int;
            assert(i == s);
        }
    }

    /// Adds `amount` to the sum of `pair` and lists `word` for it.
    pub fn add(&mut self, pair: Pair, amount: i64, word: usize)
        requires
            old(self).wf(),
            i64::MIN <= tally_delta(old(self)@, pair) + amount <= i64::MAX,
        ensures
            final(self).wf(),
            final(self)@ == tally_add(old(self)@, pair, amount as int, word),
    {
        let ghost before = *self;
        let key = pack_pair(pair);
        proof {
            self.lemma_lookup(pair);
            lemma_tally_add(before@, pair, amount as int, word);
        }
        match table_get(&self.index, key) {
            Some(slot) => {
                self.entries.push(TallyEntry { pair, delta: 0, positions: Vec::new() });
                let mut entry = self.entries.swap_remove(slot);
                assert(entry@ == before@[slot as int]);
                entry.delta = entry.delta + amount;
                let n = entry.positions.len();
                assert(n > 0);
                if entry.positions[n - 1] != word {
                    entry.positions.push(word);
                }
                self.entries.push(entry);
                self.entries.swap_remove(slot);
                proof {
                    assert(self.entries@.len() == before.entries@.len());
                    assert(self@ =~= tally_add(before@, pair, amount as int, word));
                    assert forall|i: int| 0 <= i < self.entries@.len() implies self.entries@[i].pair
                        == before.entries@[i].pair by {}
                }
            },
            None => {
                let mut positions: Vec<usize> = Vec::new();
                positions.push(word);
                let slot = self.entries.len();
                self.entries.push(TallyEntry { pair, delta: amount, positions });
                table_insert(&mut self.index, key, slot);
                proof {
                    assert(self@ =~= tally_add(before@, pair, amount as int, word));
                    assert forall|i: int| 0 <= i < self.entries@.len() implies slot_table(
                        self.index,
                    ).contains_key(#[trigger] pair_key(self.entries@[i].pair)) && slot_table(
                        self.index,
                    )[pair_key(self.entries@[i].pair)] == i by {
                        if i < slot {
                            assert(before.entries@[i].pair == self.entries@[i].pair);
                            lemma_pair_key_injective(self.entries@[i].pair, pair);
                            assert(before@[i].pair != pair);
                        }
                    }
                    assert forall|k: u64| #[trigger]
                        slot_table(self.index).contains_key(k) implies slot_table(self.index)[k]
                        < self.entries@.len() && pair_key(
                        self.entries@[slot_table(self.index)[k] as int].pair,
                    ) == k by {
                        if k != key {
                            assert(slot_table(before.index).contains_key(k));
                        }
                    }
                }
            },
        }
    }
}

} // verus!
