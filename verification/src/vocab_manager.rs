//! The vocabulary: a map between token ids and tokens that is a function in both
//! directions at all times.

use std::collections::HashMap;
use vstd::prelude::*;
use vstd::std_specs::iter::IteratorSpec;

verus! {

/// What a vocabulary can hold on either side: a value with a mathematical view
/// that can be compared and copied by that view.
pub trait VocabItem: View + Sized {
    /// Whether two items have the same view.
    fn same_as(&self, other: &Self) -> (same: bool)
        ensures
            same == (self@ == other@),
    ;

    /// A copy with the same view.
    fn duplicate(&self) -> (copy: Self)
        ensures
            copy@ == self@,
    ;
}

impl VocabItem for u32 {
    fn same_as(&self, other: &Self) -> (same: bool) {
        *self == *other
    }

    fn duplicate(&self) -> (copy: Self) {
        *self
    }
}

impl VocabItem for usize {
    fn same_as(&self, other: &Self) -> (same: bool) {
        *self == *other
    }

    fn duplicate(&self) -> (copy: Self) {
        *self
    }
}

impl VocabItem for String {
    fn same_as(&self, other: &Self) -> (same: bool) {
        *self == *other
    }

    fn duplicate(&self) -> (copy: Self) {
        self.clone()
    }
}

impl VocabItem for Vec<u8> {
    fn same_as(&self, other: &Self) -> (same: bool) {
        if self.len() != other.len() {
            return false;
        }
        let mut i: usize = 0;
        while i < self.len()
            invariant
                i <= self.len(),
                self.len() == other.len(),
                forall|k: int| 0 <= k < i ==> self@[k] == other@[k],
            decreases self.len() - i,
        {
            if self[i] != other[i] {
                return false;
            }
            i += 1;
        }
        assert(self@ =~= other@);
        true
    }

    fn duplicate(&self) -> (copy: Self) {
        let mut copy: Vec<u8> = Vec::new();
        let mut i: usize = 0;
        while i < self.len()
            invariant
                i <= self.len(),
                copy@ == self@.take(i as int),
            decreases self.len() - i,
        {
            copy.push(self[i]);
            assert(self@.take(i + 1) == self@.take(i as int).push(self@[i as int]));
            i += 1;
        }
        assert(self@.take(self@.len() as int) == self@);
        copy
    }
}

/// Whether some id of `map` stands for `value`.
pub open spec fn holds_value<K, V>(map: Map<K, V>, value: V) -> bool {
    exists|k: K| map.contains_key(k) && #[trigger] map[k] == value
}

/// `map` without the ids that stand for `value`.
pub open spec fn without_value<K, V>(map: Map<K, V>, value: V) -> Map<K, V> {
    Map::new(|k: K| map.contains_key(k) && map[k] != value, |k: K| map[k])
}

/// No two ids of `map` stand for the same token.
pub open spec fn one_to_one<K, V>(map: Map<K, V>) -> bool {
    forall|j: K, k: K|
        map.contains_key(j) && map.contains_key(k) && #[trigger] map[j] == #[trigger] map[k] ==> j
            == k
}

/// A two-way map between ids and tokens. Its view is the map from the views of
/// the ids to the views of the tokens.
#[derive(Debug)]
pub struct VocabManager<K, V> {
    ids: Vec<K>,
    values: Vec<V>,
}

impl<K: VocabItem, V: VocabItem> View for VocabManager<K, V> {
    type V = Map<K::V, V::V>;

    closed spec fn view(&self) -> Map<K::V, V::V> {
        Map::new(|k: K::V| self.has_id(k), |k: K::V| self.values@[self.slot_of(k)]@)
    }
}

impl<K: VocabItem, V: VocabItem> VocabManager<K, V> {
    spec fn id_at(&self, i: int) -> K::V {
        self.ids@[i]@
    }

    spec fn value_at(&self, i: int) -> V::V {
        self.values@[i]@
    }

    spec fn has_id(&self, k: K::V) -> bool {
        exists|i: int| 0 <= i < self.ids@.len() && #[trigger] self.id_at(i) == k
    }

    spec fn slot_of(&self, k: K::V) -> int {
        choose|i: int| 0 <= i < self.ids@.len() && #[trigger] self.id_at(i) == k
    }

    /// The invariant: one token for every id, one id for every token.
    pub closed spec fn wf(&self) -> bool {
        &&& self.ids@.len() == self.values@.len()
        &&& forall|i: int, j: int|
            0 <= i < j < self.ids@.len() ==> #[trigger] self.id_at(i) != #[trigger] self.id_at(j)
        &&& forall|i: int, j: int|
            0 <= i < j < self.ids@.len() ==> #[trigger] self.value_at(i) != #[trigger] self.value_at(
                j,
            )
    }

    proof fn lemma_slot(&self, i: int)
        requires
            self.wf(),
            0 <= i < self.ids@.len(),
        ensures
            self@.contains_key(self.id_at(i)),
            self.slot_of(self.id_at(i)) == i,
            self@[self.id_at(i)] == self.value_at(i),
    {
        let k = self.id_at(i);
        assert(self.has_id(k));
        let s = self.slot_of(k);
        assert(0 <= s < self.ids@.len() && self.id_at(s) == k);
        if s < i {
            assert(self.id_at(s) != self.id_at(i));
        }
        if i < s {
            assert(self.id_at(i) != self.id_at(s));
        }
    }

    proof fn lemma_key(&self, k: K::V)
        requires
            self.wf(),
            self@.contains_key(k),
        ensures
            0 <= self.slot_of(k) < self.ids@.len(),
            self.id_at(self.slot_of(k)) == k,
            self@[k] == self.value_at(self.slot_of(k)),
    {
        assert(self.has_id(k));
    }

    /// A valid vocabulary is finite and one-to-one, and holds as many pairs as
    /// `len` reports.
    pub proof fn lemma_valid(&self)
        requires
            self.wf(),
        ensures
            self@.dom().finite(),
            one_to_one(self@),
            self@.dom().len() == self.spec_len(),
    {
        assert forall|j: K::V, k: K::V|
            self@.contains_key(j) && self@.contains_key(k) && #[trigger] self@[j]
                == #[trigger] self@[k] implies j == k by {
            self.lemma_key(j);
            self.lemma_key(k);
            let a = self.slot_of(j);
            let b = self.slot_of(k);
            if a < b {
                assert(self.value_at(a) != self.value_at(b));
            }
            if b < a {
                assert(self.value_at(b) != self.value_at(a));
            }
        }
        let keys = Seq::new(self.ids@.len(), |i: int| self.id_at(i));
        assert(keys.no_duplicates()) by {
            assert forall|i: int, j: int| 0 <= i < keys.len() && 0 <= j < keys.len() && i
                != j implies keys[i] != keys[j] by {
                if i < j {
                    assert(self.id_at(i) != self.id_at(j));
                } else {
                    assert(self.id_at(j) != self.id_at(i));
                }
            }
        }
        assert(keys.to_set() =~= self@.dom()) by {
            assert forall|k: K::V| keys.to_set().contains(k) <==> self@.dom().contains(k) by {
                if keys.to_set().contains(k) {
                    let i = choose|i: int| 0 <= i < keys.len() && keys[i] == k;
                    self.lemma_slot(i);
                }
                if self@.dom().contains(k) {
                    self.lemma_key(k);
                    assert(keys[self.slot_of(k)] == k);
                }
            }
        }
        keys.unique_seq_to_set();
        vstd::seq_lib::seq_to_set_is_finite(keys);
    }

    /// The number of pairs, as a specification.
    pub closed spec fn spec_len(&self) -> nat {
        self.ids@.len()
    }

    /// An empty vocabulary.
    pub fn new() -> (vocab: Self)
        ensures
            vocab.wf(),
            vocab@ == Map::<K::V, V::V>::empty(),
    {
        let vocab = Self { ids: Vec::new(), values: Vec::new() };
        assert(vocab@ =~= Map::<K::V, V::V>::empty());
        vocab
    }

    /// An empty vocabulary with room for `capacity` pairs.
    pub fn with_capacity(capacity: usize) -> (vocab: Self)
        ensures
            vocab.wf(),
            vocab@ == Map::<K::V, V::V>::empty(),
    {
        let vocab = Self { ids: Vec::with_capacity(capacity), values: Vec::with_capacity(capacity) };
        assert(vocab@ =~= Map::<K::V, V::V>::empty());
        vocab
    }

    fn find_id(&self, id: &K) -> (slot: Option<usize>)
        requires
            self.wf(),
        ensures
            slot is Some <==> self@.contains_key(id@),
            slot matches Some(i) ==> i < self.ids@.len() && self.id_at(i as int) == id@,
    {
        let mut i: usize = 0;
        while i < self.ids.len()
            invariant
                self.wf(),
                i <= self.ids@.len(),
                forall|k: int| 0 <= k < i ==> self.id_at(k) != id@,
            decreases self.ids.len() - i,
        {
            if self.ids[i].same_as(id) {
                proof {
                    self.lemma_slot(i as int);
                }
                return Some(i);
            }
            i += 1;
        }
        proof {
            if self@.contains_key(id@) {
                self.lemma_key(id@);
            }
        }
        None
    }

    fn find_value(&self, value: &V) -> (slot: Option<usize>)
        requires
            self.wf(),
        ensures
            slot is Some <==> holds_value(self@, value@),
            slot matches Some(i) ==> i < self.ids@.len() && self.value_at(i as int) == value@,
    {
        let mut i: usize = 0;
        while i < self.values.len()
            invariant
                self.wf(),
                i <= self.values@.len(),
                forall|k: int| 0 <= k < i ==> self.value_at(k) != value@,
            decreases self.values.len() - i,
        {
            if self.values[i].same_as(value) {
                proof {
                    self.lemma_slot(i as int);
                    assert(self@.contains_key(self.id_at(i as int)) && self@[self.id_at(i as int)]
                        == value@);
                }
                return Some(i);
            }
            i += 1;
        }
        proof {
            if holds_value(self@, value@) {
                let k = choose|k: K::V| self@.contains_key(k) && #[trigger] self@[k] == value@;
                self.lemma_key(k);
            }
        }
        None
    }

    fn remove_slot(&mut self, slot: usize) -> (pair: (K, V))
        requires
            old(self).wf(),
            slot < old(self).ids@.len(),
        ensures
            final(self).wf(),
            final(self)@ == old(self)@.remove(old(self).id_at(slot as int)),
            pair.0@ == old(self).id_at(slot as int),
            pair.1@ == old(self).value_at(slot as int),
            final(self).ids@ == old(self).ids@.remove(slot as int),
            final(self).values@ == old(self).values@.remove(slot as int),
    {
        let id = self.ids.remove(slot);
        let value = self.values.remove(slot);
        proof {
            let before = *old(self);
            let gone = before.id_at(slot as int);
            assert forall|i: int| 0 <= i < self.ids@.len() implies #[trigger] self.id_at(i)
                == before.id_at(if i < slot { i } else { i + 1 }) && self.value_at(i)
                == before.value_at(if i < slot { i } else { i + 1 }) by {}
            assert(self.wf()) by {
                assert forall|i: int, j: int| 0 <= i < j < self.ids@.len() implies #[trigger] self.id_at(
                    i,
                ) != #[trigger] self.id_at(j) by {
                    let a = if i < slot { i } else { i + 1 };
                    let b = if j < slot { j } else { j + 1 };
                    assert(before.id_at(a) != before.id_at(b));
                }
                assert forall|i: int, j: int|
                    0 <= i < j < self.ids@.len() implies #[trigger] self.value_at(i)
                    != #[trigger] self.value_at(j) by {
                    let a = if i < slot { i } else { i + 1 };
                    let b = if j < slot { j } else { j + 1 };
                    assert(before.value_at(a) != before.value_at(b));
                }
            }
            assert forall|k: K::V| #[trigger]
                self@.contains_key(k) <==> before@.remove(gone).contains_key(k) by {
                if self@.contains_key(k) {
                    self.lemma_key(k);
                    let i = self.slot_of(k);
                    let a = if i < slot { i } else { i + 1 };
                    before.lemma_slot(a);
                    if a < slot {
                        assert(before.id_at(a) != before.id_at(slot as int));
                    } else {
                        assert(before.id_at(slot as int) != before.id_at(a));
                    }
                }
                if before@.remove(gone).contains_key(k) {
                    before.lemma_key(k);
                    let a = before.slot_of(k);
                    let i = if a < slot { a } else { a - 1 };
                    self.lemma_slot(i);
                }
            }
            assert forall|k: K::V| #[trigger] self@.contains_key(k) implies self@[k]
                == before@.remove(gone)[k] by {
                self.lemma_key(k);
                let i = self.slot_of(k);
                let a = if i < slot { i } else { i + 1 };
                before.lemma_slot(a);
            }
            assert(self@ =~= before@.remove(gone));
        }
        (id, value)
    }

    /// Sets `id` to stand for `value`. A pair that holds `id` or `value` already is
    /// removed first. Returns the token that `id` stood for before, if any.
    pub fn insert(&mut self, id: K, value: V) -> (previous: Option<V>)
        requires
            old(self).wf(),
        ensures
            final(self).wf(),
            final(self)@ == without_value(old(self)@, value@).insert(id@, value@),
            previous is Some <==> old(self)@.contains_key(id@),
            previous matches Some(p) ==> p@ == old(self)@[id@],
    {
        let ghost before = *self;
        let ghost target = without_value(before@, value@).insert(id@, value@);
        let held = self.find_value(&value);
        let mut holder_was_id = false;
        match held {
            Some(j) => {
                if self.ids[j].same_as(&id) {
                    holder_was_id = true;
                } else {
                    proof {
                        before.lemma_slot(j as int);
                    }
                    self.remove_slot(j);
                }
            },
            None => {},
        }
        let ghost middle = *self;
        proof {
            before.lemma_valid();
            assert(middle@.contains_key(id@) <==> before@.contains_key(id@));
            if before@.contains_key(id@) {
                assert(middle@[id@] == before@[id@]);
            }
            // Apart from `id`, `middle` holds what `before` held under another token.
            assert forall|k: K::V| k != id@ implies (#[trigger] middle@.contains_key(k)
                <==> before@.contains_key(k) && before@[k] != value@) by {
                if before@.contains_key(k) && before@[k] == value@ {
                    assert(holds_value(before@, value@));
                    let j = held->0 as int;
                    before.lemma_slot(j);
                    assert(before@[before.id_at(j)] == before@[k]);
                    assert(k == before.id_at(j));
                }
            }
        }
        if holder_was_id {
            proof {
                let j = held->0 as int;
                before.lemma_slot(j);
                assert(self@ =~= target) by {
                    assert forall|k: K::V| #[trigger] self@.contains_key(k) <==> target.contains_key(
                        k,
                    ) by {}
                }
            }
            return Some(self.values[held.unwrap()].duplicate());
        }
        let found = self.find_id(&id);
        match found {
            Some(i) => {
                self.values.push(value);
                let previous = self.values.swap_remove(i);
                proof {
                    middle.lemma_slot(i as int);
                    assert forall|a: int| 0 <= a < self.ids@.len() implies #[trigger] self.id_at(a)
                        == middle.id_at(a) && (#[trigger] self.value_at(a)) == (if a == i {
                        value@
                    } else {
                        middle.value_at(a)
                    }) by {}
                    assert(self.wf()) by {
                        assert forall|a: int, b: int|
                            0 <= a < b < self.ids@.len() implies #[trigger] self.id_at(a)
                            != #[trigger] self.id_at(b) by {
                            assert(middle.id_at(a) != middle.id_at(b));
                        }
                        assert forall|a: int, b: int|
                            0 <= a < b < self.ids@.len() implies #[trigger] self.value_at(a)
                            != #[trigger] self.value_at(b) by {
                            assert(middle.value_at(a) != middle.value_at(b));
                            if a == i {
                                middle.lemma_slot(b);
                                assert(middle@.contains_key(middle.id_at(b)));
                                assert(middle.id_at(i as int) != middle.id_at(b));
                            }
                            if b == i {
                                middle.lemma_slot(a);
                                assert(middle@.contains_key(middle.id_at(a)));
                                assert(middle.id_at(a) != middle.id_at(i as int));
                            }
                        }
                    }
                    assert forall|k: K::V| #[trigger] self@.contains_key(k) <==> target.contains_key(
                        k,
                    ) by {
                        if self@.contains_key(k) {
                            self.lemma_key(k);
                            middle.lemma_slot(self.slot_of(k));
                        }
                        if target.contains_key(k) {
                            if k == id@ {
                                self.lemma_slot(i as int);
                            } else {
                                middle.lemma_key(k);
                                self.lemma_slot(middle.slot_of(k));
                            }
                        }
                    }
                    assert forall|k: K::V| #[trigger] self@.contains_key(k) implies self@[k]
                        == target[k] by {
                        self.lemma_key(k);
                        let a = self.slot_of(k);
                        middle.lemma_slot(a);
                        if a != i {
                            if a < i {
                                assert(middle.id_at(a) != middle.id_at(i as int));
                            } else {
                                assert(middle.id_at(i as int) != middle.id_at(a));
                            }
                        }
                    }
                    assert(self@ =~= target);
                }
                Some(previous)
            },
            None => {
                self.ids.push(id);
                self.values.push(value);
                proof {
                    let n = middle.ids@.len() as int;
                    assert forall|a: int| 0 <= a < self.ids@.len() implies (#[trigger] self.id_at(a))
                        == (if a == n {
                        id@
                    } else {
                        middle.id_at(a)
                    }) && (#[trigger] self.value_at(a)) == (if a == n {
                        value@
                    } else {
                        middle.value_at(a)
                    }) by {}
                    assert(self.wf()) by {
                        assert forall|a: int, b: int|
                            0 <= a < b < self.ids@.len() implies #[trigger] self.id_at(a)
                            != #[trigger] self.id_at(b) by {
                            if b == n {
                                middle.lemma_slot(a);
                            } else {
                                assert(middle.id_at(a) != middle.id_at(b));
                            }
                        }
                        assert forall|a: int, b: int|
                            0 <= a < b < self.ids@.len() implies #[trigger] self.value_at(a)
                            != #[trigger] self.value_at(b) by {
                            if b == n {
                                middle.lemma_slot(a);
                                assert(middle@.contains_key(middle.id_at(a)));
                            } else {
                                assert(middle.value_at(a) != middle.value_at(b));
                            }
                        }
                    }
                    assert forall|k: K::V| #[trigger] self@.contains_key(k) <==> target.contains_key(
                        k,
                    ) by {
                        if self@.contains_key(k) {
                            self.lemma_key(k);
                            let a = self.slot_of(k);
                            if a != n {
                                middle.lemma_slot(a);
                            }
                        }
                        if target.contains_key(k) {
                            if k == id@ {
                                self.lemma_slot(n);
                            } else {
                                middle.lemma_key(k);
                                self.lemma_slot(middle.slot_of(k));
                            }
                        }
                    }
                    assert forall|k: K::V| #[trigger] self@.contains_key(k) implies self@[k]
                        == target[k] by {
                        self.lemma_key(k);
                        let a = self.slot_of(k);
                        if a != n {
                            middle.lemma_slot(a);
                        }
                    }
                    assert(self@ =~= target);
                }
                None
            },
        }
    }

    /// The token that `id` stands for.
    pub fn get_by_id(&self, id: &K) -> (value: Option<&V>)
        requires
            self.wf(),
        ensures
            value is Some <==> self@.contains_key(id@),
            value matches Some(v) ==> v@ == self@[id@],
    {
        match self.find_id(id) {
            Some(i) => {
                proof {
                    self.lemma_slot(i as int);
                }
                Some(&self.values[i])
            },
            None => None,
        }
    }

    /// The id that stands for the token `value`.
    pub fn get_by_value(&self, value: &V) -> (id: Option<&K>)
        requires
            self.wf(),
        ensures
            id is Some <==> holds_value(self@, value@),
            id matches Some(k) ==> self@.contains_key(k@) && self@[k@] == value@,
    {
        match self.find_value(value) {
            Some(i) => {
                proof {
                    self.lemma_slot(i as int);
                }
                Some(&self.ids[i])
            },
            None => None,
        }
    }

    /// Whether `id` stands for a token.
    pub fn contains_id(&self, id: &K) -> (found: bool)
        requires
            self.wf(),
        ensures
            found == self@.contains_key(id@),
    {
        self.find_id(id).is_some()
    }

    /// Whether some id stands for the token `value`.
    pub fn contains_value(&self, value: &V) -> (found: bool)
        requires
            self.wf(),
        ensures
            found == holds_value(self@, value@),
    {
        self.find_value(value).is_some()
    }

    /// Removes `id` and its token, which is returned.
    pub fn remove_by_id(&mut self, id: &K) -> (value: Option<V>)
        requires
            old(self).wf(),
        ensures
            final(self).wf(),
            final(self)@ == old(self)@.remove(id@),
            value is Some <==> old(self)@.contains_key(id@),
            value matches Some(v) ==> v@ == old(self)@[id@],
    {
        match self.find_id(id) {
            Some(i) => {
                proof {
                    self.lemma_slot(i as int);
                }
                let pair = self.remove_slot(i);
                Some(pair.1)
            },
            None => {
                assert(self@ =~= old(self)@.remove(id@));
                None
            },
        }
    }

    /// Removes the token `value` and its id, which is returned.
    pub fn remove_by_value(&mut self, value: &V) -> (id: Option<K>)
        requires
            old(self).wf(),
        ensures
            final(self).wf(),
            final(self)@ == without_value(old(self)@, value@),
            id is Some <==> holds_value(old(self)@, value@),
            id matches Some(k) ==> old(self)@.contains_key(k@) && old(self)@[k@] == value@,
    {
        proof {
            self.lemma_valid();
        }
        match self.find_value(value) {
            Some(i) => {
                proof {
                    self.lemma_slot(i as int);
                }
                let pair = self.remove_slot(i);
                assert(self@ =~= without_value(old(self)@, value@));
                Some(pair.0)
            },
            None => {
                assert(self@ =~= without_value(old(self)@, value@)) by {
                    assert forall|k: K::V| #[trigger] self@.contains_key(k) implies self@[k]
                        != value@ by {
                        if self@[k] == value@ {
                            assert(holds_value(self@, value@));
                        }
                    }
                }
                None
            },
        }
    }

    /// Removes every pair.
    pub fn clear(&mut self)
        ensures
            final(self).wf(),
            final(self)@ == Map::<K::V, V::V>::empty(),
    {
        self.ids.clear();
        self.values.clear();
        assert(self@ =~= Map::<K::V, V::V>::empty());
    }

    /// The number of pairs.
    pub fn len(&self) -> (n: usize)
        requires
            self.wf(),
        ensures
            n == self.spec_len(),
            n == self@.dom().len(),
    {
        proof {
            self.lemma_valid();
        }
        self.ids.len()
    }

    /// Whether the vocabulary holds no pair.
    pub fn is_empty(&self) -> (empty: bool)
        requires
            self.wf(),
        ensures
            empty == (self@.dom().len() == 0),
    {
        proof {
            self.lemma_valid();
        }
        self.ids.len() == 0
    }

    /// The ids of the vocabulary, each once.
    pub fn ids(&self) -> (ids: Vec<K>)
        requires
            self.wf(),
        ensures
            ids@.len() == self@.dom().len(),
            forall|i: int| 0 <= i < ids@.len() ==> self@.contains_key(#[trigger] ids@[i]@),
            forall|i: int, j: int| 0 <= i < j < ids@.len() ==> ids@[i]@ != ids@[j]@,
    {
        proof {
            self.lemma_valid();
        }
        let mut ids: Vec<K> = Vec::new();
        let mut i: usize = 0;
        while i < self.ids.len()
            invariant
                self.wf(),
                i <= self.ids@.len(),
                ids@.len() == i,
                forall|k: int| 0 <= k < i ==> #[trigger] ids@[k]@ == self.id_at(k),
            decreases self.ids.len() - i,
        {
            ids.push(self.ids[i].duplicate());
            i += 1;
        }
        proof {
            assert forall|k: int| 0 <= k < ids@.len() implies self@.contains_key(
                #[trigger] ids@[k]@,
            ) by {
                self.lemma_slot(k);
            }
            assert forall|a: int, b: int| 0 <= a < b < ids@.len() implies ids@[a]@ != ids@[b]@ by {
                assert(self.id_at(a) != self.id_at(b));
            }
        }
        ids
    }

    /// The tokens of the vocabulary, each once.
    pub fn values(&self) -> (values: Vec<V>)
        requires
            self.wf(),
        ensures
            values@.len() == self@.dom().len(),
            forall|i: int| 0 <= i < values@.len() ==> holds_value(self@, #[trigger] values@[i]@),
            forall|i: int, j: int| 0 <= i < j < values@.len() ==> values@[i]@ != values@[j]@,
    {
        proof {
            self.lemma_valid();
        }
        let mut values: Vec<V> = Vec::new();
        let mut i: usize = 0;
        while i < self.values.len()
            invariant
                self.wf(),
                i <= self.values@.len(),
                values@.len() == i,
                forall|k: int| 0 <= k < i ==> #[trigger] values@[k]@ == self.value_at(k),
            decreases self.values.len() - i,
        {
            values.push(self.values[i].duplicate());
            i += 1;
        }
        proof {
            assert forall|k: int| 0 <= k < values@.len() implies holds_value(
                self@,
                #[trigger] values@[k]@,
            ) by {
                self.lemma_slot(k);
                assert(self@.contains_key(self.id_at(k)) && self@[self.id_at(k)] == values@[k]@);
            }
            assert forall|a: int, b: int| 0 <= a < b < values@.len() implies values@[a]@
                != values@[b]@ by {
                assert(self.value_at(a) != self.value_at(b));
            }
        }
        values
    }

    /// The tokens with their ids: every token of the vocabulary once, with the id
    /// that stands for it.
    pub fn value_map(&self) -> (pairs: Vec<(V, K)>)
        requires
            self.wf(),
        ensures
            pairs@.len() == self@.dom().len(),
            forall|i: int|
                0 <= i < pairs@.len() ==> self@.contains_key((#[trigger] pairs@[i]).1@)
                    && self@[pairs@[i].1@] == pairs@[i].0@,
            forall|i: int, j: int| 0 <= i < j < pairs@.len() ==> pairs@[i].0@ != pairs@[j].0@,
            forall|k: K::V|
                self@.contains_key(k) ==> exists|i: int|
                    0 <= i < pairs@.len() && (#[trigger] pairs@[i]).1@ == k,
    {
        proof {
            self.lemma_valid();
        }
        let mut pairs: Vec<(V, K)> = Vec::new();
        let mut i: usize = 0;
        while i < self.ids.len()
            invariant
                self.wf(),
                i <= self.ids@.len(),
                self.ids@.len() == self.values@.len(),
                pairs@.len() == i,
                forall|k: int|
                    0 <= k < i ==> (#[trigger] pairs@[k]).1@ == self.id_at(k) && pairs@[k].0@
                        == self.value_at(k),
            decreases self.ids.len() - i,
        {
            pairs.push((self.values[i].duplicate(), self.ids[i].duplicate()));
            i += 1;
        }
        proof {
            assert forall|a: int| 0 <= a < pairs@.len() implies self@.contains_key(
                (#[trigger] pairs@[a]).1@,
            ) && self@[pairs@[a].1@] == pairs@[a].0@ by {
                self.lemma_slot(a);
            }
            assert forall|a: int, b: int| 0 <= a < b < pairs@.len() implies pairs@[a].0@
                != pairs@[b].0@ by {
                assert(pairs@[a].0@ == self.value_at(a));
                assert(pairs@[b].0@ == self.value_at(b));
                assert(self.value_at(a) != self.value_at(b));
            }
            assert forall|k: K::V| self@.contains_key(k) implies exists|i: int|
                0 <= i < pairs@.len() && (#[trigger] pairs@[i]).1@ == k by {
                self.lemma_key(k);
                let i = self.slot_of(k);
                assert(pairs@[i].1@ == self.id_at(i));
            }
        }
        pairs
    }

    /// The pairs of the vocabulary, each once.
    pub fn iter(&self) -> (pairs: Vec<(K, V)>)
        requires
            self.wf(),
        ensures
            pairs@.len() == self@.dom().len(),
            forall|i: int|
                0 <= i < pairs@.len() ==> self@.contains_key((#[trigger] pairs@[i]).0@)
                    && self@[pairs@[i].0@] == pairs@[i].1@,
            forall|i: int, j: int| 0 <= i < j < pairs@.len() ==> pairs@[i].0@ != pairs@[j].0@,
            forall|k: K::V|
                self@.contains_key(k) ==> exists|i: int|
                    0 <= i < pairs@.len() && (#[trigger] pairs@[i]).0@ == k,
    {
        proof {
            self.lemma_valid();
        }
        let mut pairs: Vec<(K, V)> = Vec::new();
        let mut i: usize = 0;
        while i < self.ids.len()
            invariant
                self.wf(),
                i <= self.ids@.len(),
                pairs@.len() == i,
                forall|k: int|
                    0 <= k < i ==> (#[trigger] pairs@[k]).0@ == self.id_at(k) && pairs@[k].1@
                        == self.value_at(k),
            decreases self.ids.len() - i,
        {
            pairs.push((self.ids[i].duplicate(), self.values[i].duplicate()));
            i += 1;
        }
        proof {
            assert forall|k: int| 0 <= k < pairs@.len() implies self@.contains_key(
                #[trigger] pairs@[k].0@,
            ) && self@[pairs@[k].0@] == pairs@[k].1@ by {
                self.lemma_slot(k);
                assert(pairs@[k].0@ == self.id_at(k));
            }
            assert forall|a: int, b: int| 0 <= a < b < pairs@.len() implies pairs@[a].0@
                != pairs@[b].0@ by {
                assert(pairs@[a].0@ == self.id_at(a));
                assert(pairs@[b].0@ == self.id_at(b));
                assert(self.id_at(a) != self.id_at(b));
            }
            assert forall|k: K::V| self@.contains_key(k) implies exists|i: int|
                0 <= i < pairs@.len() && (#[trigger] pairs@[i]).0@ == k by {
                self.lemma_key(k);
                let i = self.slot_of(k);
                assert(pairs@[i].0@ == self.id_at(i));
            }
        }
        pairs
    }

    /// Checks the invariant in the data: as many ids as tokens, no id twice and
    /// no token twice. Never fails on a vocabulary that these operations built.
    pub fn validate(&self) -> (outcome: Result<(), String>)
        ensures
            outcome is Ok <==> self.wf(),
    {
        if self.ids.len() != self.values.len() {
            return Err("size mismatch between the two directions".to_string());
        }
        let mut i: usize = 0;
        while i < self.ids.len()
            invariant
                self.ids@.len() == self.values@.len(),
                i <= self.ids@.len(),
                forall|a: int, b: int|
                    0 <= a < b < i ==> #[trigger] self.id_at(a) != #[trigger] self.id_at(b),
                forall|a: int, b: int|
                    0 <= a < b < i ==> #[trigger] self.value_at(a) != #[trigger] self.value_at(b),
            decreases self.ids.len() - i,
        {
            let mut j: usize = 0;
            while j < i
                invariant
                    self.ids@.len() == self.values@.len(),
                    j <= i < self.ids@.len(),
                    forall|a: int| 0 <= a < j ==> #[trigger] self.id_at(a) != self.id_at(i as int),
                    forall|a: int|
                        0 <= a < j ==> #[trigger] self.value_at(a) != self.value_at(i as int),
                decreases i - j,
            {
                if self.ids[j].same_as(&self.ids[i]) {
                    assert(self.id_at(j as int) == self.id_at(i as int));
                    return Err("an id stands for two tokens".to_string());
                }
                if self.values[j].same_as(&self.values[i]) {
                    assert(self.value_at(j as int) == self.value_at(i as int));
                    return Err("a token leads back to two ids".to_string());
                }
                j += 1;
            }
            i += 1;
        }
        Ok(())
    }
}

impl<V: VocabItem> VocabManager<u32, V> {
    /// The vocabulary as a map from ids to tokens.
    pub fn id_map(&self) -> (map: HashMap<u32, V>)
        requires
            self.wf(),
        ensures
            forall|k: u32| map@.contains_key(k) <==> self@.contains_key(k),
            forall|k: u32| map@.contains_key(k) ==> (#[trigger] map@[k])@ == self@[k],
    {
        broadcast use vstd::std_specs::hash::group_hash_axioms;

        let pairs = self.iter();
        let mut map: HashMap<u32, V> = HashMap::new();
        let mut i: usize = 0;
        while i < pairs.len()
            invariant
                i <= pairs@.len(),
                forall|k: int|
                    0 <= k < pairs@.len() ==> self@.contains_key((#[trigger] pairs@[k]).0@)
                        && self@[pairs@[k].0@] == pairs@[k].1@,
                forall|k: u32|
                    map@.contains_key(k) <==> exists|j: int|
                        0 <= j < i && (#[trigger] pairs@[j]).0 == k,
                forall|k: u32| map@.contains_key(k) ==> (#[trigger] map@[k])@ == self@[k],
            decreases pairs.len() - i,
        {
            let ghost before = map@;
            let id = pairs[i].0;
            map.insert(id, pairs[i].1.duplicate());
            proof {
                assert(self@.contains_key(pairs@[i as int].0@));
                assert forall|k: u32| map@.contains_key(k) implies exists|j: int|
                    0 <= j < i + 1 && (#[trigger] pairs@[j]).0 == k by {
                    if k == id {
                        assert(pairs@[i as int].0 == k);
                    } else {
                        assert(before.contains_key(k));
                        let j = choose|j: int| 0 <= j < i && (#[trigger] pairs@[j]).0 == k;
                        assert(pairs@[j].0 == k);
                    }
                }
                assert forall|k: u32|
                    (exists|j: int|
                        0 <= j < i + 1 && (#[trigger] pairs@[j]).0 == k) implies map@.contains_key(
                    k,
                ) by {
                    let j = choose|j: int| 0 <= j < i + 1 && (#[trigger] pairs@[j]).0 == k;
                    if j < i {
                        assert(before.contains_key(k));
                    }
                }
            }
            i += 1;
        }
        proof {
            assert forall|k: u32| self@.contains_key(k) implies map@.contains_key(k) by {
                let j = choose|j: int| 0 <= j < pairs@.len() && (#[trigger] pairs@[j]).0@ == k;
                assert(pairs@[j].0 == k);
            }
            assert forall|k: u32| map@.contains_key(k) implies self@.contains_key(k) by {
                let j = choose|j: int| 0 <= j < i && (#[trigger] pairs@[j]).0 == k;
                assert(self@.contains_key(pairs@[j].0@));
            }
        }
        map
    }

    /// The vocabulary that results from setting every pair of `id_to_value`, in the
    /// order in which the map hands them out. Where two ids stand for one token,
    /// the one set last stays.
    pub fn from_id_map(id_to_value: HashMap<u32, V>) -> (vocab: Self)
        ensures
            vocab.wf(),
            forall|k: u32| #[trigger]
                vocab@.contains_key(k) ==> id_to_value@.contains_key(k) && vocab@[k]
                    == id_to_value@[k]@,
            forall|k: u32| #[trigger]
                id_to_value@.contains_key(k) ==> holds_value(vocab@, id_to_value@[k]@),
    {
        broadcast use vstd::std_specs::hash::group_hash_axioms;

        let mut vocab = Self::new();
        for pair in it: id_to_value.iter()
            invariant
                it.seq() == id_to_value.iter().remaining(),
                vocab.wf(),
                forall|k: u32| #[trigger]
                    vocab@.contains_key(k) ==> id_to_value@.contains_key(k) && vocab@[k]
                        == id_to_value@[k]@,
                forall|i: int|
                    0 <= i < it.index() ==> holds_value(vocab@, (#[trigger] it.seq()[i]).1@),
        {
            let ghost before = vocab;
            let ghost seen = it.index();
            let (id, value) = pair;
            assert(id_to_value@.contains_key(*id) && id_to_value@[*id] == *value);
            vocab.insert(*id, value.duplicate());
            proof {
                assert(vocab@.contains_key(*id) && vocab@[*id] == value@);
                assert forall|i: int| 0 <= i <= seen implies holds_value(
                    vocab@,
                    (#[trigger] it.seq()[i]).1@,
                ) by {
                    let v = it.seq()[i].1@;
                    if v == value@ {
                        assert(vocab@.contains_key(*id) && vocab@[*id] == v);
                    } else {
                        let k = choose|k: u32| before@.contains_key(k) && #[trigger] before@[k] == v;
                        assert(vocab@.contains_key(k) && vocab@[k] == v);
                    }
                }
            }
        }
        proof {
            assert forall|k: u32| #[trigger] id_to_value@.contains_key(k) implies holds_value(
                vocab@,
                id_to_value@[k]@,
            ) by {
                let listed = id_to_value.iter().remaining();
                assert(listed.contains((&k, &id_to_value@[k])));
                let i = choose|i: int| 0 <= i < listed.len() && listed[i] == (&k, &id_to_value@[k]);
                assert(holds_value(vocab@, listed[i].1@));
            }
        }
        vocab
    }
}

impl<K: VocabItem, V: VocabItem> Default for VocabManager<K, V> {
    fn default() -> (vocab: Self)
        ensures
            vocab.wf(),
            vocab@ == Map::<K::V, V::V>::empty(),
    {
        Self::new()
    }
}

} // verus!
