//! The merge table of a trained model and its greedy application to a word.

use crate::pairs::{lemma_pair_key_injective, pack_pair, pair_key, MergeRule, Pair};
use std::collections::HashMap;
use vstd::prelude::*;

verus! {

/// The rules as a map from pairs to new ids. Of two rules for one pair the later
/// one counts.
pub open spec fn rule_map(rules: Seq<MergeRule>) -> Map<Pair, u32>
    decreases rules.len(),
{
    if rules.len() == 0 {
        Map::empty()
    } else {
        rule_map(rules.drop_last()).insert(
            (rules.last().left, rules.last().right),
            rules.last().new_id,
        )
    }
}

/// One pass over a word, left to right: a pair that the table knows is replaced
/// by its new id, and the scan goes on behind the pair, so that no two merges of
/// one pass overlap.
pub open spec fn merge_pass(ids: Seq<u32>, table: Map<Pair, u32>) -> Seq<u32>
    decreases ids.len(),
{
    if ids.len() < 2 {
        ids
    } else if table.contains_key((ids[0], ids[1])) {
        seq![table[(ids[0], ids[1])]] + merge_pass(ids.skip(2), table)
    } else {
        seq![ids[0]] + merge_pass(ids.skip(1), table)
    }
}

/// Passes repeated until one merges nothing.
pub open spec fn greedy_merge(ids: Seq<u32>, table: Map<Pair, u32>) -> Seq<u32>
    decreases ids.len(),
{
    let next = merge_pass(ids, table);
    if next.len() < ids.len() {
        greedy_merge(next, table)
    } else {
        ids
    }
}

/// A pass never lengthens a word, and a pass that keeps the length keeps the word.
pub proof fn lemma_merge_pass_len(ids: Seq<u32>, table: Map<Pair, u32>)
    ensures
        merge_pass(ids, table).len() <= ids.len(),
        merge_pass(ids, table).len() == ids.len() ==> merge_pass(ids, table) == ids,
    decreases ids.len(),
{
    if ids.len() < 2 {
    } else if table.contains_key((ids[0], ids[1])) {
        lemma_merge_pass_len(ids.skip(2), table);
    } else {
        lemma_merge_pass_len(ids.skip(1), table);
        if merge_pass(ids, table).len() == ids.len() {
            assert(merge_pass(ids, table) =~= ids);
        }
    }
}

/// The tokens of `ids` written one after the other.
pub open spec fn spell<T>(vocab: Map<u32, Seq<T>>, ids: Seq<u32>) -> Seq<T>
    decreases ids.len(),
{
    if ids.len() == 0 {
        seq![]
    } else {
        vocab[ids[0]] + spell(vocab, ids.skip(1))
    }
}

/// Every rule of `table` writes for its pair an id whose token is the two tokens
/// of the pair, one after the other.
pub open spec fn table_spells<T>(table: Map<Pair, u32>, vocab: Map<u32, Seq<T>>) -> bool {
    forall|pair: Pair| #[trigger]
        table.contains_key(pair) ==> vocab[table[pair]] == vocab[pair.0] + vocab[pair.1]
}

/// Spelling goes through concatenation.
pub proof fn lemma_spell_concat<T>(vocab: Map<u32, Seq<T>>, a: Seq<u32>, b: Seq<u32>)
    ensures
        spell(vocab, a + b) == spell(vocab, a) + spell(vocab, b),
    decreases a.len(),
{
    if a.len() == 0 {
        assert(a + b =~= b);
    } else {
        assert((a + b).skip(1) =~= a.skip(1) + b);
        lemma_spell_concat(vocab, a.skip(1), b);
    }
}

/// A pass with rules that spell their pairs leaves the spelling of a word as it is.
pub proof fn lemma_merge_pass_spells<T>(vocab: Map<u32, Seq<T>>, ids: Seq<u32>, table: Map<Pair, u32>)
    requires
        table_spells(table, vocab),
    ensures
        spell(vocab, merge_pass(ids, table)) == spell(vocab, ids),
    decreases ids.len(),
{
    if ids.len() < 2 {
    } else if table.contains_key((ids[0], ids[1])) {
        let rest = merge_pass(ids.skip(2), table);
        lemma_merge_pass_spells(vocab, ids.skip(2), table);
        let new_id = table[(ids[0], ids[1])];
        assert((seq![new_id] + rest).skip(1) =~= rest);
        assert(ids.skip(1).skip(1) =~= ids.skip(2));
        assert(ids.skip(1)[0] == ids[1]);
        assert(spell(vocab, ids.skip(1)) == vocab[ids.skip(1)[0]] + spell(
            vocab,
            ids.skip(1).skip(1),
        ));
        assert(spell(vocab, ids) =~= vocab[ids[0]] + (vocab[ids[1]] + spell(vocab, ids.skip(2))));
    } else {
        let rest = merge_pass(ids.skip(1), table);
        lemma_merge_pass_spells(vocab, ids.skip(1), table);
        assert((seq![ids[0]] + rest).skip(1) =~= rest);
    }
}

/// Greedy merging with rules that spell their pairs leaves the spelling of a word
/// as it is.
pub proof fn lemma_greedy_merge_spells<T>(
    vocab: Map<u32, Seq<T>>,
    ids: Seq<u32>,
    table: Map<Pair, u32>,
)
    requires
        table_spells(table, vocab),
    ensures
        spell(vocab, greedy_merge(ids, table)) == spell(vocab, ids),
    decreases ids.len(),
{
    let next = merge_pass(ids, table);
    lemma_merge_pass_spells(vocab, ids, table);
    if next.len() < ids.len() {
        lemma_greedy_merge_spells(vocab, next, table);
    }
}

/// The rules as pairs with their ranks: the rank of a pair is the id that its
/// rule writes, so that a rule learned earlier has the smaller rank.
pub open spec fn ranks_of(rules: Seq<MergeRule>) -> Seq<(Pair, u32)> {
    Seq::new(rules.len(), |i: int| ((rules[i].left, rules[i].right), rules[i].new_id))
}

/// The merge rules of a model in the order in which they were learned, with a
/// table for finding the rule of a pair.
pub struct MergeTable {
    rules: Vec<MergeRule>,
    index: HashMap<u64, u32>,
}

impl View for MergeTable {
    type V = Seq<MergeRule>;

    closed spec fn view(&self) -> Seq<MergeRule> {
        self.rules@
    }
}

impl MergeTable {
    /// The invariant: the table finds for every pair what the rules say.
    pub closed spec fn wf(&self) -> bool {
        forall|pair: Pair|
            #![trigger rule_map(self.rules@).contains_key(pair)]
            #![trigger self.index@.contains_key(pair_key(pair))]
            {
                &&& rule_map(self.rules@).contains_key(pair) <==> self.index@.contains_key(
                    pair_key(pair),
                )
                &&& rule_map(self.rules@).contains_key(pair) ==> rule_map(self.rules@)[pair]
                    == self.index@[pair_key(pair)]
            }
    }

    /// No rules.
    pub fn new() -> (table: Self)
        ensures
            table.wf(),
            table@ == Seq::<MergeRule>::empty(),
    {
        MergeTable { rules: Vec::new(), index: HashMap::new() }
    }

    /// Forgets all rules.
    pub fn clear(&mut self)
        ensures
            final(self).wf(),
            final(self)@ == Seq::<MergeRule>::empty(),
    {
        self.rules.clear();
        self.index.clear();
    }

    /// The number of rules.
    pub fn len(&self) -> (n: usize)
        ensures
            n == self@.len(),
    {
        self.rules.len()
    }

    /// The rules as pairs with their ranks, in the order in which they were
    /// learned.
    pub fn ranks(&self) -> (ranks: Vec<(Pair, u32)>)
        ensures
            ranks@ == ranks_of(self@),
    {
        let mut ranks: Vec<(Pair, u32)> = Vec::new();
        let mut i: usize = 0;
        while i < self.rules.len()
            invariant
                i <= self.rules@.len(),
                ranks@.len() == i,
                forall|k: int|
                    0 <= k < i ==> (#[trigger] ranks@[k]) == (
                        (self.rules@[k].left, self.rules@[k].right),
                        self.rules@[k].new_id,
                    ),
            decreases self.rules.len() - i,
        {
            ranks.push(((self.rules[i].left, self.rules[i].right), self.rules[i].new_id));
            i += 1;
        }
        assert(ranks@ =~= ranks_of(self@));
        ranks
    }

    /// The rules in the order in which they were learned.
    pub fn rules(&self) -> (rules: &Vec<MergeRule>)
        ensures
            rules@ == self@,
    {
        &self.rules
    }

    /// Adds a rule behind the others.
    pub fn push(&mut self, rule: MergeRule)
        requires
            old(self).wf(),
        ensures
            final(self).wf(),
            final(self)@ == old(self)@.push(rule),
    {
        broadcast use vstd::std_specs::hash::group_hash_axioms;

        let key = pack_pair((rule.left, rule.right));
        self.rules.push(rule);
        self.index.insert(key, rule.new_id);
        proof {
            assert(self.rules@.drop_last() =~= old(self).rules@);
            assert forall|pair: Pair|
                #![trigger rule_map(self.rules@).contains_key(pair)]
                #![trigger self.index@.contains_key(pair_key(pair))]
                {
                    &&& rule_map(self.rules@).contains_key(pair) <==> self.index@.contains_key(
                        pair_key(pair),
                    )
                    &&& rule_map(self.rules@).contains_key(pair) ==> rule_map(self.rules@)[pair]
                        == self.index@[pair_key(pair)]
                } by {
                lemma_pair_key_injective(pair, (rule.left, rule.right));
                assert(rule_map(old(self).rules@).contains_key(pair) <==> old(
                    self,
                ).index@.contains_key(pair_key(pair)));
            }
        }
    }

    /// The id that the rules write for `pair`, if they have a rule for it.
    pub fn lookup(&self, pair: Pair) -> (new_id: Option<u32>)
        requires
            self.wf(),
        ensures
            new_id is Some <==> rule_map(self@).contains_key(pair),
            new_id matches Some(id) ==> id == rule_map(self@)[pair],
    {
        broadcast use vstd::std_specs::hash::group_hash_axioms;

        let key = pack_pair(pair);
        assert(rule_map(self.rules@).contains_key(pair) <==> self.index@.contains_key(
            pair_key(pair),
        ));
        match self.index.get(&key) {
            Some(id) => Some(*id),
            None => None,
        }
    }

    /// One pass over `ids`, left to right, without overlapping merges.
    pub fn pass(&self, ids: &Vec<u32>) -> (merged: Vec<u32>)
        requires
            self.wf(),
        ensures
            merged@ == merge_pass(ids@, rule_map(self@)),
    {
        let ghost table = rule_map(self@);
        let n = ids.len();
        let mut merged: Vec<u32> = Vec::new();
        let mut i: usize = 0;
        assert(ids@.skip(0) =~= ids@);
        while i < n
            invariant
                self.wf(),
                n == ids@.len(),
                i <= n,
                table == rule_map(self@),
                merged@ + merge_pass(ids@.skip(i as int), table) == merge_pass(ids@, table),
            decreases n - i,
        {
            let ghost rest = ids@.skip(i as int);
            let found = if i + 1 < n {
                self.lookup((ids[i], ids[i + 1]))
            } else {
                None
            };
            match found {
                Some(new_id) => {
                    proof {
                        assert(rest[0] == ids@[i as int] && rest[1] == ids@[i + 1]);
                        assert(rest.skip(2) =~= ids@.skip(i + 2));
                        assert(merged@.push(new_id) + merge_pass(rest.skip(2), table) =~= merged@
                            + merge_pass(rest, table));
                    }
                    merged.push(new_id);
                    i += 2;
                },
                None => {
                    proof {
                        assert(rest[0] == ids@[i as int]);
                        assert(rest.skip(1) =~= ids@.skip(i + 1));
                        if rest.len() >= 2 {
                            assert(rest[1] == ids@[i + 1]);
                        } else {
                            assert(merge_pass(rest.skip(1), table) =~= Seq::<u32>::empty());
                        }
                        assert(merged@.push(ids@[i as int]) + merge_pass(rest.skip(1), table)
                            =~= merged@ + merge_pass(rest, table));
                    }
                    merged.push(ids[i]);
                    i += 1;
                },
            }
        }
        assert(merged@ + merge_pass(ids@.skip(n as int), table) =~= merged@);
        merged
    }

    /// Applies the rules to `ids`: passes repeated until one merges nothing.
    pub fn apply(&self, ids: &mut Vec<u32>)
        requires
            self.wf(),
        ensures
            final(ids)@ == greedy_merge(old(ids)@, rule_map(self@)),
    {
        let ghost table = rule_map(self@);
        loop
            invariant
                self.wf(),
                table == rule_map(self@),
                greedy_merge(ids@, table) == greedy_merge(old(ids)@, table),
            decreases ids@.len(),
        {
            let next = self.pass(ids);
            proof {
                lemma_merge_pass_len(ids@, table);
            }
            if next.len() >= ids.len() {
                return ;
            }
            *ids = next;
        }
    }
}

} // verus!
