//! The tokens of a merge model: for every id the items that it stands for, bytes
//! in the byte-level model and characters in the character-level one.

use crate::merges::{lemma_spell_concat, spell, MergeTable};
use crate::pairs::MergeRule;
use crate::text::{decimal, decimal_string};
use crate::tokenizer_base::join_three;
use std::collections::HashMap;
use vstd::prelude::*;

verus! {

/// The tokens of a table as sequences.
pub open spec fn store_view<T>(table: Map<u32, Vec<T>>) -> Map<u32, Seq<T>> {
    Map::new(|id: u32| table.contains_key(id), |id: u32| table[id]@)
}

/// Whether the vocabulary has a token for every id of `ids`.
pub open spec fn all_known<T>(vocab: Map<u32, Seq<T>>, ids: Seq<u32>) -> bool {
    forall|i: int| 0 <= i < ids.len() ==> vocab.contains_key(#[trigger] ids[i])
}

/// Whether the id at place `i` of `ids` is the first without a token.
pub open spec fn is_first_unknown<T>(vocab: Map<u32, Seq<T>>, ids: Seq<u32>, i: int) -> bool {
    &&& 0 <= i < ids.len()
    &&& !vocab.contains_key(ids[i])
    &&& all_known(vocab, ids.take(i))
}

/// The message for an id without a token.
pub open spec fn unknown_id_message(id: u32) -> Seq<char> {
    "token ID "@ + decimal(id as nat) + " not found in the vocabulary"@
}

/// The vocabulary after the tokens of the rules were added, first to last: the
/// token of a rule is the two tokens of its pair, one after the other.
pub open spec fn grow_vocab<T>(vocab: Map<u32, Seq<T>>, rules: Seq<MergeRule>) -> Map<u32, Seq<T>>
    decreases rules.len(),
{
    if rules.len() == 0 {
        vocab
    } else {
        let prior = grow_vocab(vocab, rules.drop_last());
        let rule = rules.last();
        prior.insert(rule.new_id, prior[rule.left] + prior[rule.right])
    }
}

/// Every rule joins two ids of the vocabulary into a third, whose token is the
/// tokens of the two, one after the other.
pub open spec fn rules_well_formed<T>(vocab: Map<u32, Seq<T>>, rules: Seq<MergeRule>) -> bool {
    forall|i: int|
        0 <= i < rules.len() ==> {
            &&& vocab.contains_key((#[trigger] rules[i]).left)
            &&& vocab.contains_key(rules[i].right)
            &&& vocab.contains_key(rules[i].new_id)
            &&& vocab[rules[i].new_id] == vocab[rules[i].left] + vocab[rules[i].right]
        }
}

/// `more` written behind `out`.
pub fn append_items<T: Copy>(out: &mut Vec<T>, more: &Vec<T>)
    ensures
        final(out)@ == old(out)@ + more@,
{
    let mut i: usize = 0;
    while i < more.len()
        invariant
            i <= more@.len(),
            out@ == old(out)@ + more@.take(i as int),
        decreases more.len() - i,
    {
        out.push(more[i]);
        assert(more@.take(i + 1) =~= more@.take(i as int).push(more@[i as int]));
        i += 1;
    }
    assert(more@.take(more@.len() as int) =~= more@);
}

/// The message for the id `id` without a token.
pub fn unknown_id_text(id: u32) -> (message: String)
    ensures
        message@ == unknown_id_message(id),
{
    let number = decimal_string(id as u64);
    join_three("token ID ", number.as_str(), " not found in the vocabulary")
}

/// The tokens of `ids`, one after the other. Stops at the first id without a
/// token and returns that id.
pub fn spell_tokens<T: Copy>(vocab: &HashMap<u32, Vec<T>>, ids: &[u32]) -> (outcome: Result<
    Vec<T>,
    u32,
>)
    ensures
        all_known(store_view(vocab@), ids@) ==> outcome is Ok && outcome->Ok_0@ == spell(
            store_view(vocab@),
            ids@,
        ),
        !all_known(store_view(vocab@), ids@) ==> outcome is Err && exists|i: int|
            is_first_unknown(store_view(vocab@), ids@, i) && outcome->Err_0 == ids@[i],
{
    broadcast use vstd::std_specs::hash::group_hash_axioms;

    let ghost tokens = store_view(vocab@);
    let mut items: Vec<T> = Vec::new();
    let mut i: usize = 0;
    proof {
        assert(ids@.take(0) =~= Seq::<u32>::empty());
    }
    while i < ids.len()
        invariant
            i <= ids@.len(),
            tokens == store_view(vocab@),
            all_known(tokens, ids@.take(i as int)),
            items@ == spell(tokens, ids@.take(i as int)),
        decreases ids.len() - i,
    {
        let id = ids[i];
        match vocab.get(&id) {
            Some(token) => {
                append_items(&mut items, token);
                proof {
                    let before = ids@.take(i as int);
                    assert(ids@.take(i + 1) =~= before + seq![id]);
                    lemma_spell_concat(tokens, before, seq![id]);
                    assert(seq![id].skip(1) =~= Seq::<u32>::empty());
                    assert(spell(tokens, seq![id].skip(1)) =~= Seq::<T>::empty());
                    assert(spell(tokens, seq![id]) =~= tokens[id]);
                    assert forall|k: int| 0 <= k < ids@.take(i + 1).len() implies tokens.contains_key(
                    #[trigger] ids@.take(i + 1)[k]) by {
                        if k < i {
                            assert(tokens.contains_key(before[k]));
                        }
                    }
                }
            },
            None => {
                proof {
                    assert(!tokens.contains_key(ids@[i as int]));
                    assert(is_first_unknown(tokens, ids@, i as int));
                }
                return Err(id);
            },
        }
        i += 1;
    }
    proof {
        assert(ids@.take(ids@.len() as int) =~= ids@);
    }
    Ok(items)
}

/// Records the rules and adds the token of each to the vocabulary, first to last.
pub fn grow_with_rules<T: Copy>(
    vocab: &mut HashMap<u32, Vec<T>>,
    merges: &mut MergeTable,
    rules: &Vec<MergeRule>,
    first: u32,
)
    requires
        old(merges).wf(),
        old(merges)@ == Seq::<MergeRule>::empty(),
        first + rules@.len() <= u32::MAX,
        forall|id: u32| id >= first ==> !old(vocab)@.contains_key(id),
        forall|j: int|
            0 <= j < rules@.len() ==> {
                &&& (#[trigger] rules@[j]).new_id == first + j
                &&& rules@[j].left < rules@[j].new_id
                &&& rules@[j].right < rules@[j].new_id
                &&& rules@[j].left < first ==> old(vocab)@.contains_key(rules@[j].left)
                &&& rules@[j].right < first ==> old(vocab)@.contains_key(rules@[j].right)
            },
    ensures
        final(merges).wf(),
        final(merges)@ == rules@,
        store_view(final(vocab)@) == grow_vocab(store_view(old(vocab)@), rules@),
        rules_well_formed(store_view(final(vocab)@), rules@),
        forall|id: u32|
            final(vocab)@.contains_key(id) <==> old(vocab)@.contains_key(id) || first <= id < first
                + rules@.len(),
        forall|id: u32|
            old(vocab)@.contains_key(id) ==> (#[trigger] final(vocab)@[id])@ == old(vocab)@[id]@,
{
    broadcast use vstd::std_specs::hash::group_hash_axioms;

    let ghost start = store_view(vocab@);
    let mut k: usize = 0;
    proof {
        assert(rules@.take(0) =~= Seq::<MergeRule>::empty());
        assert(store_view(vocab@) =~= grow_vocab(start, rules@.take(0)));
    }
    while k < rules.len()
        invariant
            k <= rules@.len(),
            first + rules@.len() <= u32::MAX,
            start == store_view(old(vocab)@),
            merges.wf(),
            merges@ == rules@.take(k as int),
            store_view(vocab@) == grow_vocab(start, rules@.take(k as int)),
            rules_well_formed(store_view(vocab@), rules@.take(k as int)),
            forall|id: u32|
                vocab@.contains_key(id) <==> old(vocab)@.contains_key(id) || first <= id < first
                    + k,
            forall|id: u32|
                old(vocab)@.contains_key(id) ==> (#[trigger] vocab@[id])@ == old(vocab)@[id]@,
            forall|id: u32| id >= first ==> !old(vocab)@.contains_key(id),
            forall|j: int|
                0 <= j < rules@.len() ==> {
                    &&& (#[trigger] rules@[j]).new_id == first + j
                    &&& rules@[j].left < rules@[j].new_id
                    &&& rules@[j].right < rules@[j].new_id
                    &&& rules@[j].left < first ==> old(vocab)@.contains_key(rules@[j].left)
                    &&& rules@[j].right < first ==> old(vocab)@.contains_key(rules@[j].right)
                },
        decreases rules.len() - k,
    {
        let ghost before = store_view(vocab@);
        let ghost table = vocab@;
        let rule = rules[k];
        proof {
            assert(rules@[k as int].new_id == first + k);
            assert(vocab@.contains_key(rule.left));
            assert(vocab@.contains_key(rule.right));
            assert(!vocab@.contains_key(rule.new_id));
        }
        let mut token: Vec<T> = Vec::new();
        match vocab.get(&rule.left) {
            Some(left) => append_items(&mut token, left),
            None => {},
        }
        match vocab.get(&rule.right) {
            Some(right) => append_items(&mut token, right),
            None => {},
        }
        vocab.insert(rule.new_id, token);
        merges.push(rule);
        proof {
            let shorter = rules@.take(k as int);
            let longer = rules@.take(k + 1);
            assert(longer.drop_last() =~= shorter);
            assert(longer.last() == rule);
            assert(longer =~= shorter.push(rule));
            assert(token@ =~= before[rule.left] + before[rule.right]);
            assert(store_view(vocab@) =~= grow_vocab(start, longer));
            assert forall|j: int| 0 <= j < longer.len() implies {
                &&& store_view(vocab@).contains_key((#[trigger] longer[j]).left)
                &&& store_view(vocab@).contains_key(longer[j].right)
                &&& store_view(vocab@).contains_key(longer[j].new_id)
                &&& store_view(vocab@)[longer[j].new_id] == store_view(vocab@)[longer[j].left]
                    + store_view(vocab@)[longer[j].right]
            } by {
                assert(longer[j] == rules@[j]);
                if j < k {
                    assert(shorter[j] == rules@[j]);
                    assert(before.contains_key(shorter[j].left));
                }
            }
            assert forall|id: u32| old(vocab)@.contains_key(id) implies (#[trigger] vocab@[id])@
                == old(vocab)@[id]@ by {
                assert(table[id]@ == old(vocab)@[id]@);
            }
        }
        k += 1;
    }
    proof {
        assert(rules@.take(rules@.len() as int) =~= rules@);
    }
}

/// Whether two bytes are the same.
pub fn same_byte(a: &u8, b: &u8) -> (same: bool)
    ensures
        same == (a == b),
{
    *a == *b
}

/// Whether two characters are the same.
pub fn same_char(a: &char, b: &char) -> (same: bool)
    ensures
        same == (a == b),
{
    *a == *b
}

/// Whether `whole` is `left` followed by `right`. `same` decides whether two
/// items are the same.
pub fn is_concat<T: Copy, F>(whole: &Vec<T>, left: &Vec<T>, right: &Vec<T>, same: &F) -> (joined:
    bool) where F: Fn(&T, &T) -> bool
    requires
        forall|a: &T, b: &T| #[trigger] same.requires((a, b)),
        forall|a: &T, b: &T, r: bool| #[trigger] same.ensures((a, b), r) ==> r == (*a == *b),
    ensures
        joined == (whole@ == left@ + right@),
{
    if left.len() > whole.len() || whole.len() - left.len() != right.len() {
        return false;
    }
    let mut i: usize = 0;
    while i < whole.len()
        invariant
            i <= whole@.len(),
            whole@.len() == left@.len() + right@.len(),
            forall|a: &T, b: &T| #[trigger] same.requires((a, b)),
            forall|a: &T, b: &T, r: bool| #[trigger] same.ensures((a, b), r) ==> r == (*a == *b),
            forall|k: int| 0 <= k < i ==> whole@[k] == (left@ + right@)[k],
        decreases whole.len() - i,
    {
        let expected = if i < left.len() {
            left[i]
        } else {
            right[i - left.len()]
        };
        if !same(&whole[i], &expected) {
            return false;
        }
        i += 1;
    }
    assert(whole@ =~= left@ + right@);
    true
}

/// Whether every rule joins two ids of the vocabulary into a third whose token
/// is the tokens of the two in a row. `same` decides whether two items are the
/// same.
pub fn rules_fit<T: Copy, F>(vocab: &HashMap<u32, Vec<T>>, rules: &Vec<MergeRule>, same: F) -> (fit:
    bool) where F: Fn(&T, &T) -> bool
    requires
        forall|a: &T, b: &T| #[trigger] same.requires((a, b)),
        forall|a: &T, b: &T, r: bool| #[trigger] same.ensures((a, b), r) ==> r == (*a == *b),
    ensures
        fit == rules_well_formed(store_view(vocab@), rules@),
{
    broadcast use vstd::std_specs::hash::group_hash_axioms;

    let ghost tokens = store_view(vocab@);
    let mut i: usize = 0;
    proof {
        assert(rules@.take(0) =~= Seq::<MergeRule>::empty());
    }
    while i < rules.len()
        invariant
            i <= rules@.len(),
            tokens == store_view(vocab@),
            forall|a: &T, b: &T| #[trigger] same.requires((a, b)),
            forall|a: &T, b: &T, r: bool| #[trigger] same.ensures((a, b), r) ==> r == (*a == *b),
            rules_well_formed(tokens, rules@.take(i as int)),
        decreases rules.len() - i,
    {
        let rule = rules[i];
        let good = match (vocab.get(&rule.left), vocab.get(&rule.right), vocab.get(&rule.new_id)) {
            (Some(left), Some(right), Some(whole)) => is_concat(whole, left, right, &same),
            _ => false,
        };
        if !good {
            proof {
                if rules_well_formed(tokens, rules@) {
                    assert(tokens.contains_key(rules@[i as int].left));
                }
            }
            return false;
        }
        proof {
            assert forall|j: int| 0 <= j < rules@.take(i + 1).len() implies {
                &&& tokens.contains_key((#[trigger] rules@.take(i + 1)[j]).left)
                &&& tokens.contains_key(rules@.take(i + 1)[j].right)
                &&& tokens.contains_key(rules@.take(i + 1)[j].new_id)
                &&& tokens[rules@.take(i + 1)[j].new_id] == tokens[rules@.take(i + 1)[j].left]
                    + tokens[rules@.take(i + 1)[j].right]
            } by {
                if j < i {
                    assert(rules@.take(i as int)[j] == rules@.take(i + 1)[j]);
                    assert(tokens.contains_key(rules@.take(i as int)[j].left));
                }
            }
        }
        i += 1;
    }
    proof {
        assert(rules@.take(rules@.len() as int) =~= rules@);
    }
    true
}

} // verus!
