//! Saving and loading the character-level tokenizer.

use crate::bbpe_file::{
    failure_text, fault_text, load_message, rule_row, rules_of, unsavable_message, LoadError,
    ModelFault,
};
use crate::bpe::{model_wf, scalar_char, BpeModel, Tokenizer, FIRST_MERGE_ID};
use crate::entry_order::{arrange, entries_in_order, ids_of, lemma_arranged_already};
use crate::merge_job::sort_indices;
use crate::merges::MergeTable;
use crate::model_file::{
    lemma_parse_render, parse_model, parse_text, printable, render_model, render_text, rows_view,
    ModelFile, ModelText,
};
use crate::pairs::MergeRule;
use crate::pattern::pattern_compiles;
use crate::text::{chars_of, free_of, string_from_chars};
use crate::tokenizer_base::TokenizerBase;
use crate::vocab_store::{rules_well_formed, same_char, store_view};
use std::collections::HashMap;
use vstd::prelude::*;
use vstd::std_specs::iter::IteratorSpec;
use vstd::string::StringExecFns;
use vstd::utf8::is_scalar;

verus! {

/// Whether the number is the scalar value of a character.
pub open spec fn is_scalar_number(n: u64) -> bool {
    n <= u32::MAX && is_scalar(n as u32)
}

/// The token of an entry: the characters of its items.
pub open spec fn entry_chars(row: Seq<u64>) -> Seq<char> {
    Seq::new((row.len() - 1) as nat, |k: int| (row[k + 1] as u32) as char)
}

/// Whether the row can follow the entry of the id `last` where `merged` entries
/// of merges stand before it: its id is greater; below 0x110000 it is a
/// character that stands for itself; from there on it is the next id of a
/// merge, with characters as items.
pub open spec fn entry_ok(row: Seq<u64>, last: int, merged: nat) -> bool {
    &&& row.len() >= 1
    &&& row[0] <= u32::MAX
    &&& row[0] > last
    &&& forall|k: int| 1 <= k < row.len() ==> is_scalar_number(#[trigger] row[k])
    &&& if row[0] < FIRST_MERGE_ID {
        row.len() == 2 && row[1] == row[0]
    } else {
        row[0] == FIRST_MERGE_ID + merged
    }
}

/// The state after the first `n` rows: the id of the last entry, or -1, and the
/// number of entries of merges; or the place of the first row that is no entry.
pub open spec fn scan_entries(rows: Seq<Seq<u64>>, n: nat) -> Result<(int, nat), int>
    decreases n,
{
    if n == 0 {
        Ok((-1, 0))
    } else {
        match scan_entries(rows, (n - 1) as nat) {
            Err(i) => Err(i),
            Ok((last, merged)) => {
                let row = rows[n - 1];
                if entry_ok(row, last, merged) {
                    Ok(
                        (
                            row[0] as int,
                            if row[0] < FIRST_MERGE_ID {
                                merged
                            } else {
                                merged + 1
                            },
                        ),
                    )
                } else {
                    Err(n - 1)
                }
            },
        }
    }
}

/// The vocabulary of the first `n` rows.
pub open spec fn vocab_rows(rows: Seq<Seq<u64>>, n: nat) -> Map<u32, Seq<char>>
    decreases n,
{
    if n == 0 {
        Map::empty()
    } else {
        vocab_rows(rows, (n - 1) as nat).insert(rows[n - 1][0] as u32, entry_chars(rows[n - 1]))
    }
}

/// Whether the row is a rule of the vocabulary.
pub open spec fn merge_ok(row: Seq<u64>, vocab: Map<u32, Seq<char>>) -> bool {
    &&& row.len() == 3
    &&& row[0] <= u32::MAX && row[1] <= u32::MAX && row[2] <= u32::MAX
    &&& vocab.contains_key(row[0] as u32)
    &&& vocab.contains_key(row[1] as u32)
    &&& vocab.contains_key(row[2] as u32)
    &&& vocab[row[2] as u32] == vocab[row[0] as u32] + vocab[row[1] as u32]
}

/// The first of the first `n` rows that is no rule of the vocabulary.
pub open spec fn bad_merge(rows: Seq<Seq<u64>>, vocab: Map<u32, Seq<char>>, n: nat) -> Option<int>
    decreases n,
{
    if n == 0 {
        None
    } else {
        match bad_merge(rows, vocab, (n - 1) as nat) {
            Some(i) => Some(i),
            None => if merge_ok(rows[n - 1], vocab) {
                None
            } else {
                Some(n - 1)
            },
        }
    }
}

/// The model that a model file holds whose entries stand by rising ids.
pub open spec fn model_of(file: ModelText) -> Result<BpeModel, ModelFault> {
    let vocab = vocab_rows(file.vocab, file.vocab.len());
    if !pattern_compiles(file.pattern) {
        Err(ModelFault::BadPattern)
    } else if file.vocab.len() > u32::MAX {
        Err(ModelFault::TooManyEntries)
    } else {
        match scan_entries(file.vocab, file.vocab.len()) {
            Err(i) => Err(ModelFault::BadEntry { index: i as usize }),
            Ok((last, merged)) => {
                if FIRST_MERGE_ID + merged > u32::MAX {
                    Err(ModelFault::TooManyEntries)
                } else if bad_merge(file.merges, vocab, file.merges.len()) is Some {
                    Err(
                        ModelFault::BadMerge {
                            index: bad_merge(file.merges, vocab, file.merges.len())->0 as usize,
                        },
                    )
                } else if file.next_token_id is Some && file.next_token_id->0 != FIRST_MERGE_ID
                    + merged {
                    Err(ModelFault::BadNextId)
                } else {
                    Ok(
                        BpeModel {
                            pattern: file.pattern,
                            vocab,
                            rules: rules_of(file.merges),
                            next_id: (FIRST_MERGE_ID + merged) as u32,
                        },
                    )
                }
            },
        }
    }
}

/// The model that a text holds. The entries of its vocabulary may stand in any
/// order: they are read by rising ids.
pub open spec fn load_outcome(text: Seq<char>) -> Result<BpeModel, LoadError> {
    match parse_text(text) {
        Err(failure) => Err(LoadError::File(failure)),
        Ok(file) => match entries_in_order(file.vocab) {
            Err(k) => Err(LoadError::Model(ModelFault::RepeatedEntry { index: k as usize })),
            Ok(listed) => match model_of(ModelText { vocab: listed, ..file }) {
                Err(fault) => Err(LoadError::Model(fault)),
                Ok(model) => Ok(model),
            },
        },
    }
}

/// The entry of an id: the id, then the scalar values of its token.
pub open spec fn entry_row(id: u32, token: Seq<char>) -> Seq<u64> {
    seq![id as u64] + Seq::new(token.len(), |k: int| (token[k] as u32) as u64)
}

/// Whether `ids` lists the ids of the vocabulary in rising order.
pub open spec fn lists_ids(ids: Seq<u32>, vocab: Map<u32, Seq<char>>) -> bool {
    &&& forall|i: int, j: int| 0 <= i < j < ids.len() ==> ids[i] < ids[j]
    &&& forall|id: u32| vocab.contains_key(id) <==> ids.contains(id)
}

/// The model file of a model, with the entries in the order of `ids`.
pub open spec fn file_of(m: BpeModel, ids: Seq<u32>) -> ModelText {
    ModelText {
        pattern: m.pattern,
        tokens: seq![],
        base_chars: seq![],
        vocab: Seq::new(ids.len(), |i: int| entry_row(ids[i], m.vocab[ids[i]])),
        merges: Seq::new(m.rules.len(), |i: int| rule_row(m.rules[i])),
        next_token_id: Some(m.next_id as u64),
    }
}

/// A bad row among the first rows is the first bad row of all.
pub proof fn lemma_scan_fail_stays(rows: Seq<Seq<u64>>, done: nat, n: nat)
    requires
        done <= n,
        scan_entries(rows, done) is Err,
    ensures
        scan_entries(rows, n) == scan_entries(rows, done),
    decreases n - done,
{
    if done < n {
        lemma_scan_fail_stays(rows, done, (n - 1) as nat);
    }
}

/// The same for rules.
pub proof fn lemma_bad_merge_stays(
    rows: Seq<Seq<u64>>,
    vocab: Map<u32, Seq<char>>,
    done: nat,
    n: nat,
)
    requires
        done <= n,
        bad_merge(rows, vocab, done) is Some,
    ensures
        bad_merge(rows, vocab, n) == bad_merge(rows, vocab, done),
    decreases n - done,
{
    if done < n {
        lemma_bad_merge_stays(rows, vocab, done, (n - 1) as nat);
    }
}

/// Where no row is bad, every row is a rule of the vocabulary.
pub proof fn lemma_no_bad_merge(rows: Seq<Seq<u64>>, vocab: Map<u32, Seq<char>>, n: nat)
    requires
        n <= rows.len(),
        bad_merge(rows, vocab, n) is None,
    ensures
        forall|i: int| 0 <= i < n ==> merge_ok(#[trigger] rows[i], vocab),
    decreases n,
{
    if n > 0 {
        lemma_no_bad_merge(rows, vocab, (n - 1) as nat);
    }
}

/// Where every row is a rule of the vocabulary, no row is bad.
pub proof fn lemma_all_merges_ok(rows: Seq<Seq<u64>>, vocab: Map<u32, Seq<char>>, n: nat)
    requires
        n <= rows.len(),
        forall|i: int| 0 <= i < rows.len() ==> merge_ok(#[trigger] rows[i], vocab),
    ensures
        bad_merge(rows, vocab, n) is None,
    decreases n,
{
    if n > 0 {
        lemma_all_merges_ok(rows, vocab, (n - 1) as nat);
    }
}

/// Whether the token of `id` is the character with that scalar value.
pub open spec fn stands_for_itself(vocab: Map<u32, Vec<char>>, id: u32) -> bool {
    is_scalar(id) && vocab[id]@ == seq![id as char]
}

/// Whether the tokens are those of a model with `merged` merges: characters
/// stand for themselves, and the ids of the merges are the next ones.
pub open spec fn store_ok(vocab: Map<u32, Vec<char>>, merged: nat) -> bool {
    &&& forall|id: u32|
        #![trigger vocab.contains_key(id)]
        vocab.contains_key(id) ==> id < FIRST_MERGE_ID + merged
    &&& forall|id: u32|
        #![trigger vocab.contains_key(id)]
        FIRST_MERGE_ID <= id < FIRST_MERGE_ID + merged ==> vocab.contains_key(id)
    &&& forall|id: u32|
        #![trigger vocab.contains_key(id)]
        id < FIRST_MERGE_ID && vocab.contains_key(id) ==> stands_for_itself(vocab, id)
}

/// The tokens stay those of a model when a character gets its token, and when
/// the next merge gets its token.
pub proof fn lemma_store_grows(before: Map<u32, Vec<char>>, id: u32, token: Vec<char>, merged: nat)
    requires
        store_ok(before, merged),
        id < FIRST_MERGE_ID ==> is_scalar(id) && token@ == seq![id as char],
        id >= FIRST_MERGE_ID ==> id == FIRST_MERGE_ID + merged,
    ensures
        store_ok(
            before.insert(id, token),
            if id < FIRST_MERGE_ID {
                merged
            } else {
                merged + 1
            },
        ),
{
    let after = before.insert(id, token);
    let count = if id < FIRST_MERGE_ID {
        merged
    } else {
        merged + 1
    };
    assert forall|other: u32| #![trigger after.contains_key(other)] after.contains_key(other) implies other
        < FIRST_MERGE_ID + count by {
        if other != id {
            assert(before.contains_key(other));
        }
    }
    assert forall|other: u32|
        #![trigger after.contains_key(other)]
        FIRST_MERGE_ID <= other < FIRST_MERGE_ID + count implies after.contains_key(other) by {
        if other != id {
            assert(before.contains_key(other));
        }
    }
    assert forall|other: u32|
        #![trigger after.contains_key(other)]
        other < FIRST_MERGE_ID && after.contains_key(other) implies stands_for_itself(
        after,
        other,
    ) by {
        if other != id {
            assert(before.contains_key(other));
            assert(stands_for_itself(before, other));
            assert(after[other] == before[other]);
        } else {
            assert(after[other] == token);
        }
    }
}

impl Tokenizer {
    /// The ids of the vocabulary in rising order.
    pub fn sorted_ids(&self) -> (ids: Vec<u32>)
        requires
            self.wf(),
        ensures
            lists_ids(ids@, self@.vocab),
    {
        broadcast use vstd::std_specs::hash::group_hash_axioms;

        proof {
            self.lemma_parts();
        }
        let mut keys: Vec<usize> = Vec::new();
        let ghost keyed = self.vocab.keys().remaining();
        for id in it: self.vocab.keys()
            invariant
                it.seq() == keyed,
                keys@.len() == it.index(),
                forall|k: int| 0 <= k < keys@.len() ==> #[trigger] keys@[k] == *keyed[k],
        {
            keys.push(*id as usize);
        }
        let ghost listed = keys@;
        assert(listed.len() == keyed.len());
        assert forall|v: usize| listed.contains(v) implies v <= u32::MAX by {
            let k = choose|k: int| 0 <= k < listed.len() && listed[k] == v;
            assert(listed[k] == *keyed[k]);
        }
        sort_indices(&mut keys);
        let mut ids: Vec<u32> = Vec::new();
        proof {
            broadcast use vstd::seq_lib::group_to_multiset_ensures;

            assert forall|v: usize| keys@.contains(v) <==> listed.contains(v) by {
                assert(keys@.contains(v) <==> keys@.to_multiset().count(v) > 0);
                assert(listed.contains(v) <==> listed.to_multiset().count(v) > 0);
            }
            assert(listed.no_duplicates()) by {
                assert forall|a: int, b: int|
                    0 <= a < listed.len() && 0 <= b < listed.len() && a != b implies listed[a]
                    != listed[b] by {
                    assert(keyed[a] != keyed[b]);
                }
            }
            listed.lemma_multiset_has_no_duplicates();
            keys@.lemma_multiset_has_no_duplicates_conv();
        }
        assert forall|v: usize| keys@.contains(v) implies v <= u32::MAX by {
            assert(listed.contains(v));
        }
        let mut i: usize = 0;
        while i < keys.len()
            invariant
                i <= keys@.len(),
                ids@.len() == i,
                forall|v: usize| keys@.contains(v) ==> v <= u32::MAX,
                forall|k: int| 0 <= k < i ==> ids@[k] == keys@[k],
            decreases keys.len() - i,
        {
            assert(keys@.contains(keys@[i as int]));
            ids.push(keys[i] as u32);
            i += 1;
        }
        proof {
            assert forall|a: int, b: int| 0 <= a < b < ids@.len() implies ids@[a] < ids@[b] by {
                assert(keys@[a] <= keys@[b]);
                assert(keys@[a] != keys@[b]);
            }
            assert forall|id: u32| self@.vocab.contains_key(id) <==> ids@.contains(id) by {
                if self@.vocab.contains_key(id) {
                    assert(self.vocab@.contains_key(id));
                    assert(keyed.unref().to_set().contains(id));
                    let k = choose|k: int| 0 <= k < keyed.unref().len() && keyed.unref()[k] == id;
                    assert(listed[k] == *keyed[k]);
                    assert(listed[k] == id as usize);
                    assert(listed.contains(id as usize));
                    let j = choose|j: int| 0 <= j < keys@.len() && keys@[j] == id as usize;
                    assert(ids@[j] == id);
                }
                if ids@.contains(id) {
                    let j = choose|j: int| 0 <= j < ids@.len() && ids@[j] == id;
                    assert(keys@.contains(keys@[j]));
                    assert(listed.contains(keys@[j]));
                    let k = choose|k: int| 0 <= k < listed.len() && listed[k] == keys@[j];
                    assert(listed[k] == *keyed[k]);
                    assert(keyed.unref()[k] == id);
                    assert(keyed.unref().to_set().contains(id));
                }
            }
        }
        ids
    }

    /// The model file of the tokenizer.
    pub fn to_model_file(&self) -> (file: ModelFile)
        requires
            self.wf(),
        ensures
            exists|ids: Seq<u32>| lists_ids(ids, self@.vocab) && file@ == file_of(self@, ids),
    {
        broadcast use vstd::std_specs::hash::group_hash_axioms;

        proof {
            self.lemma_parts();
        }
        let ghost model = self@;
        let pattern = chars_of(self.base.pattern().source().as_str());
        let ids = self.sorted_ids();
        let mut vocab: Vec<Vec<u64>> = Vec::new();
        let mut i: usize = 0;
        while i < ids.len()
            invariant
                i <= ids@.len(),
                lists_ids(ids@, model.vocab),
                model.vocab == store_view(self.vocab@),
                vocab@.len() == i,
                forall|k: int|
                    0 <= k < i ==> (#[trigger] vocab@[k])@ == entry_row(
                        ids@[k],
                        model.vocab[ids@[k]],
                    ),
            decreases ids.len() - i,
        {
            let id = ids[i];
            let mut row: Vec<u64> = Vec::new();
            row.push(id as u64);
            proof {
                assert(ids@.contains(ids@[i as int]));
                assert(model.vocab.contains_key(id));
                assert(self.vocab@.contains_key(id));
            }
            match self.vocab.get(&id) {
                Some(token) => {
                    let mut k: usize = 0;
                    while k < token.len()
                        invariant
                            k <= token@.len(),
                            row@.len() == k + 1,
                            row@[0] == id as u64,
                            forall|j: int| 0 <= j < k ==> row@[j + 1] == (token@[j] as u32) as u64,
                        decreases token.len() - k,
                    {
                        row.push(token[k] as u32 as u64);
                        k += 1;
                    }
                    assert(row@ =~= entry_row(id, token@));
                },
                None => {},
            }
            vocab.push(row);
            i += 1;
        }
        let rules = self.merges.rules();
        let mut merges: Vec<Vec<u64>> = Vec::new();
        let mut i: usize = 0;
        while i < rules.len()
            invariant
                i <= rules@.len(),
                rules@ == model.rules,
                merges@.len() == i,
                forall|k: int| 0 <= k < i ==> (#[trigger] merges@[k])@ == rule_row(rules@[k]),
            decreases rules.len() - i,
        {
            let mut row: Vec<u64> = Vec::new();
            row.push(rules[i].left as u64);
            row.push(rules[i].right as u64);
            row.push(rules[i].new_id as u64);
            assert(row@ =~= rule_row(rules@[i as int]));
            merges.push(row);
            i += 1;
        }
        let file = ModelFile {
            pattern,
            tokens: Vec::new(),
            base_chars: Vec::new(),
            vocab,
            merges,
            next_token_id: Some(self.next_token_id as u64),
        };
        proof {
            let target = file_of(self@, ids@);
            assert(file@.tokens =~= target.tokens);
            assert(file@.base_chars =~= target.base_chars);
            assert(file@.vocab =~= target.vocab);
            assert(file@.merges =~= target.merges);
        }
        file
    }

    /// The ids with their tokens as texts, in the order of the ids.
    pub fn get_vocab(&self) -> (listing: Vec<(u32, String)>)
        requires
            self.wf(),
        ensures
            lists_ids(Seq::new(listing@.len(), |i: int| listing@[i].0), self@.vocab),
            forall|i: int|
                0 <= i < listing@.len() ==> (#[trigger] listing@[i]).1@
                    == self@.vocab[listing@[i].0],
    {
        broadcast use vstd::std_specs::hash::group_hash_axioms;

        proof {
            self.lemma_parts();
        }
        let ids = self.sorted_ids();
        let mut listing: Vec<(u32, String)> = Vec::new();
        let mut i: usize = 0;
        while i < ids.len()
            invariant
                self.wf(),
                i <= ids@.len(),
                lists_ids(ids@, self@.vocab),
                listing@.len() == i,
                forall|k: int|
                    0 <= k < i ==> (#[trigger] listing@[k]).0 == ids@[k] && listing@[k].1@
                        == self@.vocab[ids@[k]],
            decreases ids.len() - i,
        {
            let id = ids[i];
            proof {
                self.lemma_parts();
                assert(ids@.contains(id));
                assert(self@.vocab.contains_key(id));
            }
            let token = match self.get_token(id) {
                Some(token) => string_from_chars(token.as_slice()),
                None => String::from_str(""),
            };
            listing.push((id, token));
            i += 1;
        }
        proof {
            assert(Seq::new(listing@.len(), |i: int| listing@[i].0) =~= ids@);
        }
        listing
    }

    /// The number of tokens in the vocabulary.
    pub fn get_vocab_size(&self) -> (n: usize)
        requires
            self.wf(),
        ensures
            n == self@.vocab.dom().len(),
    {
        self.vocab_size()
    }

    /// The tokenizer as the text of a model file, with the entries of the
    /// vocabulary in the order of their ids. Fails where the pattern holds a
    /// line feed: the file has one line for it.
    pub fn save_model(&self) -> (outcome: Result<String, String>)
        requires
            self.wf(),
        ensures
            free_of(self@.pattern, '\n') ==> outcome is Ok && exists|ids: Seq<u32>|
                lists_ids(ids, self@.vocab) && outcome->Ok_0@ == render_text(file_of(self@, ids)),
            !free_of(self@.pattern, '\n') ==> outcome is Err && outcome->Err_0@
                == unsavable_message(),
    {
        let file = self.to_model_file();
        if !crate::text::is_free_of(&file.pattern, '\n') {
            return Err(String::from_str("the pattern or a base character holds a line feed"));
        }
        let chars = render_model(&file);
        Ok(string_from_chars(chars.as_slice()))
    }

    /// The tokenizer that a model file holds whose entries stand by rising ids,
    /// as `load_model` arranges them.
    pub fn from_model_file(file: &ModelFile) -> (outcome: Result<Tokenizer, ModelFault>)
        ensures
            match model_of(file@) {
                Ok(model) => outcome is Ok && outcome->Ok_0.wf() && outcome->Ok_0@ == model,
                Err(fault) => outcome == Err::<Tokenizer, ModelFault>(fault),
            },
    {
        broadcast use vstd::std_specs::hash::group_hash_axioms;

        let ghost rows = file@.vocab;
        let source = string_from_chars(file.pattern.as_slice());
        let base = match TokenizerBase::with_pattern(source) {
            Ok(base) => base,
            Err(_) => {
                return Err(ModelFault::BadPattern);
            },
        };
        if file.vocab.len() > u32::MAX as usize {
            return Err(ModelFault::TooManyEntries);
        }
        let mut vocab: HashMap<u32, Vec<char>> = HashMap::new();
        let mut last: Option<u32> = None;
        let mut merged: u32 = 0;
        let mut i: usize = 0;
        proof {
            assert(store_view(vocab@) =~= vocab_rows(rows, 0));
        }
        while i < file.vocab.len()
            invariant
                i <= file.vocab@.len(),
                file.vocab@.len() <= u32::MAX,
                rows == file@.vocab,
                pattern_compiles(file@.pattern),
                merged <= i,
                scan_entries(rows, i as nat) == Ok::<(int, nat), int>(
                    (
                        match last {
                            Some(id) => id as int,
                            None => -1,
                        },
                        merged as nat,
                    ),
                ),
                store_view(vocab@) == vocab_rows(rows, i as nat),
                forall|id: u32| vocab@.contains_key(id) ==> last is Some && id <= last->0,
                store_ok(vocab@, merged as nat),
            decreases file.vocab.len() - i,
        {
            let row = &file.vocab[i];
            let ghost before = vocab@;
            let floor: i64 = match last {
                Some(id) => id as i64,
                None => -1,
            };
            let mut token: Vec<char> = Vec::new();
            let mut good = row.len() >= 1 && row[0] <= u32::MAX as u64 && row[0] as i64 > floor;
            if good {
                if row[0] < FIRST_MERGE_ID as u64 {
                    good = row.len() == 2 && row[1] == row[0];
                } else {
                    good = row[0] == FIRST_MERGE_ID as u64 + merged as u64;
                }
            }
            let mut k: usize = 1;
            while good && k < row.len()
                invariant
                    1 <= k,
                    good ==> k <= row@.len(),
                    good ==> row@.len() >= 1 && row@[0] <= u32::MAX && row@[0] > floor,
                    good ==> (if row@[0] < FIRST_MERGE_ID {
                        row@.len() == 2 && row@[1] == row@[0]
                    } else {
                        row@[0] == FIRST_MERGE_ID + merged
                    }),
                    good ==> token@.len() == k - 1,
                    good ==> forall|j: int| 1 <= j < k ==> is_scalar_number(#[trigger] row@[j]),
                    good ==> forall|j: int|
                        0 <= j < k - 1 ==> token@[j] == (row@[j + 1] as u32) as char,
                    !good ==> !entry_ok(row@, floor as int, merged as nat),
                decreases row.len() - k + (if good { 1int } else { 0int }),
            {
                if row[k] > u32::MAX as u64 {
                    good = false;
                } else {
                    match scalar_char(row[k] as u32) {
                        Some(c) => {
                            proof {
                                vstd::utf8::char_u32_cast(c, row@[k as int] as u32);
                            }
                            token.push(c);
                            k += 1;
                        },
                        None => {
                            good = false;
                        },
                    }
                }
            }
            if !good {
                proof {
                    assert(rows[i as int] == row@);
                    assert(scan_entries(rows, (i + 1) as nat) == Err::<(int, nat), int>(i as int));
                    lemma_scan_fail_stays(rows, (i + 1) as nat, rows.len());
                }
                return Err(ModelFault::BadEntry { index: i });
            }
            let id = row[0] as u32;
            proof {
                assert(rows[i as int] == row@);
                assert(entry_ok(row@, floor as int, merged as nat));
                assert(token@ =~= entry_chars(row@));
                if id < FIRST_MERGE_ID {
                    assert(is_scalar_number(row@[1]));
                    assert(token@ =~= seq![id as char]);
                }
            }
            let ghost floor_merged = merged;
            vocab.insert(id, token);
            if id >= FIRST_MERGE_ID {
                merged = merged + 1;
            }
            last = Some(id);
            proof {
                assert(store_view(vocab@) =~= vocab_rows(rows, (i + 1) as nat));
                assert(token@ =~= entry_chars(row@));
                if id < FIRST_MERGE_ID {
                    assert(is_scalar_number(row@[1]));
                    assert(entry_chars(row@) =~= seq![id as char]);
                }
                lemma_store_grows(before, id, token, floor_merged as nat);
            }
            i += 1;
        }
        let ghost target = vocab_rows(rows, rows.len());
        if merged > u32::MAX - FIRST_MERGE_ID {
            return Err(ModelFault::TooManyEntries);
        }
        let next_id: u32 = FIRST_MERGE_ID + merged;
        let ghost merge_rows = file@.merges;
        let mut merges = MergeTable::new();
        let mut i: usize = 0;
        while i < file.merges.len()
            invariant
                i <= file.merges@.len(),
                merge_rows == file@.merges,
                rows == file@.vocab,
                rows.len() <= u32::MAX,
                pattern_compiles(file@.pattern),
                target == vocab_rows(rows, rows.len()),
                scan_entries(rows, rows.len()) == Ok::<(int, nat), int>(
                    (
                        match last {
                            Some(id) => id as int,
                            None => -1,
                        },
                        merged as nat,
                    ),
                ),
                FIRST_MERGE_ID + merged <= u32::MAX,
                store_ok(vocab@, merged as nat),
                store_view(vocab@) == target,
                bad_merge(merge_rows, target, i as nat) is None,
                merges.wf(),
                merges@ == rules_of(merge_rows.take(i as int)),
            decreases file.merges.len() - i,
        {
            let row = &file.merges[i];
            let mut good = false;
            if row.len() == 3 && row[0] <= u32::MAX as u64 && row[1] <= u32::MAX as u64 && row[2]
                <= u32::MAX as u64 {
                let left = row[0] as u32;
                let right = row[1] as u32;
                let new_id = row[2] as u32;
                match (vocab.get(&left), vocab.get(&right), vocab.get(&new_id)) {
                    (Some(first), Some(second), Some(whole)) => {
                        good = crate::vocab_store::is_concat(whole, first, second, &same_char);
                    },
                    _ => {},
                }
            }
            proof {
                assert(merge_rows[i as int] == row@);
                assert(good == merge_ok(row@, target));
            }
            if !good {
                proof {
                    assert(bad_merge(merge_rows, target, (i + 1) as nat) == Some(i as int));
                    lemma_bad_merge_stays(merge_rows, target, (i + 1) as nat, merge_rows.len());
                }
                return Err(ModelFault::BadMerge { index: i });
            }
            let rule = MergeRule { left: row[0] as u32, right: row[1] as u32, new_id: row[2] as u32 };
            merges.push(rule);
            proof {
                assert(merge_rows.take(i + 1) =~= merge_rows.take(i as int).push(merge_rows[i as int]));
                assert(rules_of(merge_rows.take(i + 1)) =~= rules_of(
                    merge_rows.take(i as int),
                ).push(rule));
            }
            i += 1;
        }
        proof {
            assert(merge_rows.take(file.merges@.len() as int) =~= merge_rows);
        }
        match file.next_token_id {
            Some(id) => {
                if id != next_id as u64 {
                    return Err(ModelFault::BadNextId);
                }
            },
            None => {},
        }
        let tokenizer = Tokenizer { merges, base, vocab, next_token_id: next_id };
        proof {
            tokenizer.lemma_parts();
            let model = model_of(file@)->Ok_0;
            lemma_no_bad_merge(merge_rows, target, merge_rows.len());
            assert(tokenizer@.vocab =~= model.vocab);
            assert(rules_well_formed(tokenizer@.vocab, tokenizer@.rules)) by {
                assert forall|j: int| 0 <= j < tokenizer@.rules.len() implies {
                    &&& tokenizer@.vocab.contains_key((#[trigger] tokenizer@.rules[j]).left)
                    &&& tokenizer@.vocab.contains_key(tokenizer@.rules[j].right)
                    &&& tokenizer@.vocab.contains_key(tokenizer@.rules[j].new_id)
                    &&& tokenizer@.vocab[tokenizer@.rules[j].new_id]
                        == tokenizer@.vocab[tokenizer@.rules[j].left]
                        + tokenizer@.vocab[tokenizer@.rules[j].right]
                } by {
                    assert(merge_ok(merge_rows[j], target));
                }
            }
            assert(tokenizer@ =~= model);
            assert(model_wf(tokenizer@)) by {
                assert forall|id: u32| tokenizer@.vocab.contains_key(id) implies id
                    < tokenizer@.next_id by {
                    assert(vocab@.contains_key(id));
                }
                assert forall|id: u32|
                    FIRST_MERGE_ID <= id < tokenizer@.next_id implies tokenizer@.vocab.contains_key(
                    id,
                ) by {
                    assert(vocab@.contains_key(id));
                }
                assert forall|id: u32|
                    id < FIRST_MERGE_ID && #[trigger] tokenizer@.vocab.contains_key(
                        id,
                    ) implies is_scalar(id) && tokenizer@.vocab[id] == seq![id as char] by {
                    assert(vocab@.contains_key(id));
                    assert(vocab@[id]@ == seq![id as char]);
                }
            }
        }
        Ok(tokenizer)
    }

    /// Loads the tokenizer from the text of a model file. Fails, and changes
    /// nothing, where the text holds no model; the message names the line or the
    /// section at fault.
    pub fn load_model(&mut self, text: &str) -> (outcome: Result<(), String>)
        requires
            old(self).wf(),
        ensures
            final(self).wf(),
            match load_outcome(text@) {
                Ok(model) => outcome is Ok && final(self)@ == model,
                Err(error) => {
                    &&& outcome is Err
                    &&& outcome->Err_0@ == load_message(error)
                    &&& final(self)@ == old(self)@
                },
            },
    {
        let chars = chars_of(text);
        let file = match parse_model(&chars) {
            Err(failure) => {
                return Err(failure_text(failure));
            },
            Ok(file) => file,
        };
        let listed = match arrange(&file.vocab) {
            Err(index) => {
                return Err(fault_text(ModelFault::RepeatedEntry { index }));
            },
            Ok(listed) => listed,
        };
        let ghost read = file@;
        let ordered = ModelFile { vocab: listed, ..file };
        proof {
            assert(ordered@ =~= (ModelText { vocab: rows_view(listed@), ..read }));
        }
        match Self::from_model_file(&ordered) {
            Err(fault) => Err(fault_text(fault)),
            Ok(tokenizer) => {
                *self = tokenizer;
                Ok(())
            },
        }
    }
}

/// The id of the last of the first `n` listed entries, or -1.
pub open spec fn last_listed(ids: Seq<u32>, n: nat) -> int {
    if n == 0 {
        -1
    } else {
        ids[n - 1] as int
    }
}

/// The number of entries of merges among the first `n` listed entries, where
/// the listing is that of a valid model.
pub open spec fn merged_listed(ids: Seq<u32>, n: nat) -> nat {
    if n == 0 || ids[n - 1] < FIRST_MERGE_ID {
        0
    } else {
        (ids[n - 1] - FIRST_MERGE_ID + 1) as nat
    }
}

/// The place of an id in a rising listing of the vocabulary.
proof fn lemma_listed_place(ids: Seq<u32>, vocab: Map<u32, Seq<char>>, id: u32) -> (j: int)
    requires
        lists_ids(ids, vocab),
        vocab.contains_key(id),
    ensures
        0 <= j < ids.len(),
        ids[j] == id,
{
    assert(ids.contains(id));
    choose|j: int| 0 <= j < ids.len() && ids[j] == id
}

/// The entry of a token holds the token.
pub proof fn lemma_entry_chars(id: u32, token: Seq<char>)
    ensures
        entry_chars(entry_row(id, token)) == token,
        entry_row(id, token)[0] == id,
        forall|k: int|
            1 <= k < entry_row(id, token).len() ==> is_scalar_number(
                #[trigger] entry_row(id, token)[k],
            ),
{
    let row = entry_row(id, token);
    assert forall|k: int| 0 <= k < token.len() implies (row[k + 1] as u32) as char == token[k]
        && is_scalar_number(row[k + 1]) by {
        vstd::utf8::char_is_scalar(token[k]);
        vstd::utf8::char_u32_cast(token[k], token[k] as u32);
    }
    assert(entry_chars(row) =~= token);
    assert forall|k: int| 1 <= k < row.len() implies is_scalar_number(#[trigger] row[k]) by {
        assert(is_scalar_number(row[(k - 1) + 1]));
    }
}

/// The entries of a valid model, listed by rising ids, are all in order.
pub proof fn lemma_scan_listing(m: BpeModel, ids: Seq<u32>, n: nat)
    requires
        model_wf(m),
        lists_ids(ids, m.vocab),
        n <= ids.len(),
    ensures
        scan_entries(file_of(m, ids).vocab, n) == Ok::<(int, nat), int>(
            (last_listed(ids, n), merged_listed(ids, n)),
        ),
        vocab_rows(file_of(m, ids).vocab, n) == m.vocab.restrict(ids.take(n as int).to_set()),
    decreases n,
{
    let rows = file_of(m, ids).vocab;
    if n == 0 {
        assert(ids.take(0).to_set() =~= Set::<u32>::empty());
        assert(vocab_rows(rows, n) =~= m.vocab.restrict(ids.take(n as int).to_set()));
    } else {
        lemma_scan_listing(m, ids, (n - 1) as nat);
        let id = ids[n - 1];
        let row = rows[n - 1];
        let last = last_listed(ids, (n - 1) as nat);
        let merged = merged_listed(ids, (n - 1) as nat);
        assert(ids.contains(id));
        assert(m.vocab.contains_key(id));
        assert(row == entry_row(id, m.vocab[id]));
        lemma_entry_chars(id, m.vocab[id]);
        assert(row[0] > last);
        if id < FIRST_MERGE_ID {
            assert(m.vocab[id] == seq![id as char]);
            assert(is_scalar(id));
            lemma_scalar_cast(id);
            assert(row.len() == 2 && row[1] == row[0]);
        } else if n == 1 || ids[n - 2] < FIRST_MERGE_ID {
            let j = lemma_listed_place(ids, m.vocab, FIRST_MERGE_ID);
            if j < n - 1 {
                assert(n > 1);
                if j < n - 2 {
                    assert(ids[j] < ids[n - 2]);
                }
            } else if j > n - 1 {
                assert(ids[n - 1] < ids[j]);
            }
            assert(id == FIRST_MERGE_ID);
        } else {
            let next = (ids[n - 2] + 1) as u32;
            assert(ids[n - 2] < ids[n - 1]);
            let j = lemma_listed_place(ids, m.vocab, next);
            if j < n - 1 {
                if j < n - 2 {
                    assert(ids[j] < ids[n - 2]);
                }
            } else if j > n - 1 {
                assert(ids[n - 1] < ids[j]);
            }
            assert(id == next);
        }
        assert(entry_ok(row, last, merged));
        let front = ids.take(n - 1);
        let upto = ids.take(n as int);
        assert(upto.to_set() =~= front.to_set().insert(id)) by {
            assert forall|v: u32| upto.to_set().contains(v) <==> front.to_set().insert(id).contains(
                v,
            ) by {
                if upto.contains(v) {
                    let k = choose|k: int| 0 <= k < upto.len() && upto[k] == v;
                    if k < n - 1 {
                        assert(front[k] == v);
                    }
                }
                if front.contains(v) {
                    let k = choose|k: int| 0 <= k < front.len() && front[k] == v;
                    assert(upto[k] == v);
                }
                if v == id {
                    assert(upto[n - 1] == v);
                }
            }
        }
        assert(vocab_rows(rows, n) =~= m.vocab.restrict(ids.take(n as int).to_set()));
    }
}

/// A scalar value is the scalar value of its character.
pub proof fn lemma_scalar_cast(id: u32)
    requires
        is_scalar(id),
    ensures
        (id as char) as u32 == id,
{
}

/// A rising listing of the vocabulary ends at the last id that the model has
/// given out.
pub proof fn lemma_listing_end(m: BpeModel, ids: Seq<u32>)
    requires
        model_wf(m),
        lists_ids(ids, m.vocab),
    ensures
        m.next_id == FIRST_MERGE_ID + merged_listed(ids, ids.len()),
{
    let n = ids.len();
    if n == 0 || ids[n - 1] < FIRST_MERGE_ID {
        if m.next_id > FIRST_MERGE_ID {
            let j = lemma_listed_place(ids, m.vocab, FIRST_MERGE_ID);
            if j < n - 1 {
                assert(ids[j] < ids[n - 1]);
            }
        }
    } else {
        assert(ids.contains(ids[n - 1]));
        assert(m.vocab.contains_key(ids[n - 1]));
        if ids[n - 1] + 1 < m.next_id {
            let j = lemma_listed_place(ids, m.vocab, (ids[n - 1] + 1) as u32);
            if j < n - 1 {
                assert(ids[j] < ids[n - 1]);
            }
        }
    }
}

/// The rows of the rules of a valid model are rules of its vocabulary, and hold
/// the rules.
pub proof fn lemma_rule_rows(m: BpeModel, ids: Seq<u32>)
    requires
        rules_well_formed(m.vocab, m.rules),
    ensures
        bad_merge(file_of(m, ids).merges, m.vocab, file_of(m, ids).merges.len()) is None,
        rules_of(file_of(m, ids).merges) == m.rules,
{
    let file = file_of(m, ids);
    assert forall|i: int| 0 <= i < file.merges.len() implies merge_ok(
        #[trigger] file.merges[i],
        m.vocab,
    ) by {
        let rule = m.rules[i];
        assert(m.vocab.contains_key(rule.left));
    }
    lemma_all_merges_ok(file.merges, m.vocab, file.merges.len());
    assert(rules_of(file.merges) =~= m.rules);
}

/// The model file of a valid model, with the entries listed by rising ids, holds
/// that model.
pub proof fn lemma_model_of_file(m: BpeModel, ids: Seq<u32>)
    requires
        model_wf(m),
        pattern_compiles(m.pattern),
        lists_ids(ids, m.vocab),
    ensures
        model_of(file_of(m, ids)) == Ok::<BpeModel, ModelFault>(m),
{
    let file = file_of(m, ids);
    let n = ids.len();
    lemma_scan_listing(m, ids, n);
    assert(ids.take(n as int) =~= ids);
    let vocab = vocab_rows(file.vocab, n);
    assert(vocab =~= m.vocab) by {
        assert forall|id: u32| m.vocab.contains_key(id) <==> ids.to_set().contains(id) by {}
    }
    lemma_listing_end(m, ids);
    lemma_listing_len(ids);
    lemma_rule_rows(m, ids);
}

/// A rising listing of ids is no longer than its last id allows.
pub proof fn lemma_listing_len(ids: Seq<u32>)
    requires
        forall|i: int, j: int| 0 <= i < j < ids.len() ==> ids[i] < ids[j],
    ensures
        ids.len() > 0 ==> ids.len() <= ids.last() + 1,
        ids.len() <= u32::MAX + 1,
    decreases ids.len(),
{
    if ids.len() > 1 {
        let front = ids.drop_last();
        lemma_listing_len(front);
        assert(front.last() == ids[ids.len() - 2]);
        assert(ids[ids.len() - 2] < ids[ids.len() - 1]);
    }
}

/// Loading undoes saving: the text that `save_model` writes for a valid model
/// loads as that model, where the pattern holds no line feed.
pub proof fn lemma_load_save(m: BpeModel, ids: Seq<u32>)
    requires
        model_wf(m),
        pattern_compiles(m.pattern),
        free_of(m.pattern, '\n'),
        lists_ids(ids, m.vocab),
        m.rules.len() <= u64::MAX,
    ensures
        load_outcome(render_text(file_of(m, ids))) == Ok::<BpeModel, LoadError>(m),
{
    let file = file_of(m, ids);
    lemma_listing_len(ids);
    assert forall|i: int| 0 <= i < file.vocab.len() implies (#[trigger] file.vocab[i]).len()
        >= 1 by {}
    assert forall|i: int| 0 <= i < file.merges.len() implies (#[trigger] file.merges[i]).len()
        >= 1 by {}
    assert(printable(file));
    lemma_parse_render(file);
    assert forall|i: int, j: int| 0 <= i < j < file.vocab.len() implies ids_of(file.vocab)[i]
        < ids_of(file.vocab)[j] by {
        assert(ids[i] < ids[j]);
    }
    lemma_arranged_already(file.vocab);
    assert((ModelText { vocab: file.vocab, ..file }) =~= file);
    lemma_model_of_file(m, ids);
}

} // verus!
