//! Saving and loading the byte-level tokenizer.

use crate::bbpe::{model_wf, BBPETokenizer, BbpeModel};
use crate::entry_order::{arrange, entries_in_order, ids_of, lemma_arranged_already};
use crate::merges::MergeTable;
use crate::model_file::{
    lemma_parse_render, parse_model, parse_text, printable, render_model, render_text, rows_view,
    LoadFailure, ModelFile, ModelText,
};
use crate::pairs::MergeRule;
use crate::pattern::{pattern_compiles, strings_view};
use crate::text::{chars_of, chars_view, decimal, decimal_string, free_of, string_from_chars};
use crate::tokenizer_base::{join_three, TokenizerBase};
use crate::vocab_store::{rules_well_formed, same_byte, store_view};
use std::collections::HashMap;
use vstd::prelude::*;
use vstd::string::StringExecFns;

verus! {

/// Why a model file holds no model.
#[derive(Debug, Clone, Copy, PartialEq, Eq, Structural)]
pub enum ModelFault {
    /// The pattern does not compile.
    BadPattern,
    /// The vocabulary has more entries than there are ids.
    TooManyEntries,
    /// The entry at this place of the file has no id or repeats the id of an
    /// entry before it.
    RepeatedEntry { index: usize },
    /// The entry at this place of the vocabulary, counted by rising ids, does
    /// not begin with the id that belongs there, or holds an item that is no
    /// token.
    BadEntry { index: usize },
    /// The first 256 entries are not the 256 bytes.
    MissingBytes,
    /// The rule at this place is not three ids of the vocabulary, or the token
    /// of the third is not the tokens of the first two in a row.
    BadMerge { index: usize },
    /// The next free id is not the number of entries.
    BadNextId,
    /// The token line at this place is not a token, a space and an id.
    BadToken { index: usize },
}

/// Why a text holds no model.
#[derive(Debug, Clone, Copy, PartialEq, Eq, Structural)]
pub enum LoadError {
    /// The text is no model file.
    File(LoadFailure),
    /// The model file holds no model.
    Model(ModelFault),
}

/// Whether the row is the entry of the id `id`: the id, then bytes.
pub open spec fn entry_ok(row: Seq<u64>, id: int) -> bool {
    &&& row.len() >= 1
    &&& row[0] == id
    &&& forall|k: int| 1 <= k < row.len() ==> #[trigger] row[k] <= 255
}

/// The token of an entry.
pub open spec fn entry_token(row: Seq<u64>) -> Seq<u8> {
    Seq::new((row.len() - 1) as nat, |k: int| row[k + 1] as u8)
}

/// The first of the first `n` rows that is not the entry of its place.
pub open spec fn bad_entry(rows: Seq<Seq<u64>>, n: nat) -> Option<int>
    decreases n,
{
    if n == 0 {
        None
    } else {
        match bad_entry(rows, (n - 1) as nat) {
            Some(i) => Some(i),
            None => if entry_ok(rows[n - 1], n - 1) {
                None
            } else {
                Some(n - 1)
            },
        }
    }
}

/// The vocabulary of the rows: the token of an id is that of the row at its
/// place.
pub open spec fn vocab_of(rows: Seq<Seq<u64>>) -> Map<u32, Seq<u8>> {
    Map::new(|id: u32| id < rows.len(), |id: u32| entry_token(rows[id as int]))
}

/// Whether the first 256 tokens are the bytes.
pub open spec fn has_bytes(vocab: Map<u32, Seq<u8>>) -> bool {
    forall|id: u32| id < 256 ==> vocab.contains_key(id) && #[trigger] vocab[id] == seq![id as u8]
}

/// Whether the row is a rule of the vocabulary.
pub open spec fn merge_ok(row: Seq<u64>, vocab: Map<u32, Seq<u8>>) -> bool {
    &&& row.len() == 3
    &&& row[0] <= u32::MAX && row[1] <= u32::MAX && row[2] <= u32::MAX
    &&& vocab.contains_key(row[0] as u32)
    &&& vocab.contains_key(row[1] as u32)
    &&& vocab.contains_key(row[2] as u32)
    &&& vocab[row[2] as u32] == vocab[row[0] as u32] + vocab[row[1] as u32]
}

/// The rule of a row.
pub open spec fn rule_of(row: Seq<u64>) -> MergeRule {
    MergeRule { left: row[0] as u32, right: row[1] as u32, new_id: row[2] as u32 }
}

/// The rules of the rows.
pub open spec fn rules_of(rows: Seq<Seq<u64>>) -> Seq<MergeRule> {
    Seq::new(rows.len(), |i: int| rule_of(rows[i]))
}

/// The first of the first `n` rows that is no rule of the vocabulary.
pub open spec fn bad_merge(rows: Seq<Seq<u64>>, vocab: Map<u32, Seq<u8>>, n: nat) -> Option<int>
    decreases n,
{
    if n == 0 {
        None
    } else {
        match bad_merge(rows, vocab, (n - 1) as nat) {
            Some(i) => Some(i),
            None => if merge_ok(rows[n - 1], vocab) {
                None
            } else {
                Some(n - 1)
            },
        }
    }
}

/// The model that a model file holds whose entries stand by rising ids.
pub open spec fn model_of(file: ModelText) -> Result<BbpeModel, ModelFault> {
    let vocab = vocab_of(file.vocab);
    if !pattern_compiles(file.pattern) {
        Err(ModelFault::BadPattern)
    } else if file.vocab.len() > u32::MAX {
        Err(ModelFault::TooManyEntries)
    } else if bad_entry(file.vocab, file.vocab.len()) is Some {
        Err(ModelFault::BadEntry { index: bad_entry(file.vocab, file.vocab.len())->0 as usize })
    } else if !has_bytes(vocab) {
        Err(ModelFault::MissingBytes)
    } else if bad_merge(file.merges, vocab, file.merges.len()) is Some {
        Err(
            ModelFault::BadMerge {
                index: bad_merge(file.merges, vocab, file.merges.len())->0 as usize,
            },
        )
    } else if file.next_token_id is Some && file.next_token_id->0 != file.vocab.len() {
        Err(ModelFault::BadNextId)
    } else {
        Ok(
            BbpeModel {
                pattern: file.pattern,
                vocab,
                rules: rules_of(file.merges),
                base_chars: file.base_chars,
                next_id: file.vocab.len() as u32,
            },
        )
    }
}

/// The model that a text holds. The entries of its vocabulary may stand in any
/// order: they are read by rising ids.
pub open spec fn load_outcome(text: Seq<char>) -> Result<BbpeModel, LoadError> {
    match parse_text(text) {
        Err(failure) => Err(LoadError::File(failure)),
        Ok(file) => match entries_in_order(file.vocab) {
            Err(k) => Err(LoadError::Model(ModelFault::RepeatedEntry { index: k as usize })),
            Ok(listed) => match model_of(ModelText { vocab: listed, ..file }) {
                Err(fault) => Err(LoadError::Model(fault)),
                Ok(model) => Ok(model),
            },
        },
    }
}

/// The entry of an id: the id, then the bytes of its token.
pub open spec fn entry_row(id: int, token: Seq<u8>) -> Seq<u64> {
    seq![id as u64] + Seq::new(token.len(), |k: int| token[k] as u64)
}

/// The row of a rule.
pub open spec fn rule_row(rule: MergeRule) -> Seq<u64> {
    seq![rule.left as u64, rule.right as u64, rule.new_id as u64]
}

/// The model file of a model.
pub open spec fn file_of(m: BbpeModel) -> ModelText {
    ModelText {
        pattern: m.pattern,
        tokens: seq![],
        base_chars: m.base_chars,
        vocab: Seq::new(m.next_id as nat, |i: int| entry_row(i, m.vocab[i as u32])),
        merges: Seq::new(m.rules.len(), |i: int| rule_row(m.rules[i])),
        next_token_id: Some(m.next_id as u64),
    }
}

/// Whether a model can be written as a model file: neither its pattern nor a base
/// character holds a line feed.
pub open spec fn savable(m: BbpeModel) -> bool {
    &&& free_of(m.pattern, '\n')
    &&& forall|i: int| 0 <= i < m.base_chars.len() ==> free_of(#[trigger] m.base_chars[i], '\n')
}

/// The message for a model that cannot be written as a model file.
pub open spec fn unsavable_message() -> Seq<char> {
    "the pattern or a base character holds a line feed"@
}

/// The message for a text that is no model file.
pub open spec fn failure_message(failure: LoadFailure) -> Seq<char> {
    match failure {
        LoadFailure::MissingPattern => "the first line does not give the pattern"@,
        LoadFailure::MissingVocab => "the section 'vocab' is missing"@,
        LoadFailure::MissingMerges => "the section 'merges' is missing"@,
        LoadFailure::BadLine { line } => "line "@ + decimal(line as nat) + " cannot be read"@,
        LoadFailure::Truncated => "the file ends inside a section"@,
    }
}

/// The message for a model file that holds no model.
pub open spec fn fault_message(fault: ModelFault) -> Seq<char> {
    match fault {
        ModelFault::BadPattern => "the pattern of the file does not compile"@,
        ModelFault::TooManyEntries => "the section 'vocab' has too many entries"@,
        ModelFault::RepeatedEntry { index } => "entry "@ + decimal(index as nat)
            + " of the section 'vocab' has no id or repeats one"@,
        ModelFault::BadEntry { index } => "entry "@ + decimal(index as nat)
            + " of the section 'vocab' is not in order"@,
        ModelFault::MissingBytes => "the section 'vocab' does not begin with the 256 bytes"@,
        ModelFault::BadMerge { index } => "rule "@ + decimal(index as nat)
            + " of the section 'merges' does not fit the vocabulary"@,
        ModelFault::BadNextId => "the next free id is not the number of entries"@,
        ModelFault::BadToken { index } => "token line "@ + decimal(index as nat)
            + " is not a token and an id"@,
    }
}

/// The message for a text that holds no model.
pub open spec fn load_message(error: LoadError) -> Seq<char> {
    match error {
        LoadError::File(failure) => failure_message(failure),
        LoadError::Model(fault) => fault_message(fault),
    }
}

/// The message for a text that is no model file.
pub fn failure_text(failure: LoadFailure) -> (message: String)
    ensures
        message@ == failure_message(failure),
{
    match failure {
        LoadFailure::MissingPattern => String::from_str("the first line does not give the pattern"),
        LoadFailure::MissingVocab => String::from_str("the section 'vocab' is missing"),
        LoadFailure::MissingMerges => String::from_str("the section 'merges' is missing"),
        LoadFailure::BadLine { line } => {
            let number = decimal_string(line as u64);
            join_three("line ", number.as_str(), " cannot be read")
        },
        LoadFailure::Truncated => String::from_str("the file ends inside a section"),
    }
}

/// The message for a model file that holds no model.
pub fn fault_text(fault: ModelFault) -> (message: String)
    ensures
        message@ == fault_message(fault),
{
    match fault {
        ModelFault::BadPattern => String::from_str("the pattern of the file does not compile"),
        ModelFault::TooManyEntries => String::from_str("the section 'vocab' has too many entries"),
        ModelFault::RepeatedEntry { index } => {
            let number = decimal_string(index as u64);
            join_three("entry ", number.as_str(), " of the section 'vocab' has no id or repeats one")
        },
        ModelFault::BadEntry { index } => {
            let number = decimal_string(index as u64);
            join_three("entry ", number.as_str(), " of the section 'vocab' is not in order")
        },
        ModelFault::MissingBytes => String::from_str(
            "the section 'vocab' does not begin with the 256 bytes",
        ),
        ModelFault::BadMerge { index } => {
            let number = decimal_string(index as u64);
            join_three(
                "rule ",
                number.as_str(),
                " of the section 'merges' does not fit the vocabulary",
            )
        },
        ModelFault::BadNextId => String::from_str("the next free id is not the number of entries"),
        ModelFault::BadToken { index } => {
            let number = decimal_string(index as u64);
            join_three("token line ", number.as_str(), " is not a token and an id")
        },
    }
}

/// A bad row among the first rows is the first bad row of all.
pub proof fn lemma_bad_entry_stays(rows: Seq<Seq<u64>>, done: nat, n: nat)
    requires
        done <= n,
        bad_entry(rows, done) is Some,
    ensures
        bad_entry(rows, n) == bad_entry(rows, done),
    decreases n - done,
{
    if done < n {
        lemma_bad_entry_stays(rows, done, (n - 1) as nat);
    }
}

/// The same for rules.
pub proof fn lemma_bad_merge_stays(rows: Seq<Seq<u64>>, vocab: Map<u32, Seq<u8>>, done: nat, n: nat)
    requires
        done <= n,
        bad_merge(rows, vocab, done) is Some,
    ensures
        bad_merge(rows, vocab, n) == bad_merge(rows, vocab, done),
    decreases n - done,
{
    if done < n {
        lemma_bad_merge_stays(rows, vocab, done, (n - 1) as nat);
    }
}

/// Where no row is bad, every row is the entry of its place.
pub proof fn lemma_no_bad_entry(rows: Seq<Seq<u64>>, n: nat)
    requires
        n <= rows.len(),
        bad_entry(rows, n) is None,
    ensures
        forall|i: int| 0 <= i < n ==> entry_ok(#[trigger] rows[i], i),
    decreases n,
{
    if n > 0 {
        lemma_no_bad_entry(rows, (n - 1) as nat);
    }
}

/// Where no row is bad, every row is a rule of the vocabulary.
pub proof fn lemma_no_bad_merge(rows: Seq<Seq<u64>>, vocab: Map<u32, Seq<u8>>, n: nat)
    requires
        n <= rows.len(),
        bad_merge(rows, vocab, n) is None,
    ensures
        forall|i: int| 0 <= i < n ==> merge_ok(#[trigger] rows[i], vocab),
    decreases n,
{
    if n > 0 {
        lemma_no_bad_merge(rows, vocab, (n - 1) as nat);
    }
}

impl BBPETokenizer {
    /// The model file of the tokenizer.
    pub fn to_model_file(&self) -> (file: ModelFile)
        requires
            self.wf(),
        ensures
            file@ == file_of(self@),
    {
        broadcast use vstd::std_specs::hash::group_hash_axioms;

        proof {
            self.lemma_parts();
        }
        let ghost model = self@;
        let pattern = chars_of(self.base.pattern().source().as_str());
        let mut base_chars: Vec<Vec<char>> = Vec::new();
        let mut i: usize = 0;
        while i < self.base_chars.len()
            invariant
                i <= self.base_chars@.len(),
                base_chars@.len() == i,
                forall|k: int| 0 <= k < i ==> (#[trigger] base_chars@[k])@ == self.base_chars@[k]@,
            decreases self.base_chars.len() - i,
        {
            base_chars.push(chars_of(self.base_chars[i].as_str()));
            i += 1;
        }
        let mut vocab: Vec<Vec<u64>> = Vec::new();
        let mut id: u32 = 0;
        while id < self.next_token_id
            invariant
                id <= self.next_token_id,
                model_wf(model),
                model.vocab == store_view(self.vocab@),
                model.next_id == self.next_token_id,
                vocab@.len() == id,
                forall|k: int|
                    0 <= k < id ==> (#[trigger] vocab@[k])@ == entry_row(
                        k,
                        model.vocab[k as u32],
                    ),
            decreases self.next_token_id - id,
        {
            let mut row: Vec<u64> = Vec::new();
            row.push(id as u64);
            proof {
                assert(model.vocab.contains_key(id));
                assert(self.vocab@.contains_key(id));
            }
            match self.vocab.get(&id) {
                Some(token) => {
                    let mut k: usize = 0;
                    while k < token.len()
                        invariant
                            k <= token@.len(),
                            row@.len() == k + 1,
                            row@[0] == id as u64,
                            forall|j: int| 0 <= j < k ==> row@[j + 1] == token@[j] as u64,
                        decreases token.len() - k,
                    {
                        row.push(token[k] as u64);
                        k += 1;
                    }
                    assert(row@ =~= entry_row(id as int, token@));
                },
                None => {},
            }
            vocab.push(row);
            id += 1;
        }
        let rules = self.merges.rules();
        let mut merges: Vec<Vec<u64>> = Vec::new();
        let mut i: usize = 0;
        while i < rules.len()
            invariant
                i <= rules@.len(),
                rules@ == model.rules,
                merges@.len() == i,
                forall|k: int| 0 <= k < i ==> (#[trigger] merges@[k])@ == rule_row(rules@[k]),
            decreases rules.len() - i,
        {
            let mut row: Vec<u64> = Vec::new();
            row.push(rules[i].left as u64);
            row.push(rules[i].right as u64);
            row.push(rules[i].new_id as u64);
            assert(row@ =~= rule_row(rules@[i as int]));
            merges.push(row);
            i += 1;
        }
        let file = ModelFile {
            pattern,
            tokens: Vec::new(),
            base_chars,
            vocab,
            merges,
            next_token_id: Some(self.next_token_id as u64),
        };
        proof {
            let target = file_of(self@);
            assert(chars_view(base_chars@) =~= strings_view(self.base_chars@));
            assert(file@.tokens =~= target.tokens);
            assert(file@.base_chars =~= target.base_chars);
            assert(file@.vocab =~= target.vocab);
            assert(file@.merges =~= target.merges);
        }
        file
    }

    /// The tokenizer as the text of a model file. Fails where the pattern or a
    /// base character holds a line feed: the file has one line for each.
    pub fn save_model(&self) -> (outcome: Result<String, String>)
        requires
            self.wf(),
        ensures
            savable(self@) ==> outcome is Ok && outcome->Ok_0@ == render_text(file_of(self@)),
            !savable(self@) ==> outcome is Err && outcome->Err_0@ == unsavable_message(),
    {
        let file = self.to_model_file();
        let mut fine = crate::text::is_free_of(&file.pattern, '\n');
        let mut i: usize = 0;
        while fine && i < file.base_chars.len()
            invariant
                i <= file.base_chars@.len(),
                file@ == file_of(self@),
                fine ==> free_of(self@.pattern, '\n'),
                fine ==> forall|k: int| 0 <= k < i ==> free_of(#[trigger] self@.base_chars[k], '\n'),
                !fine ==> !savable(self@),
            decreases file.base_chars.len() - i + (if fine { 1int } else { 0int }),
        {
            if crate::text::is_free_of(&file.base_chars[i], '\n') {
                i += 1;
            } else {
                proof {
                    assert(self@.base_chars[i as int] == file.base_chars@[i as int]@);
                }
                fine = false;
            }
        }
        if !fine {
            return Err(String::from_str("the pattern or a base character holds a line feed"));
        }
        let chars = render_model(&file);
        Ok(string_from_chars(chars.as_slice()))
    }

    /// The tokenizer that a model file holds whose entries stand by rising ids,
    /// as `load_model` arranges them.
    pub fn from_model_file(file: &ModelFile) -> (outcome: Result<BBPETokenizer, ModelFault>)
        ensures
            match model_of(file@) {
                Ok(model) => outcome is Ok && outcome->Ok_0.wf() && outcome->Ok_0@ == model,
                Err(fault) => outcome == Err::<BBPETokenizer, ModelFault>(fault),
            },
    {
        broadcast use vstd::std_specs::hash::group_hash_axioms;

        let ghost rows = file@.vocab;
        let ghost target = vocab_of(rows);
        let source = string_from_chars(file.pattern.as_slice());
        let base = match TokenizerBase::with_pattern(source) {
            Ok(base) => base,
            Err(_) => {
                return Err(ModelFault::BadPattern);
            },
        };
        if file.vocab.len() > u32::MAX as usize {
            return Err(ModelFault::TooManyEntries);
        }
        let mut vocab: HashMap<u32, Vec<u8>> = HashMap::new();
        let mut i: usize = 0;
        while i < file.vocab.len()
            invariant
                i <= file.vocab@.len(),
                file.vocab@.len() <= u32::MAX,
                rows == file@.vocab,
                pattern_compiles(file@.pattern),
                bad_entry(rows, i as nat) is None,
                forall|id: u32| vocab@.contains_key(id) <==> id < i,
                forall|id: u32| id < i ==> (#[trigger] vocab@[id])@ == entry_token(rows[id as int]),
            decreases file.vocab.len() - i,
        {
            let row = &file.vocab[i];
            let mut token: Vec<u8> = Vec::new();
            let mut good = row.len() >= 1 && row[0] == i as u64;
            let mut k: usize = 1;
            while good && k < row.len()
                invariant
                    1 <= k,
                    good ==> k <= row@.len(),
                    good ==> row@.len() >= 1 && row@[0] == i,
                    good ==> token@.len() == k - 1,
                    good ==> forall|j: int| 1 <= j < k ==> #[trigger] row@[j] <= 255,
                    good ==> forall|j: int| 0 <= j < k - 1 ==> token@[j] == row@[j + 1] as u8,
                    !good ==> !entry_ok(row@, i as int),
                decreases row.len() - k + (if good { 1int } else { 0int }),
            {
                if row[k] > 255 {
                    good = false;
                } else {
                    token.push(row[k] as u8);
                    k += 1;
                }
            }
            if !good {
                proof {
                    assert(rows[i as int] == row@);
                    assert(bad_entry(rows, (i + 1) as nat) == Some(i as int));
                    lemma_bad_entry_stays(rows, (i + 1) as nat, rows.len());
                    assert(pattern_compiles(file@.pattern));
                }
                return Err(ModelFault::BadEntry { index: i });
            }
            proof {
                assert(rows[i as int] == row@);
                assert(entry_ok(row@, i as int));
                assert(token@ =~= entry_token(row@));
            }
            vocab.insert(i as u32, token);
            i += 1;
        }
        proof {
            assert(store_view(vocab@) =~= target);
        }
        if file.vocab.len() < 256 {
            proof {
                assert(!target.contains_key(255u32));
                if has_bytes(target) {
                    assert(target[255u32] == seq![255u8]);
                }
            }
            return Err(ModelFault::MissingBytes);
        }
        let mut byte: u32 = 0;
        assert forall|id: u32| vocab@.contains_key(id) <==> id < rows.len() by {}
        while byte < 256
            invariant
                byte <= 256,
                file.vocab@.len() >= 256,
                rows == file@.vocab,
                store_view(vocab@) == target,
                target == vocab_of(rows),
                bad_entry(rows, rows.len()) is None,
                pattern_compiles(file@.pattern),
                rows.len() <= u32::MAX,
                forall|id: u32| vocab@.contains_key(id) <==> id < rows.len(),
                forall|id: u32| id < byte ==> #[trigger] target[id] == seq![id as u8],
            decreases 256 - byte,
        {
            assert(vocab@.contains_key(byte));
            let single = match vocab.get(&byte) {
                Some(token) => token.len() == 1 && token[0] == byte as u8,
                None => false,
            };
            if !single {
                proof {
                    assert(target[byte] =~= vocab@[byte]@);
                    assert(target[byte] != seq![byte as u8]);
                }
                return Err(ModelFault::MissingBytes);
            }
            proof {
                assert(target[byte] =~= seq![byte as u8]);
            }
            byte += 1;
        }
        let ghost merge_rows = file@.merges;
        let mut merges = MergeTable::new();
        let mut i: usize = 0;
        assert(has_bytes(target)) by {
            assert forall|id: u32| id < 256 implies target.contains_key(id) && #[trigger] target[id]
                == seq![id as u8] by {}
        }
        while i < file.merges.len()
            invariant
                i <= file.merges@.len(),
                merge_rows == file@.merges,
                rows == file@.vocab,
                target == vocab_of(rows),
                bad_entry(rows, rows.len()) is None,
                pattern_compiles(file@.pattern),
                rows.len() <= u32::MAX,
                has_bytes(target),
                store_view(vocab@) == target,
                bad_merge(merge_rows, target, i as nat) is None,
                merges.wf(),
                merges@ == rules_of(merge_rows.take(i as int)),
            decreases file.merges.len() - i,
        {
            let row = &file.merges[i];
            let mut good = false;
            if row.len() == 3 && row[0] <= u32::MAX as u64 && row[1] <= u32::MAX as u64 && row[2]
                <= u32::MAX as u64 {
                let left = row[0] as u32;
                let right = row[1] as u32;
                let new_id = row[2] as u32;
                match (vocab.get(&left), vocab.get(&right), vocab.get(&new_id)) {
                    (Some(first), Some(second), Some(whole)) => {
                        good = crate::vocab_store::is_concat(whole, first, second, &same_byte);
                    },
                    _ => {},
                }
            }
            proof {
                assert(merge_rows[i as int] == row@);
                assert(good == merge_ok(row@, target));
            }
            if !good {
                proof {
                    assert(bad_merge(merge_rows, target, (i + 1) as nat) == Some(i as int));
                    lemma_bad_merge_stays(merge_rows, target, (i + 1) as nat, merge_rows.len());
                }
                return Err(ModelFault::BadMerge { index: i });
            }
            let rule = MergeRule { left: row[0] as u32, right: row[1] as u32, new_id: row[2] as u32 };
            merges.push(rule);
            proof {
                assert(merge_rows.take(i + 1) =~= merge_rows.take(i as int).push(merge_rows[i as int]));
                assert(rules_of(merge_rows.take(i + 1)) =~= rules_of(
                    merge_rows.take(i as int),
                ).push(rule));
            }
            i += 1;
        }
        proof {
            assert(merge_rows.take(file.merges@.len() as int) =~= merge_rows);
        }
        match file.next_token_id {
            Some(id) => {
                if id != file.vocab.len() as u64 {
                    return Err(ModelFault::BadNextId);
                }
            },
            None => {},
        }
        let mut base_chars: Vec<String> = Vec::new();
        let mut i: usize = 0;
        while i < file.base_chars.len()
            invariant
                i <= file.base_chars@.len(),
                base_chars@.len() == i,
                forall|k: int| 0 <= k < i ==> (#[trigger] base_chars@[k])@ == file.base_chars@[k]@,
            decreases file.base_chars.len() - i,
        {
            base_chars.push(string_from_chars(file.base_chars[i].as_slice()));
            i += 1;
        }
        proof {
            assert(chars_view(file.base_chars@) =~= strings_view(base_chars@));
        }
        let tokenizer = BBPETokenizer {
            merges,
            vocab,
            base,
            base_chars,
            next_token_id: file.vocab.len() as u32,
        };
        proof {
            tokenizer.lemma_parts();
            let model = model_of(file@)->Ok_0;
            lemma_no_bad_merge(merge_rows, target, merge_rows.len());
            assert(tokenizer@.base_chars =~= model.base_chars);
            assert(tokenizer@.vocab =~= model.vocab);
            assert(rules_well_formed(tokenizer@.vocab, tokenizer@.rules)) by {
                assert forall|j: int| 0 <= j < tokenizer@.rules.len() implies {
                    &&& tokenizer@.vocab.contains_key((#[trigger] tokenizer@.rules[j]).left)
                    &&& tokenizer@.vocab.contains_key(tokenizer@.rules[j].right)
                    &&& tokenizer@.vocab.contains_key(tokenizer@.rules[j].new_id)
                    &&& tokenizer@.vocab[tokenizer@.rules[j].new_id]
                        == tokenizer@.vocab[tokenizer@.rules[j].left]
                        + tokenizer@.vocab[tokenizer@.rules[j].right]
                } by {
                    assert(merge_ok(merge_rows[j], target));
                }
            }
            assert(tokenizer@ =~= model);
        }
        Ok(tokenizer)
    }

    /// Loads the tokenizer from the text of a model file. Fails, and changes
    /// nothing, where the text holds no model; the message names the line or the
    /// section at fault.
    pub fn load_model(&mut self, text: &str) -> (outcome: Result<(), String>)
        requires
            old(self).wf(),
        ensures
            final(self).wf(),
            match load_outcome(text@) {
                Ok(model) => outcome is Ok && final(self)@ == model,
                Err(error) => {
                    &&& outcome is Err
                    &&& outcome->Err_0@ == load_message(error)
                    &&& final(self)@ == old(self)@
                },
            },
    {
        let chars = chars_of(text);
        let file = match parse_model(&chars) {
            Err(failure) => {
                return Err(failure_text(failure));
            },
            Ok(file) => file,
        };
        let listed = match arrange(&file.vocab) {
            Err(index) => {
                return Err(fault_text(ModelFault::RepeatedEntry { index }));
            },
            Ok(listed) => listed,
        };
        let ghost read = file@;
        let ordered = ModelFile { vocab: listed, ..file };
        proof {
            assert(ordered@ =~= (ModelText { vocab: rows_view(listed@), ..read }));
        }
        match Self::from_model_file(&ordered) {
            Err(fault) => Err(fault_text(fault)),
            Ok(tokenizer) => {
                *self = tokenizer;
                Ok(())
            },
        }
    }
}

/// Loading undoes saving: the text that `save_model` writes for a valid model
/// loads as that model, where neither the pattern nor a base character holds a
/// line feed.
pub proof fn lemma_load_save(m: BbpeModel)
    requires
        model_wf(m),
        pattern_compiles(m.pattern),
        savable(m),
        m.base_chars.len() <= u64::MAX,
        m.rules.len() <= u64::MAX,
    ensures
        load_outcome(render_text(file_of(m))) == Ok::<BbpeModel, LoadError>(m),
{
    let file = file_of(m);
    assert forall|i: int| 0 <= i < file.vocab.len() implies (#[trigger] file.vocab[i]).len()
        >= 1 by {}
    assert forall|i: int| 0 <= i < file.merges.len() implies (#[trigger] file.merges[i]).len()
        >= 1 by {}
    assert(printable(file));
    lemma_parse_render(file);
    assert forall|i: int, j: int| 0 <= i < j < file.vocab.len() implies ids_of(file.vocab)[i]
        < ids_of(file.vocab)[j] by {}
    lemma_arranged_already(file.vocab);
    assert((ModelText { vocab: file.vocab, ..file }) =~= file);
    lemma_model_of_file(m);
}

/// The model file of a valid model holds that model.
pub proof fn lemma_model_of_file(m: BbpeModel)
    requires
        model_wf(m),
        pattern_compiles(m.pattern),
    ensures
        model_of(file_of(m)) == Ok::<BbpeModel, ModelFault>(m),
{
    let file = file_of(m);
    let vocab = vocab_of(file.vocab);
    assert forall|i: int| 0 <= i < file.vocab.len() implies entry_ok(#[trigger] file.vocab[i], i) by {}
    lemma_all_entries_ok(file.vocab, file.vocab.len());
    assert(vocab =~= m.vocab) by {
        assert forall|id: u32| vocab.contains_key(id) implies #[trigger] vocab[id]
            == m.vocab[id] by {
            assert(entry_token(entry_row(id as int, m.vocab[id])) =~= m.vocab[id]);
        }
    }
    assert forall|i: int| 0 <= i < file.merges.len() implies merge_ok(
        #[trigger] file.merges[i],
        vocab,
    ) by {
        let rule = m.rules[i];
        assert(m.vocab.contains_key(rule.left));
    }
    lemma_all_merges_ok(file.merges, vocab, file.merges.len());
    assert(rules_of(file.merges) =~= m.rules);
}

/// Where every row is the entry of its place, no row is bad.
pub proof fn lemma_all_entries_ok(rows: Seq<Seq<u64>>, n: nat)
    requires
        n <= rows.len(),
        forall|i: int| 0 <= i < rows.len() ==> entry_ok(#[trigger] rows[i], i),
    ensures
        bad_entry(rows, n) is None,
    decreases n,
{
    if n > 0 {
        lemma_all_entries_ok(rows, (n - 1) as nat);
    }
}

/// Where every row is a rule of the vocabulary, no row is bad.
pub proof fn lemma_all_merges_ok(rows: Seq<Seq<u64>>, vocab: Map<u32, Seq<u8>>, n: nat)
    requires
        n <= rows.len(),
        forall|i: int| 0 <= i < rows.len() ==> merge_ok(#[trigger] rows[i], vocab),
    ensures
        bad_merge(rows, vocab, n) is None,
    decreases n,
{
    if n > 0 {
        lemma_all_merges_ok(rows, vocab, (n - 1) as nat);
    }
}

} // verus!
