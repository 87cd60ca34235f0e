//! What the tokenizers have in common.

use crate::bbpe::BBPETokenizer;
use crate::bbpe_file::{load_message, unsavable_message};
use crate::bpe::Tokenizer as BpeTokenizer;
use crate::corpus::corpus_fits;
use crate::gather::{all_tokens, corpus_of, IdScheme};
use crate::merges::{greedy_merge, rule_map, spell, MergeTable};
use crate::model_file::render_text;
use crate::pairs::MergeRule;
use crate::pattern::strings_view;
use crate::text::free_of;
use crate::vocab_store::{
    all_known, is_first_unknown, rules_fit, rules_well_formed, same_byte, same_char,
    unknown_id_message,
};
use vstd::prelude::*;
use vstd::string::StringExecFns;
use vstd::utf8::{decode_utf8, valid_utf8};

verus! {

/// What a call returned, as mathematics: the text, or the message.
pub open spec fn text_outcome(outcome: Result<String, String>) -> Result<Seq<char>, Seq<char>> {
    match outcome {
        Ok(text) => Ok(text@),
        Err(message) => Err(message@),
    }
}

/// What a call returned, as mathematics: nothing, or the message.
pub open spec fn done_outcome(outcome: Result<(), String>) -> Result<(), Seq<char>> {
    match outcome {
        Ok(()) => Ok(()),
        Err(message) => Err(message@),
    }
}

/// A tokenizer: it turns texts into ids and ids into texts, and it can be
/// trained and written down. For every operation the tokenizer says, as a
/// relation, what the operation returns and leaves behind; the operation then
/// does just that.
pub trait Tokenizer: Sized {
    /// The ids of the tokenizer.
    type TokenId;

    /// The invariant of the tokenizer.
    spec fn valid(&self) -> bool;

    /// Whether encoding `text` returns `outcome`: the ids, or a message.
    spec fn encodes(&self, text: Seq<char>, outcome: Result<Seq<Self::TokenId>, Seq<char>>) -> bool;

    /// Whether decoding `tokens` returns `outcome`: the text, or a message.
    spec fn decodes(&self, tokens: Seq<Self::TokenId>, outcome: Result<Seq<char>, Seq<char>>) -> bool;

    /// Whether training on `texts` towards `vocab_size` ids returns `outcome`
    /// and leaves the tokenizer as `after`.
    spec fn trains(
        &self,
        texts: Seq<Seq<char>>,
        vocab_size: u32,
        after: Self,
        outcome: Result<(), Seq<char>>,
    ) -> bool;

    /// The number of tokens in the vocabulary.
    spec fn size(&self) -> nat;

    /// Whether saving returns `outcome`: the text of a model file, or a message.
    spec fn saves(&self, outcome: Result<Seq<char>, Seq<char>>) -> bool;

    /// Whether loading `text` returns `outcome` and leaves the tokenizer as
    /// `after`.
    spec fn loads(&self, text: Seq<char>, after: Self, outcome: Result<(), Seq<char>>) -> bool;

    /// The ids of `text`. The empty text has no ids.
    fn encode(&self, text: &str) -> (outcome: Result<Vec<Self::TokenId>, String>)
        requires
            self.valid(),
        ensures
            self.encodes(
                text@,
                match outcome {
                    Ok(ids) => Ok(ids@),
                    Err(message) => Err(message@),
                },
            ),
            text@.len() == 0 ==> outcome is Ok && outcome->Ok_0@.len() == 0,
    ;

    /// The text of `tokens`. No ids give the empty text.
    fn decode(&self, tokens: &[Self::TokenId]) -> (outcome: Result<String, String>)
        requires
            self.valid(),
        ensures
            self.decodes(tokens@, text_outcome(outcome)),
            tokens@.len() == 0 ==> outcome is Ok && outcome->Ok_0@.len() == 0,
    ;

    /// Trains the tokenizer on `texts` towards `vocab_size` ids.
    fn train(&mut self, texts: Vec<String>, vocab_size: u32) -> (outcome: Result<(), String>)
        requires
            old(self).valid(),
        ensures
            final(self).valid(),
            old(self).trains(strings_view(texts@), vocab_size, *final(self), done_outcome(outcome)),
    ;

    /// The number of tokens in the vocabulary.
    fn vocab_size(&self) -> (n: usize)
        requires
            self.valid(),
        ensures
            n == self.size(),
    ;

    /// The tokenizer as the text of a model file.
    fn save(&self) -> (outcome: Result<String, String>)
        requires
            self.valid(),
        ensures
            self.saves(text_outcome(outcome)),
    ;

    /// Loads the tokenizer from the text of a model file. A text that holds no
    /// model changes nothing.
    fn load(&mut self, text: &str) -> (outcome: Result<(), String>)
        requires
            old(self).valid(),
        ensures
            final(self).valid(),
            old(self).loads(text@, *final(self), done_outcome(outcome)),
    ;
}

/// A tokenizer whose model is a list of merge rules.
pub trait MergeBasedTokenizer: Tokenizer<TokenId = u32> {
    /// The merge rules in the order learned.
    spec fn merge_rules(&self) -> Seq<MergeRule>;

    /// Whether the tokenizer takes `merges` as its rules.
    spec fn takes_rules(&self, merges: Seq<MergeRule>) -> bool;

    /// Applies the merge rules to `tokens`: passes from the left, without
    /// overlapping merges in one pass, until a pass merges nothing.
    fn apply_merges(&mut self, tokens: &mut Vec<u32>) -> (outcome: Result<(), String>)
        requires
            old(self).valid(),
        ensures
            final(self).valid(),
            final(self).merge_rules() == old(self).merge_rules(),
            outcome is Ok,
            final(tokens)@ == greedy_merge(old(tokens)@, rule_map(old(self).merge_rules())),
    ;

    /// The merge rules in the order learned.
    fn get_merges(&self) -> (rules: &Vec<MergeRule>)
        requires
            self.valid(),
        ensures
            rules@ == self.merge_rules(),
    ;

    /// Replaces the merge rules. Rules that do not fit the vocabulary are
    /// refused, and nothing changes.
    fn set_merges(&mut self, merges: Vec<MergeRule>) -> (outcome: Result<(), String>)
        requires
            old(self).valid(),
        ensures
            final(self).valid(),
            outcome is Ok <==> old(self).takes_rules(merges@),
            outcome is Ok ==> final(self).merge_rules() == merges@,
            outcome is Err ==> final(self).merge_rules() == old(self).merge_rules(),
    ;
}

/// The message for rules that do not fit the vocabulary.
pub open spec fn unfit_rules_message() -> Seq<char> {
    "the rules do not fit the vocabulary"@
}

/// A table of the rules.
pub fn table_of(rules: &Vec<MergeRule>) -> (table: MergeTable)
    ensures
        table.wf(),
        table@ == rules@,
{
    let mut table = MergeTable::new();
    let mut i: usize = 0;
    while i < rules.len()
        invariant
            i <= rules@.len(),
            table.wf(),
            table@ == rules@.take(i as int),
        decreases rules.len() - i,
    {
        table.push(rules[i]);
        assert(rules@.take(i + 1) =~= rules@.take(i as int).push(rules@[i as int]));
        i += 1;
    }
    assert(rules@.take(rules@.len() as int) =~= rules@);
    table
}

impl BBPETokenizer {
    /// Replaces the merge rules. Fails, and changes nothing, where a rule does
    /// not join two ids of the vocabulary into a third whose token is the tokens
    /// of the two in a row.
    pub fn set_merges(&mut self, merges: Vec<MergeRule>) -> (outcome: Result<(), String>)
        requires
            old(self).wf(),
        ensures
            final(self).wf(),
            rules_well_formed(old(self)@.vocab, merges@) ==> outcome is Ok && final(self)@ == (
            crate::bbpe::BbpeModel { rules: merges@, ..old(self)@ }),
            !rules_well_formed(old(self)@.vocab, merges@) ==> outcome is Err && outcome->Err_0@
                == unfit_rules_message() && final(self)@ == old(self)@,
    {
        proof {
            self.lemma_parts();
        }
        if !rules_fit(&self.vocab, &merges, same_byte) {
            return Err(String::from_str("the rules do not fit the vocabulary"));
        }
        let ghost before = *self;
        self.merges = table_of(&merges);
        proof {
            self.lemma_parts();
            before.lemma_parts();
        }
        Ok(())
    }
}

impl BpeTokenizer {
    /// Replaces the merge rules. Fails, and changes nothing, where a rule does
    /// not join two ids of the vocabulary into a third whose token is the tokens
    /// of the two in a row.
    pub fn set_merges(&mut self, merges: Vec<MergeRule>) -> (outcome: Result<(), String>)
        requires
            old(self).wf(),
        ensures
            final(self).wf(),
            rules_well_formed(old(self)@.vocab, merges@) ==> outcome is Ok && final(self)@ == (
            crate::bpe::BpeModel { rules: merges@, ..old(self)@ }),
            !rules_well_formed(old(self)@.vocab, merges@) ==> outcome is Err && outcome->Err_0@
                == unfit_rules_message() && final(self)@ == old(self)@,
    {
        proof {
            self.lemma_parts();
        }
        if !rules_fit(&self.vocab, &merges, same_char) {
            return Err(String::from_str("the rules do not fit the vocabulary"));
        }
        let ghost before = *self;
        self.merges = table_of(&merges);
        proof {
            self.lemma_parts();
            before.lemma_parts();
        }
        Ok(())
    }
}

impl Tokenizer for BBPETokenizer {
    type TokenId = u32;

    open spec fn valid(&self) -> bool {
        self.wf()
    }

    open spec fn encodes(&self, text: Seq<char>, outcome: Result<Seq<u32>, Seq<char>>) -> bool {
        outcome == Ok::<Seq<u32>, Seq<char>>(crate::bbpe::encode_text(self@, text))
    }

    open spec fn decodes(&self, tokens: Seq<u32>, outcome: Result<Seq<char>, Seq<char>>) -> bool {
        let bytes = spell(self@.vocab, tokens);
        if !all_known(self@.vocab, tokens) {
            exists|i: int|
                is_first_unknown(self@.vocab, tokens, i) && outcome == Err::<Seq<char>, Seq<char>>(
                    unknown_id_message(tokens[i]),
                )
        } else if valid_utf8(bytes) {
            outcome == Ok::<Seq<char>, Seq<char>>(decode_utf8(bytes))
        } else {
            outcome == Err::<Seq<char>, Seq<char>>(crate::bbpe::invalid_utf8_message(bytes))
        }
    }

    open spec fn trains(
        &self,
        texts: Seq<Seq<char>>,
        vocab_size: u32,
        after: Self,
        outcome: Result<(), Seq<char>>,
    ) -> bool {
        if vocab_size < 256 {
            outcome == Err::<(), Seq<char>>(crate::bbpe::too_small_message()) && after@ == self@
        } else if vocab_size < self@.next_id {
            outcome == Err::<(), Seq<char>>(crate::bbpe::below_present_message()) && after@
                == self@
        } else if !corpus_fits(corpus_of(IdScheme::Bytes, all_tokens(self@.pattern, texts))) {
            outcome == Err::<(), Seq<char>>(crate::bbpe::too_large_message()) && after@ == self@
        } else {
            outcome is Ok && after@ == crate::bbpe::trained(self@, texts, vocab_size)
        }
    }

    open spec fn size(&self) -> nat {
        self@.next_id as nat
    }

    open spec fn saves(&self, outcome: Result<Seq<char>, Seq<char>>) -> bool {
        if crate::bbpe_file::savable(self@) {
            outcome == Ok::<Seq<char>, Seq<char>>(render_text(crate::bbpe_file::file_of(self@)))
        } else {
            outcome == Err::<Seq<char>, Seq<char>>(unsavable_message())
        }
    }

    open spec fn loads(&self, text: Seq<char>, after: Self, outcome: Result<(), Seq<char>>) -> bool {
        match crate::bbpe_file::load_outcome(text) {
            Ok(model) => outcome is Ok && after@ == model,
            Err(error) => outcome == Err::<(), Seq<char>>(load_message(error)) && after@ == self@,
        }
    }

    fn encode(&self, text: &str) -> (outcome: Result<Vec<u32>, String>) {
        BBPETokenizer::encode(self, text)
    }

    fn decode(&self, tokens: &[u32]) -> (outcome: Result<String, String>) {
        BBPETokenizer::decode(self, tokens)
    }

    fn train(&mut self, texts: Vec<String>, vocab_size: u32) -> (outcome: Result<(), String>) {
        BBPETokenizer::train(self, texts, vocab_size)
    }

    fn vocab_size(&self) -> (n: usize) {
        BBPETokenizer::vocab_size(self)
    }

    fn save(&self) -> (outcome: Result<String, String>) {
        self.save_model()
    }

    fn load(&mut self, text: &str) -> (outcome: Result<(), String>) {
        self.load_model(text)
    }
}

impl MergeBasedTokenizer for BBPETokenizer {
    open spec fn merge_rules(&self) -> Seq<MergeRule> {
        self@.rules
    }

    open spec fn takes_rules(&self, merges: Seq<MergeRule>) -> bool {
        rules_well_formed(self@.vocab, merges)
    }

    fn apply_merges(&mut self, tokens: &mut Vec<u32>) -> (outcome: Result<(), String>) {
        BBPETokenizer::apply_merges(self, tokens);
        Ok(())
    }

    fn get_merges(&self) -> (rules: &Vec<MergeRule>) {
        BBPETokenizer::get_merges(self)
    }

    fn set_merges(&mut self, merges: Vec<MergeRule>) -> (outcome: Result<(), String>) {
        BBPETokenizer::set_merges(self, merges)
    }
}

impl Tokenizer for BpeTokenizer {
    type TokenId = u32;

    open spec fn valid(&self) -> bool {
        self.wf()
    }

    open spec fn encodes(&self, text: Seq<char>, outcome: Result<Seq<u32>, Seq<char>>) -> bool {
        if crate::bpe::encode_fails(self@, text) {
            outcome == Err::<Seq<u32>, Seq<char>>(crate::bpe::match_failed_message())
        } else {
            outcome == Ok::<Seq<u32>, Seq<char>>(crate::bpe::encode_text(self@, text))
        }
    }

    open spec fn decodes(&self, tokens: Seq<u32>, outcome: Result<Seq<char>, Seq<char>>) -> bool {
        if !all_known(self@.vocab, tokens) {
            exists|i: int|
                is_first_unknown(self@.vocab, tokens, i) && outcome == Err::<Seq<char>, Seq<char>>(
                    unknown_id_message(tokens[i]),
                )
        } else {
            outcome == Ok::<Seq<char>, Seq<char>>(spell(self@.vocab, tokens))
        }
    }

    open spec fn trains(
        &self,
        texts: Seq<Seq<char>>,
        vocab_size: u32,
        after: Self,
        outcome: Result<(), Seq<char>>,
    ) -> bool {
        if !corpus_fits(corpus_of(IdScheme::Scalars, all_tokens(self@.pattern, texts))) {
            outcome == Err::<(), Seq<char>>(crate::bpe::too_large_message()) && after@ == self@
        } else {
            outcome is Ok && after@ == crate::bpe::trained(self@, texts, vocab_size)
        }
    }

    open spec fn size(&self) -> nat {
        self@.vocab.dom().len()
    }

    open spec fn saves(&self, outcome: Result<Seq<char>, Seq<char>>) -> bool {
        if free_of(self@.pattern, '\n') {
            exists|ids: Seq<u32>|
                crate::bpe_file::lists_ids(ids, self@.vocab) && outcome == Ok::<
                    Seq<char>,
                    Seq<char>,
                >(render_text(#[trigger] crate::bpe_file::file_of(self@, ids)))
        } else {
            outcome == Err::<Seq<char>, Seq<char>>(unsavable_message())
        }
    }

    open spec fn loads(&self, text: Seq<char>, after: Self, outcome: Result<(), Seq<char>>) -> bool {
        match crate::bpe_file::load_outcome(text) {
            Ok(model) => outcome is Ok && after@ == model,
            Err(error) => outcome == Err::<(), Seq<char>>(load_message(error)) && after@ == self@,
        }
    }

    fn encode(&self, text: &str) -> (outcome: Result<Vec<u32>, String>) {
        BpeTokenizer::encode(self, text)
    }

    fn decode(&self, tokens: &[u32]) -> (outcome: Result<String, String>) {
        BpeTokenizer::decode(self, tokens)
    }

    fn train(&mut self, texts: Vec<String>, vocab_size: u32) -> (outcome: Result<(), String>) {
        BpeTokenizer::train(self, texts, vocab_size)
    }

    fn vocab_size(&self) -> (n: usize) {
        BpeTokenizer::vocab_size(self)
    }

    fn save(&self) -> (outcome: Result<String, String>) {
        self.save_model()
    }

    fn load(&mut self, text: &str) -> (outcome: Result<(), String>) {
        self.load_model(text)
    }
}

impl MergeBasedTokenizer for BpeTokenizer {
    open spec fn merge_rules(&self) -> Seq<MergeRule> {
        self@.rules
    }

    open spec fn takes_rules(&self, merges: Seq<MergeRule>) -> bool {
        rules_well_formed(self@.vocab, merges)
    }

    fn apply_merges(&mut self, tokens: &mut Vec<u32>) -> (outcome: Result<(), String>) {
        BpeTokenizer::apply_merges(self, tokens);
        Ok(())
    }

    fn get_merges(&self) -> (rules: &Vec<MergeRule>) {
        BpeTokenizer::get_merges(self)
    }

    fn set_merges(&mut self, merges: Vec<MergeRule>) -> (outcome: Result<(), String>) {
        BpeTokenizer::set_merges(self, merges)
    }
}

} // verus!
