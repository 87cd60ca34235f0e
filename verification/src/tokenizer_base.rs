//! What every tokenizer has: a splitting pattern and a vocabulary of text tokens.

use crate::pattern::{
    describe_failure, pattern_compiles, split_pieces, split_with, strings_view, Pattern,
    GPT4_PATTERN,
};
use crate::vocab_manager::{holds_value, without_value, VocabManager};
use vstd::prelude::*;
use vstd::string::StringExecFns;

verus! {

/// `first` followed by `second`.
pub fn join_text(first: &str, second: &str) -> (text: String)
    ensures
        text@ == first@ + second@,
{
    let mut text = String::from_str(first);
    text.append(second);
    text
}

/// `first`, `second` and `third`, one after the other.
pub fn join_three(first: &str, second: &str, third: &str) -> (text: String)
    ensures
        text@ == first@ + second@ + third@,
{
    let mut text = String::from_str(first);
    text.append(second);
    text.append(third);
    text
}

/// The message for a pattern that does not compile, with what the engine said.
pub open spec fn is_pattern_message(message: Seq<char>) -> bool {
    exists|detail: Seq<char>| message == "invalid regex pattern: "@ + detail
}

/// The message for a token that the vocabulary holds already.
pub open spec fn taken_token_message(token: Seq<char>) -> Seq<char> {
    "token '"@ + token + "' is already in the vocabulary"@
}

/// The message for an id that the vocabulary holds already.
pub open spec fn taken_id_message(id: u32) -> Seq<char> {
    "id "@ + crate::text::decimal(id as nat) + " is already in the vocabulary"@
}

/// Compiles `source`, with the failure as a message.
pub fn compile_pattern(source: String) -> (outcome: Result<Pattern, String>)
    ensures
        outcome is Ok <==> pattern_compiles(source@),
        outcome matches Ok(pattern) ==> pattern@ == source@,
        outcome matches Err(message) ==> is_pattern_message(message@),
{
    match Pattern::compile(source) {
        Ok(pattern) => Ok(pattern),
        Err(failure) => {
            let detail = describe_failure(&failure);
            let message = join_text("invalid regex pattern: ", detail.as_str());
            Err(message)
        },
    }
}

/// The base of a tokenizer: its pattern and a vocabulary of text tokens.
pub struct TokenizerBase<Id> {
    vocab: VocabManager<Id, String>,
    pattern: Pattern,
}

impl TokenizerBase<u32> {
    /// The source of the pattern.
    pub closed spec fn pattern_source(&self) -> Seq<char> {
        self.pattern@
    }

    /// The vocabulary as a map from ids to tokens.
    pub closed spec fn vocab_view(&self) -> Map<u32, Seq<char>> {
        self.vocab@
    }

    /// The invariant: the vocabulary is valid, and the pattern is one that
    /// compiles.
    pub closed spec fn wf(&self) -> bool {
        self.vocab.wf() && pattern_compiles(self.pattern@)
    }

    /// The pattern of a valid base compiles.
    pub proof fn lemma_wf(&self)
        requires
            self.wf(),
        ensures
            pattern_compiles(self.pattern_source()),
    {
    }

    /// The vocabulary.
    pub fn vocab(&self) -> (vocab: &VocabManager<u32, String>)
        requires
            self.wf(),
        ensures
            vocab.wf(),
            vocab@ == self.vocab_view(),
    {
        &self.vocab
    }

    /// Replaces the pattern and the vocabulary.
    pub fn replace(&mut self, pattern: Pattern, vocab: VocabManager<u32, String>)
        requires
            pattern_compiles(pattern@),
            vocab.wf(),
        ensures
            final(self).wf(),
            final(self).pattern_source() == pattern@,
            final(self).vocab_view() == vocab@,
    {
        self.pattern = pattern;
        self.vocab = vocab;
    }

    /// Removes every token from the vocabulary.
    pub fn clear_vocab(&mut self)
        requires
            old(self).wf(),
        ensures
            final(self).wf(),
            final(self).vocab_view() == Map::<u32, Seq<char>>::empty(),
            final(self).pattern_source() == old(self).pattern_source(),
    {
        self.vocab.clear();
    }

    /// A base with the default pattern and an empty vocabulary.
    pub fn new() -> (outcome: Result<Self, String>)
        ensures
            outcome is Ok <==> pattern_compiles(GPT4_PATTERN@),
            outcome matches Ok(base) ==> base.wf() && base.pattern_source() == GPT4_PATTERN@
                && base.vocab_view() == Map::<u32, Seq<char>>::empty(),
            outcome matches Err(message) ==> is_pattern_message(message@),
    {
        Self::with_pattern(String::from_str(GPT4_PATTERN))
    }

    /// A base with the pattern `pattern` and an empty vocabulary.
    pub fn with_pattern(pattern: String) -> (outcome: Result<Self, String>)
        ensures
            outcome is Ok <==> pattern_compiles(pattern@),
            outcome matches Ok(base) ==> base.wf() && base.pattern_source() == pattern@
                && base.vocab_view() == Map::<u32, Seq<char>>::empty(),
            outcome matches Err(message) ==> is_pattern_message(message@),
    {
        match compile_pattern(pattern) {
            Ok(compiled) => Ok(TokenizerBase { vocab: VocabManager::new(), pattern: compiled }),
            Err(message) => Err(message),
        }
    }

    /// The pattern.
    pub fn pattern(&self) -> (pattern: &Pattern)
        ensures
            pattern@ == self.pattern_source(),
    {
        &self.pattern
    }

    /// Replaces the pattern.
    pub fn set_pattern(&mut self, pattern: Pattern)
        requires
            old(self).wf(),
            pattern_compiles(pattern@),
        ensures
            final(self).wf(),
            final(self).pattern_source() == pattern@,
            final(self).vocab_view() == old(self).vocab_view(),
    {
        self.pattern = pattern;
    }

    /// Adds a token under a fresh id. Fails where the vocabulary holds the token
    /// or the id already.
    pub fn add_token(&mut self, token: &str, id: u32) -> (outcome: Result<(), String>)
        requires
            old(self).wf(),
        ensures
            final(self).wf(),
            final(self).pattern_source() == old(self).pattern_source(),
            holds_value(old(self).vocab_view(), token@) ==> {
                &&& outcome is Err
                &&& outcome->Err_0@ == taken_token_message(token@)
                &&& final(self).vocab_view() == old(self).vocab_view()
            },
            !holds_value(old(self).vocab_view(), token@) && old(self).vocab_view().contains_key(id) ==> {
                &&& outcome is Err
                &&& outcome->Err_0@ == taken_id_message(id)
                &&& final(self).vocab_view() == old(self).vocab_view()
            },
            !holds_value(old(self).vocab_view(), token@) && !old(self).vocab_view().contains_key(id) ==> {
                &&& outcome is Ok
                &&& final(self).vocab_view() == old(self).vocab_view().insert(id, token@)
            },
    {
        let owned = String::from_str(token);
        if self.vocab.contains_value(&owned) {
            return Err(join_three("token '", token, "' is already in the vocabulary"));
        }
        if self.vocab.contains_id(&id) {
            let number = crate::text::decimal_string(id as u64);
            return Err(join_three("id ", number.as_str(), " is already in the vocabulary"));
        }
        let ghost before = self.vocab@;
        self.vocab.insert(id, owned);
        proof {
            assert(without_value(before, token@) =~= before) by {
                assert forall|k: u32| before.contains_key(k) implies before[k] != token@ by {
                    if before[k] == token@ {
                        assert(holds_value(before, token@));
                    }
                }
            }
        }
        Ok(())
    }

    /// The id of a token.
    pub fn get_token_id(&self, token: &str) -> (id: Option<&u32>)
        requires
            self.wf(),
        ensures
            id is Some <==> holds_value(self.vocab_view(), token@),
            id matches Some(k) ==> self.vocab_view().contains_key(*k) && self.vocab_view()[*k] == token@,
    {
        let owned = String::from_str(token);
        self.vocab.get_by_value(&owned)
    }

    /// The token of an id.
    pub fn get_token(&self, id: &u32) -> (token: Option<&String>)
        requires
            self.wf(),
        ensures
            token is Some <==> self.vocab_view().contains_key(*id),
            token matches Some(t) ==> t@ == self.vocab_view()[*id],
    {
        self.vocab.get_by_id(id)
    }

    /// The number of tokens in the vocabulary.
    pub fn vocab_size(&self) -> (n: usize)
        requires
            self.wf(),
        ensures
            n == self.vocab_view().dom().len(),
    {
        self.vocab.len()
    }

    /// Cuts `text` into pieces with the pattern: its matches, or, where it matches
    /// nothing in a text that is not empty, the words between whitespace.
    pub fn split_text(&self, text: &str) -> (outcome: Result<Vec<String>, String>)
        requires
            self.wf(),
        ensures
            outcome is Ok,
            strings_view(outcome->Ok_0@) == split_pieces(self.pattern_source(), text@),
    {
        Ok(split_with(&self.pattern, text))
    }
}

} // verus!
