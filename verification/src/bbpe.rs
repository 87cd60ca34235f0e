//! The byte-level tokenizer: ids 0 to 255 stand for the bytes, every further id
//! for the bytes of the two ids that a merge rule joined.

use crate::corpus::corpus_fits;
use crate::corpus_size::{lemma_small_corpus_fits, texts_len};
use crate::gather::{
    all_tokens, corpus_of, initial_ids, initial_ids_of, lemma_corpus_of, weights_of, Gatherer,
    IdScheme,
};
use crate::learner::{words_view, MergeLearner, MAX_CORPUS_IDS};
use crate::learner_model::{
    initial_model, learn, lemma_ids_below, lemma_initial_ids_ok, total_len, word_below, word_ok,
};
use crate::merges::{greedy_merge, ranks_of, rule_map, spell, MergeTable};
use crate::pairs::{MergeRule, Pair};
use crate::pattern::{pattern_compiles, pre_tokenize, pre_tokens, strings_view, GPT4_PATTERN};
use crate::text::{chars_of, decimal, decimal_chars, string_from_chars, string_from_utf8};
use crate::tokenizer_base::{is_pattern_message, TokenizerBase};
use crate::vocab_manager::VocabItem;
use crate::vocab_store::{
    all_known, grow_vocab, grow_with_rules, is_first_unknown, rules_well_formed, spell_tokens,
    store_view, unknown_id_message, unknown_id_text,
};
use crate::word::Word;
use std::collections::HashMap;
use vstd::prelude::*;
use vstd::string::StringExecFns;
use vstd::utf8::{decode_utf8, encode_utf8, valid_utf8};

verus! {

/// A byte-level model as mathematics.
#[verifier::ext_equal]
pub struct BbpeModel {
    /// The source of the splitting pattern.
    pub pattern: Seq<char>,
    /// The token of every id.
    pub vocab: Map<u32, Seq<u8>>,
    /// The merge rules in the order learned.
    pub rules: Seq<MergeRule>,
    /// The base characters.
    pub base_chars: Seq<Seq<char>>,
    /// The next free id.
    pub next_id: u32,
}

/// The ids of a pre-token before any merge: those of its bytes in UTF-8.
pub open spec fn token_ids(token: Seq<char>) -> Seq<u32> {
    initial_ids(IdScheme::Bytes, token)
}

/// The ids of the pre-tokens, each merged greedily, one after the other.
pub open spec fn encode_tokens(tokens: Seq<Seq<char>>, table: Map<Pair, u32>) -> Seq<u32>
    decreases tokens.len(),
{
    if tokens.len() == 0 {
        seq![]
    } else {
        encode_tokens(tokens.drop_last(), table) + greedy_merge(token_ids(tokens.last()), table)
    }
}

/// The ids that the model writes for `text`.
pub open spec fn encode_text(m: BbpeModel, text: Seq<char>) -> Seq<u32> {
    encode_tokens(pre_tokens(m.pattern, text), rule_map(m.rules))
}

/// The bytes as text: every byte in decimal digits, with a space before it.
pub open spec fn bytes_text(bytes: Seq<u8>) -> Seq<char>
    decreases bytes.len(),
{
    if bytes.len() == 0 {
        seq![]
    } else {
        bytes_text(bytes.drop_last()) + seq![' '] + decimal(bytes.last() as nat)
    }
}

/// The message for bytes that are no text: it gives the bytes back.
pub open spec fn invalid_utf8_message(bytes: Seq<u8>) -> Seq<char> {
    "the decoded bytes are not valid UTF-8:"@ + bytes_text(bytes)
}

/// The message for bytes that are no text.
pub fn invalid_utf8_text(bytes: &Vec<u8>) -> (message: String)
    ensures
        message@ == invalid_utf8_message(bytes@),
{
    let mut chars = chars_of("the decoded bytes are not valid UTF-8:");
    let ghost head = chars@;
    let mut i: usize = 0;
    assert(bytes@.take(0) =~= Seq::<u8>::empty());
    while i < bytes.len()
        invariant
            i <= bytes@.len(),
            chars@ == head + bytes_text(bytes@.take(i as int)),
        decreases bytes.len() - i,
    {
        let digits = decimal_chars(bytes[i] as u64);
        proof {
            assert(bytes@.take(i + 1).drop_last() =~= bytes@.take(i as int));
            assert(bytes@.take(i + 1).last() == bytes@[i as int]);
            assert(head + bytes_text(bytes@.take(i as int)) + seq![' '] + digits@ =~= head + (
            bytes_text(bytes@.take(i as int)) + seq![' '] + digits@));
        }
        chars.push(' ');
        crate::vocab_store::append_items(&mut chars, &digits);
        i += 1;
    }
    assert(bytes@.take(bytes@.len() as int) =~= bytes@);
    string_from_chars(chars.as_slice())
}

/// The message for a target size below the present size of the vocabulary.
pub open spec fn below_present_message() -> Seq<char> {
    "vocabulary size is below the present size of the vocabulary"@
}

/// The message for a target size below the 256 byte tokens.
pub open spec fn too_small_message() -> Seq<char> {
    "vocabulary size must be at least 256"@
}

/// The message for a corpus that the learner cannot take.
pub open spec fn too_large_message() -> Seq<char> {
    "the corpus is too large for training"@
}

/// What holds of every model: the ids are the numbers below the next free id,
/// the first 256 of them stand for the bytes, and the rules are well-formed.
pub open spec fn model_wf(m: BbpeModel) -> bool {
    &&& m.next_id >= 256
    &&& forall|id: u32| m.vocab.contains_key(id) <==> id < m.next_id
    &&& forall|id: u32| id < 256 ==> #[trigger] m.vocab[id] == seq![id as u8]
    &&& rules_well_formed(m.vocab, m.rules)
}

/// The number of rules that training to `vocab_size` tokens asks for.
pub open spec fn merge_budget(m: BbpeModel, vocab_size: u32) -> nat {
    if vocab_size > m.next_id {
        (vocab_size - m.next_id) as nat
    } else {
        0
    }
}

/// The rules that training on `texts` to `vocab_size` tokens learns.
pub open spec fn learned_rules(m: BbpeModel, texts: Seq<Seq<char>>, vocab_size: u32) -> Seq<
    MergeRule,
> {
    let corpus = corpus_of(IdScheme::Bytes, all_tokens(m.pattern, texts));
    learn(
        initial_model(corpus.words, weights_of(corpus.counts), m.next_id),
        merge_budget(m, vocab_size),
    )
}

/// The model after training on `texts` to `vocab_size` tokens: the rules are those
/// learned, and every rule has added its token under the next free id.
pub open spec fn trained(m: BbpeModel, texts: Seq<Seq<char>>, vocab_size: u32) -> BbpeModel {
    let rules = learned_rules(m, texts, vocab_size);
    BbpeModel {
        rules,
        vocab: grow_vocab(m.vocab, rules),
        next_id: (m.next_id + rules.len()) as u32,
        ..m
    }
}

/// The vocabulary with the 256 byte tokens and, behind them, the base characters
/// of more than one byte.
pub open spec fn seeded_vocab(base_chars: Seq<Seq<char>>) -> Seq<Seq<u8>>
    decreases base_chars.len(),
{
    if base_chars.len() == 0 {
        Seq::new(256, |i: int| seq![i as u8])
    } else {
        let prior = seeded_vocab(base_chars.drop_last());
        let bytes = encode_utf8(base_chars.last());
        if bytes.len() >= 2 && prior.len() < u32::MAX {
            prior.push(bytes)
        } else {
            prior
        }
    }
}

/// A list of tokens as a vocabulary: the id of a token is its place.
pub open spec fn listed_vocab(tokens: Seq<Seq<u8>>) -> Map<u32, Seq<u8>> {
    Map::new(|id: u32| id < tokens.len(), |id: u32| tokens[id as int])
}

/// The byte-level tokenizer.
pub struct BBPETokenizer {
    pub(crate) merges: MergeTable,
    pub(crate) vocab: HashMap<u32, Vec<u8>>,
    pub(crate) base: TokenizerBase<u32>,
    pub(crate) base_chars: Vec<String>,
    pub(crate) next_token_id: u32,
}

impl View for BBPETokenizer {
    type V = BbpeModel;

    closed spec fn view(&self) -> BbpeModel {
        BbpeModel {
            pattern: self.base.pattern_source(),
            vocab: store_view(self.vocab@),
            rules: self.merges@,
            base_chars: strings_view(self.base_chars@),
            next_id: self.next_token_id,
        }
    }
}

impl BBPETokenizer {
    /// The invariant of the tokenizer.
    pub closed spec fn wf(&self) -> bool {
        &&& self.merges.wf()
        &&& self.base.wf()
        &&& model_wf(self@)
    }

    /// A valid tokenizer has a valid model: in particular, every rule joins two
    /// ids of the vocabulary into a third whose token is the tokens of the two.
    pub proof fn lemma_wf(&self)
        requires
            self.wf(),
        ensures
            model_wf(self@),
    {
    }

    /// What the view and the invariant are made of.
    pub(crate) proof fn lemma_parts(&self)
        ensures
            self@ == (BbpeModel {
                pattern: self.base.pattern_source(),
                vocab: store_view(self.vocab@),
                rules: self.merges@,
                base_chars: strings_view(self.base_chars@),
                next_id: self.next_token_id,
            }),
            self.wf() == (self.merges.wf() && self.base.wf() && model_wf(self@)),
    {
    }

    /// Sets the vocabulary to the 256 byte tokens followed by the base characters
    /// of more than one byte, and forgets the merge rules.
    pub fn init_vocab(&mut self)
        requires
            old(self).wf(),
        ensures
            final(self).wf(),
            final(self)@.pattern == old(self)@.pattern,
            final(self)@.base_chars == old(self)@.base_chars,
            final(self)@.rules == Seq::<MergeRule>::empty(),
            final(self)@.vocab == listed_vocab(seeded_vocab(old(self)@.base_chars)),
            final(self)@.next_id == seeded_vocab(old(self)@.base_chars).len(),
    {
        self.seed();
    }

    fn seed(&mut self)
        requires
            old(self).base.wf(),
        ensures
            final(self).wf(),
            final(self)@.pattern == old(self)@.pattern,
            final(self)@.base_chars == old(self)@.base_chars,
            final(self)@.rules == Seq::<MergeRule>::empty(),
            final(self)@.vocab == listed_vocab(seeded_vocab(old(self)@.base_chars)),
            final(self)@.next_id == seeded_vocab(old(self)@.base_chars).len(),
    {
        broadcast use vstd::std_specs::hash::group_hash_axioms;

        self.merges.clear();
        self.vocab.clear();
        let ghost chars = strings_view(self.base_chars@);
        let mut byte: u32 = 0;
        while byte < 256
            invariant
                byte <= 256,
                self.base == old(self).base,
                self.base_chars == old(self).base_chars,
                self.merges.wf(),
                self.merges@ == Seq::<MergeRule>::empty(),
                forall|id: u32| self.vocab@.contains_key(id) <==> id < byte,
                forall|id: u32| id < byte ==> (#[trigger] self.vocab@[id])@ == seq![id as u8],
            decreases 256 - byte,
        {
            let mut token: Vec<u8> = Vec::new();
            token.push(byte as u8);
            self.vocab.insert(byte, token);
            byte += 1;
        }
        let ghost bytes_only = Seq::new(256, |i: int| seq![i as u8]);
        let mut next: u32 = 256;
        let mut i: usize = 0;
        proof {
            assert(chars.take(0) =~= Seq::<Seq<char>>::empty());
            assert(seeded_vocab(chars.take(0)) =~= bytes_only);
        }
        while i < self.base_chars.len()
            invariant
                i <= self.base_chars@.len(),
                chars == strings_view(self.base_chars@),
                self.base == old(self).base,
                self.base_chars == old(self).base_chars,
                self.merges.wf(),
                self.merges@ == Seq::<MergeRule>::empty(),
                next >= 256,
                next == seeded_vocab(chars.take(i as int)).len(),
                forall|id: u32| self.vocab@.contains_key(id) <==> id < next,
                forall|id: u32|
                    id < next ==> (#[trigger] self.vocab@[id])@ == seeded_vocab(
                        chars.take(i as int),
                    )[id as int],
                forall|id: u32| id < 256 ==> (#[trigger] self.vocab@[id])@ == seq![id as u8],
            decreases self.base_chars.len() - i,
        {
            let bytes = self.base_chars[i].as_str().as_bytes();
            proof {
                assert(chars.take(i + 1).drop_last() =~= chars.take(i as int));
                assert(chars.take(i + 1).last() == chars[i as int]);
                assert(bytes@ == encode_utf8(chars[i as int]));
            }
            if bytes.len() >= 2 && next < u32::MAX {
                let token = vstd::slice::slice_to_vec(bytes);
                self.vocab.insert(next, token);
                next += 1;
            }
            i += 1;
        }
        self.next_token_id = next;
        proof {
            assert(chars.take(self.base_chars@.len() as int) =~= chars);
            assert(self@.vocab =~= listed_vocab(seeded_vocab(chars)));
        }
    }

    /// A tokenizer with the default pattern, the 256 byte tokens and no rules.
    pub fn new_internal() -> (outcome: Result<Self, String>)
        ensures
            outcome is Ok <==> pattern_compiles(GPT4_PATTERN@),
            outcome matches Ok(tokenizer) ==> {
                &&& tokenizer.wf()
                &&& tokenizer@.pattern == GPT4_PATTERN@
                &&& tokenizer@.rules == Seq::<MergeRule>::empty()
                &&& tokenizer@.base_chars == Seq::<Seq<char>>::empty()
                &&& tokenizer@.next_id == 256
                &&& tokenizer@.vocab == listed_vocab(seeded_vocab(seq![]))
            },
            outcome matches Err(message) ==> is_pattern_message(message@),
    {
        Self::with_pattern_internal(String::from_str(GPT4_PATTERN))
    }

    /// A tokenizer with the pattern `pattern`, the 256 byte tokens and no rules.
    pub fn with_pattern_internal(pattern: String) -> (outcome: Result<Self, String>)
        ensures
            outcome is Ok <==> pattern_compiles(pattern@),
            outcome matches Ok(tokenizer) ==> {
                &&& tokenizer.wf()
                &&& tokenizer@.pattern == pattern@
                &&& tokenizer@.rules == Seq::<MergeRule>::empty()
                &&& tokenizer@.base_chars == Seq::<Seq<char>>::empty()
                &&& tokenizer@.next_id == 256
                &&& tokenizer@.vocab == listed_vocab(seeded_vocab(seq![]))
            },
            outcome matches Err(message) ==> is_pattern_message(message@),
    {
        match TokenizerBase::with_pattern(pattern) {
            Ok(base) => {
                let mut tokenizer = BBPETokenizer {
                    merges: MergeTable::new(),
                    vocab: HashMap::new(),
                    base,
                    base_chars: Vec::new(),
                    next_token_id: 0,
                };
                tokenizer.seed();
                assert(tokenizer@.base_chars =~= Seq::<Seq<char>>::empty());
                Ok(tokenizer)
            },
            Err(message) => Err(message),
        }
    }

    /// A tokenizer with the default pattern, the 256 byte tokens and no rules.
    pub fn new() -> (outcome: Result<Self, String>)
        ensures
            outcome is Ok <==> pattern_compiles(GPT4_PATTERN@),
            outcome matches Ok(tokenizer) ==> {
                &&& tokenizer.wf()
                &&& tokenizer@.pattern == GPT4_PATTERN@
                &&& tokenizer@.rules == Seq::<MergeRule>::empty()
                &&& tokenizer@.base_chars == Seq::<Seq<char>>::empty()
                &&& tokenizer@.next_id == 256
                &&& tokenizer@.vocab == listed_vocab(seeded_vocab(seq![]))
            },
            outcome matches Err(message) ==> is_pattern_message(message@),
    {
        Self::new_internal()
    }

    /// A tokenizer with the pattern `pattern`, the 256 byte tokens and no rules.
    pub fn with_pattern(pattern: String) -> (outcome: Result<Self, String>)
        ensures
            outcome is Ok <==> pattern_compiles(pattern@),
            outcome matches Ok(tokenizer) ==> {
                &&& tokenizer.wf()
                &&& tokenizer@.pattern == pattern@
                &&& tokenizer@.rules == Seq::<MergeRule>::empty()
                &&& tokenizer@.base_chars == Seq::<Seq<char>>::empty()
                &&& tokenizer@.next_id == 256
                &&& tokenizer@.vocab == listed_vocab(seeded_vocab(seq![]))
            },
            outcome matches Err(message) ==> is_pattern_message(message@),
    {
        Self::with_pattern_internal(pattern)
    }

    /// Applies the merge rules to `ids`: passes from the left, without overlapping
    /// merges in one pass, until a pass merges nothing.
    pub fn apply_merges(&self, ids: &mut Vec<u32>)
        requires
            self.wf(),
        ensures
            final(ids)@ == greedy_merge(old(ids)@, rule_map(self@.rules)),
    {
        self.merges.apply(ids);
    }

    /// The ids of `text`: the text is cut into pre-tokens, every pre-token becomes
    /// the ids of its bytes, and the merge rules are applied to each.
    pub fn encode(&self, text: &str) -> (outcome: Result<Vec<u32>, String>)
        requires
            self.wf(),
        ensures
            outcome is Ok,
            outcome->Ok_0@ == encode_text(self@, text@),
            text@.len() == 0 ==> outcome->Ok_0@.len() == 0,
    {
        let tokens = pre_tokenize(self.base.pattern(), text);
        let ghost all = strings_view(tokens@);
        let ghost table = rule_map(self@.rules);
        let mut out: Vec<u32> = Vec::new();
        let mut i: usize = 0;
        assert(all.take(0) =~= Seq::<Seq<char>>::empty());
        while i < tokens.len()
            invariant
                i <= tokens@.len(),
                self.wf(),
                all == strings_view(tokens@),
                table == rule_map(self@.rules),
                out@ == encode_tokens(all.take(i as int), table),
            decreases tokens.len() - i,
        {
            let mut ids = initial_ids_of(IdScheme::Bytes, tokens[i].as_str());
            self.merges.apply(&mut ids);
            proof {
                assert(all.take(i + 1).drop_last() =~= all.take(i as int));
                assert(all.take(i + 1).last() == tokens@[i as int]@);
            }
            out.append(&mut ids);
            i += 1;
        }
        assert(all.take(tokens@.len() as int) =~= all);
        Ok(out)
    }

    /// The bytes of `tokens`: the tokens of the ids, one after the other. Fails at
    /// the first id without a token, with a message that names the id.
    pub fn decode_bytes(&self, tokens: &[u32]) -> (outcome: Result<Vec<u8>, String>)
        requires
            self.wf(),
        ensures
            all_known(self@.vocab, tokens@) ==> outcome is Ok && outcome->Ok_0@ == spell(
                self@.vocab,
                tokens@,
            ),
            !all_known(self@.vocab, tokens@) ==> outcome is Err && exists|i: int|
                is_first_unknown(self@.vocab, tokens@, i) && outcome->Err_0@ == unknown_id_message(
                    tokens@[i],
                ),
    {
        match spell_tokens(&self.vocab, tokens) {
            Ok(bytes) => Ok(bytes),
            Err(id) => Err(unknown_id_text(id)),
        }
    }

    /// The text of `tokens`. Fails at the first id without a token, with a message
    /// that names the id, and where the bytes of the tokens are no valid UTF-8,
    /// with a message that gives the bytes back.
    pub fn decode(&self, tokens: &[u32]) -> (outcome: Result<String, String>)
        requires
            self.wf(),
        ensures
            !all_known(self@.vocab, tokens@) ==> outcome is Err && exists|i: int|
                is_first_unknown(self@.vocab, tokens@, i) && outcome->Err_0@ == unknown_id_message(
                    tokens@[i],
                ),
            all_known(self@.vocab, tokens@) && valid_utf8(spell(self@.vocab, tokens@))
                ==> outcome is Ok && outcome->Ok_0@ == decode_utf8(spell(self@.vocab, tokens@)),
            all_known(self@.vocab, tokens@) && !valid_utf8(spell(self@.vocab, tokens@))
                ==> outcome is Err && outcome->Err_0@ == invalid_utf8_message(
                spell(self@.vocab, tokens@),
            ),
            tokens@.len() == 0 ==> outcome is Ok && outcome->Ok_0@.len() == 0,
    {
        proof {
            if tokens@.len() == 0 {
                assert(valid_utf8(spell(self@.vocab, tokens@)));
                assert(decode_utf8(spell(self@.vocab, tokens@)) =~= Seq::<char>::empty());
            }
        }
        match self.decode_bytes(tokens) {
            Ok(bytes) => {
                let kept = bytes.duplicate();
                match string_from_utf8(bytes) {
                    Some(text) => Ok(text),
                    None => Err(invalid_utf8_text(&kept)),
                }
            },
            Err(message) => Err(message),
        }
    }

    /// The number of tokens in the vocabulary.
    pub fn vocab_size(&self) -> (n: usize)
        requires
            self.wf(),
        ensures
            n == self@.next_id,
            n == self@.vocab.dom().len(),
    {
        broadcast use vstd::std_specs::hash::group_hash_axioms;

        proof {
            lemma_dense_len(self@.vocab, self.next_token_id);
            assert forall|id: u32| self.vocab@.contains_key(id) <==> id < self.next_token_id by {
                assert(self@.vocab.contains_key(id) <==> self.vocab@.contains_key(id));
            }
            lemma_dense_len_table(self.vocab@, self.next_token_id);
        }
        self.vocab.len()
    }

    /// The source of the pattern.
    pub fn get_pattern(&self) -> (pattern: String)
        ensures
            pattern@ == self@.pattern,
    {
        self.base.pattern().source().clone()
    }

    /// The merge rules in the order learned.
    pub fn get_merges(&self) -> (rules: &Vec<MergeRule>)
        ensures
            rules@ == self@.rules,
    {
        self.merges.rules()
    }

    /// The merge rules as pairs with their ranks, in the order learned. The rank
    /// of a pair is the id that its rule writes.
    pub fn get_mergeable_ranks(&self) -> (ranks: Vec<(Pair, u32)>)
        ensures
            ranks@ == ranks_of(self@.rules),
    {
        self.merges.ranks()
    }

    /// The ids with their tokens, in the order of the ids.
    pub fn get_vocab(&self) -> (listing: Vec<(u32, Vec<u8>)>)
        requires
            self.wf(),
        ensures
            listing@.len() == self@.next_id,
            forall|i: int|
                0 <= i < listing@.len() ==> (#[trigger] listing@[i]).0 == i && listing@[i].1@
                    == self@.vocab[i as u32],
    {
        broadcast use vstd::std_specs::hash::group_hash_axioms;

        proof {
            self.lemma_parts();
        }
        let mut listing: Vec<(u32, Vec<u8>)> = Vec::new();
        let mut id: u32 = 0;
        while id < self.next_token_id
            invariant
                self.wf(),
                id <= self.next_token_id,
                self.next_token_id == self@.next_id,
                listing@.len() == id,
                forall|i: int|
                    0 <= i < listing@.len() ==> (#[trigger] listing@[i]).0 == i && listing@[i].1@
                        == self@.vocab[i as u32],
            decreases self.next_token_id - id,
        {
            proof {
                self.lemma_parts();
                assert(self@.vocab.contains_key(id));
            }
            let token = match self.get_token(id) {
                Some(token) => token.clone(),
                None => Vec::new(),
            };
            listing.push((id, token));
            id += 1;
        }
        listing
    }

    /// The token of `id`, if it has one.
    pub fn get_token(&self, id: u32) -> (token: Option<&Vec<u8>>)
        ensures
            token is Some <==> self@.vocab.contains_key(id),
            token matches Some(t) ==> t@ == self@.vocab[id],
    {
        broadcast use vstd::std_specs::hash::group_hash_axioms;

        self.vocab.get(&id)
    }
}

/// A map whose ids are the numbers below `next` holds `next` ids.
pub proof fn lemma_dense_len(vocab: Map<u32, Seq<u8>>, next: u32)
    requires
        forall|id: u32| vocab.contains_key(id) <==> id < next,
    ensures
        vocab.dom().finite(),
        vocab.dom().len() == next,
    decreases next,
{
    lemma_dense_set(vocab.dom(), next);
}

/// The same for the table that holds the tokens as vectors.
pub proof fn lemma_dense_len_table(vocab: Map<u32, Vec<u8>>, next: u32)
    requires
        forall|id: u32| vocab.contains_key(id) <==> id < next,
    ensures
        vocab.dom().finite(),
        vocab.dom().len() == next,
{
    lemma_dense_set(vocab.dom(), next);
}

/// The set of the numbers below `next` has `next` elements.
pub proof fn lemma_dense_set(ids: Set<u32>, next: u32)
    requires
        forall|id: u32| ids.contains(id) <==> id < next,
    ensures
        ids.finite(),
        ids.len() == next,
    decreases next,
{
    if next == 0 {
        assert(ids =~= Set::<u32>::empty());
    } else {
        let last = (next - 1) as u32;
        let rest = ids.remove(last);
        assert forall|id: u32| rest.contains(id) <==> id < last by {}
        lemma_dense_set(rest, last);
        assert(ids =~= rest.insert(last));
    }
}

impl BBPETokenizer {
    /// The merge loop on a corpus of counted words, with the growth of the
    /// vocabulary: the rules of before are forgotten, up to `vocab_size` minus the
    /// number of tokens rules are learned, and every rule adds its token.
    fn train_core_incremental(&mut self, words: Vec<Word<u32>>, counts: Vec<i32>, vocab_size: u32)
        requires
            old(self).wf(),
            counts@.len() == words@.len(),
            total_len(words_view(words@)) <= MAX_CORPUS_IDS,
            forall|i: int| 0 <= i < words@.len() ==> word_below(#[trigger] words@[i]@, 256),
        ensures
            final(self).wf(),
            final(self)@ == ({
                let rules = learn(
                    initial_model(words_view(words@), counts@, old(self)@.next_id),
                    merge_budget(old(self)@, vocab_size),
                );
                BbpeModel {
                    rules,
                    vocab: grow_vocab(old(self)@.vocab, rules),
                    next_id: (old(self)@.next_id + rules.len()) as u32,
                    ..old(self)@
                }
            }),
            final(self)@.rules.len() <= merge_budget(old(self)@, vocab_size),
            final(self)@.next_id == old(self)@.next_id + final(self)@.rules.len(),
    {
        broadcast use vstd::std_specs::hash::group_hash_axioms;

        let ghost start = *self;
        let first = self.next_token_id;
        let budget: u32 = if vocab_size > first {
            vocab_size - first
        } else {
            0
        };
        let ghost corpus_words = words_view(words@);
        let ghost corpus_counts = counts@;
        proof {
            assert forall|i: int| 0 <= i < corpus_words.len() implies word_below(
                #[trigger] corpus_words[i],
                first as int,
            ) by {
                assert(word_below(words@[i]@, 256));
            }
            let below = |id: u32| id < first as int;
            assert forall|i: int| 0 <= i < corpus_words.len() implies word_ok(
                #[trigger] corpus_words[i],
                below,
            ) by {
                assert(word_below(corpus_words[i], first as int));
            }
            lemma_initial_ids_ok(corpus_words, corpus_counts, first, below);
            lemma_ids_below(initial_model(corpus_words, corpus_counts, first), first as int);
        }
        let mut learner = MergeLearner::new(words, counts, first);
        let rules = learner.run(budget);
        self.merges.clear();
        proof {
            assert forall|id: u32| id >= first implies !self.vocab@.contains_key(id) by {
                assert(start@.vocab.contains_key(id) <==> id < first);
            }
            assert forall|j: int| 0 <= j < rules@.len() implies {
                &&& (#[trigger] rules@[j]).left < first ==> self.vocab@.contains_key(
                    rules@[j].left,
                )
                &&& rules@[j].right < first ==> self.vocab@.contains_key(rules@[j].right)
            } by {
                assert(start@.vocab.contains_key(rules@[j].left) <==> rules@[j].left < first);
                assert(start@.vocab.contains_key(rules@[j].right) <==> rules@[j].right < first);
            }
        }
        grow_with_rules(&mut self.vocab, &mut self.merges, &rules, first);
        self.next_token_id = first + rules.len() as u32;
        proof {
            assert forall|id: u32| self@.vocab.contains_key(id) <==> id < self@.next_id by {
                assert(start@.vocab.contains_key(id) <==> id < first);
            }
            assert forall|id: u32| id < 256 implies #[trigger] self@.vocab[id] == seq![
                id as u8,
            ] by {
                assert(start@.vocab[id] == seq![id as u8]);
                assert(start@.vocab.contains_key(id) <==> id < first);
                assert(start.vocab@.contains_key(id));
            }
        }
    }

    /// Trains the tokenizer on `texts` until the vocabulary has `vocab_size` tokens
    /// or the corpus offers no more pairs. Fails before any work, and changes
    /// nothing, where `vocab_size` is below 256 or below the present number of
    /// tokens, and fails where the learner cannot take the corpus. It takes every
    /// corpus whose texts hold, four times over, no more characters than the
    /// learner takes ids.
    pub fn train(&mut self, texts: Vec<String>, vocab_size: u32) -> (outcome: Result<(), String>)
        requires
            old(self).wf(),
        ensures
            final(self).wf(),
            vocab_size < 256 ==> {
                &&& outcome is Err
                &&& outcome->Err_0@ == too_small_message()
                &&& final(self)@ == old(self)@
            },
            256 <= vocab_size < old(self)@.next_id ==> {
                &&& outcome is Err
                &&& outcome->Err_0@ == below_present_message()
                &&& final(self)@ == old(self)@
            },
            vocab_size >= old(self)@.next_id && !corpus_fits(
                corpus_of(IdScheme::Bytes, all_tokens(old(self)@.pattern, strings_view(texts@))),
            ) ==> {
                &&& outcome is Err
                &&& outcome->Err_0@ == too_large_message()
                &&& final(self)@ == old(self)@
            },
            vocab_size >= old(self)@.next_id && corpus_fits(
                corpus_of(IdScheme::Bytes, all_tokens(old(self)@.pattern, strings_view(texts@))),
            ) ==> {
                &&& outcome is Ok
                &&& final(self)@ == trained(old(self)@, strings_view(texts@), vocab_size)
                &&& final(self)@.next_id <= vocab_size
            },
            outcome is Ok && vocab_size == old(self)@.next_id ==> {
                &&& final(self)@.rules == Seq::<MergeRule>::empty()
                &&& final(self)@.vocab == old(self)@.vocab
            },
            vocab_size >= old(self)@.next_id && 4 * texts_len(strings_view(texts@))
                <= MAX_CORPUS_IDS ==> outcome is Ok,
    {
        proof {
            self.lemma_parts();
        }
        if vocab_size < 256 {
            return Err(String::from_str("vocabulary size must be at least 256"));
        }
        if vocab_size < self.next_token_id {
            return Err(
                String::from_str("vocabulary size is below the present size of the vocabulary"),
            );
        }
        let mut gatherer = Gatherer::new(IdScheme::Bytes);
        gatherer.add_texts(self.base.pattern(), &texts);
        proof {
            assert(gatherer@ =~= all_tokens(self@.pattern, strings_view(texts@)));
            if 4 * texts_len(strings_view(texts@)) <= MAX_CORPUS_IDS {
                lemma_small_corpus_fits(
                    IdScheme::Bytes,
                    gatherer@,
                    texts_len(strings_view(texts@)),
                );
            }
        }
        match gatherer.finish() {
            None => Err(String::from_str("the corpus is too large for training")),
            Some(corpus) => {
                let ghost model = corpus@;
                proof {
                    lemma_corpus_of(
                        IdScheme::Bytes,
                        all_tokens(self@.pattern, strings_view(texts@)),
                    );
                    corpus.lemma_wf();
                }
                let (words, counts) = corpus.into_parts();
                proof {
                    assert(counts@ =~= weights_of(model.counts));
                    assert forall|i: int| 0 <= i < words@.len() implies word_below(
                        #[trigger] words@[i]@,
                        256,
                    ) by {
                        assert(words_view(words@)[i] == words@[i]@);
                        assert(word_below(model.words[i], 256));
                    }
                }
                proof {
                    crate::learner_model::lemma_no_budget_no_rules(
                        initial_model(words_view(words@), counts@, self@.next_id),
                    );
                }
                self.train_core_incremental(words, counts, vocab_size);
                Ok(())
            },
        }
    }
}

/// The texts without repetitions: of equal texts the first stays.
pub open spec fn distinct(texts: Seq<Seq<char>>) -> Seq<Seq<char>>
    decreases texts.len(),
{
    if texts.len() == 0 {
        seq![]
    } else if distinct(texts.drop_last()).contains(texts.last()) {
        distinct(texts.drop_last())
    } else {
        distinct(texts.drop_last()).push(texts.last())
    }
}

/// The vocabulary after the tokens got the next free ids, first to last.
pub open spec fn with_tokens(vocab: Map<u32, Seq<u8>>, next_id: u32, tokens: Seq<Seq<u8>>) -> Map<
    u32,
    Seq<u8>,
> {
    Map::new(
        |id: u32| vocab.contains_key(id) || next_id <= id < next_id + tokens.len(),
        |id: u32|
            if vocab.contains_key(id) {
                vocab[id]
            } else {
                tokens[id - next_id]
            },
    )
}

/// The bytes of the texts in UTF-8.
pub open spec fn texts_bytes(texts: Seq<Seq<char>>) -> Seq<Seq<u8>> {
    Seq::new(texts.len(), |i: int| encode_utf8(texts[i]))
}

/// The message for a word list that needs more ids than there are.
pub open spec fn no_ids_message() -> Seq<char> {
    "the word list needs more ids than there are"@
}

impl BBPETokenizer {
    /// The base characters.
    pub fn base_chars(&self) -> (base_chars: &Vec<String>)
        ensures
            strings_view(base_chars@) == self@.base_chars,
    {
        &self.base_chars
    }

    /// Sets the base characters to the entries of a list: its lines trimmed,
    /// without the empty ones and without repetitions. The vocabulary stays as
    /// it is until `init_vocab` sets it anew.
    pub fn load_base_chars(&mut self, text: &str)
        requires
            old(self).wf(),
        ensures
            final(self).wf(),
            final(self)@ == (BbpeModel {
                base_chars: distinct(crate::text::list_entries(text@)),
                ..old(self)@
            }),
    {
        let entries = crate::text::read_list(text);
        let ghost all = crate::text::chars_view(entries@);
        let mut kept: Vec<String> = Vec::new();
        let mut i: usize = 0;
        proof {
            assert(all.take(0) =~= Seq::<Seq<char>>::empty());
            assert(strings_view(kept@) =~= distinct(all.take(0)));
        }
        while i < entries.len()
            invariant
                i <= entries@.len(),
                all == crate::text::chars_view(entries@),
                strings_view(kept@) == distinct(all.take(i as int)),
            decreases entries.len() - i,
        {
            let entry = crate::text::string_from_chars(entries[i].as_slice());
            let ghost before = strings_view(kept@);
            proof {
                assert(all.take(i + 1).drop_last() =~= all.take(i as int));
                assert(all.take(i + 1).last() == entry@);
            }
            let mut found = false;
            let mut k: usize = 0;
            while k < kept.len() && !found
                invariant
                    k <= kept@.len(),
                    before == strings_view(kept@),
                    !found ==> forall|j: int| 0 <= j < k ==> before[j] != entry@,
                    found ==> before.contains(entry@),
                decreases kept.len() - k + (if found { 0int } else { 1int }),
            {
                if kept[k] == entry {
                    found = true;
                    proof {
                        assert(before[k as int] == entry@);
                    }
                } else {
                    k += 1;
                }
            }
            if !found {
                kept.push(entry);
                proof {
                    assert(strings_view(kept@) =~= before.push(all[i as int]));
                }
            }
            i += 1;
        }
        proof {
            assert(all.take(entries@.len() as int) =~= all);
        }
        self.base_chars = kept;
    }

    /// Gives the entries of a word list the next free ids: the lines of the list
    /// trimmed, without the empty ones. Fails, and changes nothing, where the
    /// ids do not suffice.
    pub fn load_vocab_from_dict(&mut self, text: &str) -> (outcome: Result<(), String>)
        requires
            old(self).wf(),
        ensures
            final(self).wf(),
            old(self)@.next_id + crate::text::list_entries(text@).len() > u32::MAX ==> {
                &&& outcome is Err
                &&& outcome->Err_0@ == no_ids_message()
                &&& final(self)@ == old(self)@
            },
            old(self)@.next_id + crate::text::list_entries(text@).len() <= u32::MAX ==> {
                &&& outcome is Ok
                &&& final(self)@ == (BbpeModel {
                    vocab: with_tokens(
                        old(self)@.vocab,
                        old(self)@.next_id,
                        texts_bytes(crate::text::list_entries(text@)),
                    ),
                    next_id: (old(self)@.next_id + crate::text::list_entries(text@).len()) as u32,
                    ..old(self)@
                })
            },
    {
        broadcast use vstd::std_specs::hash::group_hash_axioms;

        let entries = crate::text::read_list(text);
        let ghost all = crate::text::chars_view(entries@);
        let ghost start = *self;
        let first = self.next_token_id;
        if entries.len() > (u32::MAX - first) as usize {
            return Err(String::from_str("the word list needs more ids than there are"));
        }
        let mut i: usize = 0;
        while i < entries.len()
            invariant
                i <= entries@.len(),
                all == crate::text::chars_view(entries@),
                first + entries@.len() <= u32::MAX,
                first == start.next_token_id,
                start.wf(),
                self.merges == start.merges,
                self.base == start.base,
                self.base_chars == start.base_chars,
                self.next_token_id == first + i,
                forall|id: u32|
                    self.vocab@.contains_key(id) <==> start.vocab@.contains_key(id) || first <= id
                        < first + i,
                forall|id: u32|
                    start.vocab@.contains_key(id) ==> #[trigger] self.vocab@[id] == start.vocab@[id],
                forall|id: u32|
                    first <= id < first + i ==> (#[trigger] self.vocab@[id])@ == encode_utf8(
                        all[id - first],
                    ),
            decreases entries.len() - i,
        {
            let entry = crate::text::string_from_chars(entries[i].as_slice());
            let token = vstd::slice::slice_to_vec(entry.as_str().as_bytes());
            proof {
                assert(start@.vocab.contains_key(self.next_token_id) <==> self.next_token_id
                    < start@.next_id);
                assert(!start.vocab@.contains_key(self.next_token_id));
            }
            self.vocab.insert(self.next_token_id, token);
            self.next_token_id = self.next_token_id + 1;
            i += 1;
        }
        proof {
            let target = with_tokens(start@.vocab, first, texts_bytes(all));
            assert forall|id: u32| self@.vocab.contains_key(id) <==> target.contains_key(id) by {
                assert(self.vocab@.contains_key(id) <==> start.vocab@.contains_key(id) || first
                    <= id < first + i);
            }
            assert forall|id: u32| self@.vocab.contains_key(id) implies #[trigger] self@.vocab[id]
                == target[id] by {
                if start.vocab@.contains_key(id) {
                    assert(self.vocab@[id] == start.vocab@[id]);
                } else {
                    assert(self.vocab@[id]@ == encode_utf8(all[id - first]));
                }
            }
            assert(self@.vocab =~= target);
            assert forall|id: u32| self@.vocab.contains_key(id) <==> id < self@.next_id by {
                assert(start@.vocab.contains_key(id) <==> id < first);
            }
            assert forall|id: u32| id < 256 implies #[trigger] self@.vocab[id] == seq![
                id as u8,
            ] by {
                assert(start@.vocab[id] == seq![id as u8]);
                assert(start@.vocab.contains_key(id) <==> id < first);
            }
            assert(rules_well_formed(self@.vocab, self@.rules)) by {
                assert forall|j: int| 0 <= j < self@.rules.len() implies {
                    &&& self@.vocab.contains_key((#[trigger] self@.rules[j]).left)
                    &&& self@.vocab.contains_key(self@.rules[j].right)
                    &&& self@.vocab.contains_key(self@.rules[j].new_id)
                    &&& self@.vocab[self@.rules[j].new_id] == self@.vocab[self@.rules[j].left]
                        + self@.vocab[self@.rules[j].right]
                } by {
                    let rule = start@.rules[j];
                    assert(start@.vocab.contains_key(rule.left));
                    assert(start@.vocab.contains_key(rule.right));
                    assert(start@.vocab.contains_key(rule.new_id));
                }
            }
        }
        Ok(())
    }
}

} // verus!
