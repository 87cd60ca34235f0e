//! The character-level tokenizer: the id of a character is its scalar value,
//! and every id from 0x110000 on stands for the characters of the two ids that a
//! merge rule joined.

use crate::corpus::corpus_fits;
use crate::corpus_size::{lemma_small_corpus_fits, texts_len};
use crate::gather::{
    all_tokens, char_ids, corpus_of, initial_ids, initial_ids_of, lemma_corpus_of, weights_of,
    Gatherer, IdScheme,
};
use crate::learner::{words_view, MergeLearner, MAX_CORPUS_IDS};
use crate::learner_model::{
    initial_model, learn, lemma_ids_below, lemma_initial_ids_ok, total_len, word_below, word_ok,
};
use crate::merges::{greedy_merge, rule_map, spell, MergeTable};
use crate::pairs::{MergeRule, Pair};
use crate::pattern::{
    gives_up, pattern_compiles, pre_tokenize, pre_tokens, strings_view, try_pre_tokenize,
    GPT4_PATTERN,
};
use crate::text::string_from_chars;
use crate::tokenizer_base::{compile_pattern, is_pattern_message, TokenizerBase};
use crate::vocab_store::{
    all_known, grow_vocab, grow_with_rules, is_first_unknown, rules_well_formed, spell_tokens,
    store_view, unknown_id_message, unknown_id_text,
};
use crate::word::Word;
use std::collections::HashMap;
use vstd::prelude::*;
use vstd::string::StringExecFns;
use vstd::utf8::is_scalar;

verus! {

/// The first id that a merge can get: the number of code points.
pub const FIRST_MERGE_ID: u32 = 0x110000;

/// A character-level model as mathematics.
#[verifier::ext_equal]
pub struct BpeModel {
    /// The source of the splitting pattern.
    pub pattern: Seq<char>,
    /// The token of every id.
    pub vocab: Map<u32, Seq<char>>,
    /// The merge rules in the order learned.
    pub rules: Seq<MergeRule>,
    /// The next free id.
    pub next_id: u32,
}

/// What holds of every model: ids below 0x110000 stand for their character, the
/// ids from there to the next free id all have a token, and the rules are
/// well-formed.
pub open spec fn model_wf(m: BpeModel) -> bool {
    &&& m.next_id >= FIRST_MERGE_ID
    &&& forall|id: u32| m.vocab.contains_key(id) ==> id < m.next_id
    &&& forall|id: u32| FIRST_MERGE_ID <= id < m.next_id ==> m.vocab.contains_key(id)
    &&& forall|id: u32|
        id < FIRST_MERGE_ID && #[trigger] m.vocab.contains_key(id) ==> is_scalar(id)
            && m.vocab[id] == seq![id as char]
    &&& rules_well_formed(m.vocab, m.rules)
}

/// The vocabulary after the character `id` got its token, if it had none.
pub open spec fn with_scalar(vocab: Map<u32, Seq<char>>, id: u32) -> Map<u32, Seq<char>> {
    if vocab.contains_key(id) {
        vocab
    } else {
        vocab.insert(id, seq![id as char])
    }
}

/// The vocabulary after the characters of a word got their tokens.
pub open spec fn with_word(vocab: Map<u32, Seq<char>>, ids: Seq<u32>) -> Map<u32, Seq<char>>
    decreases ids.len(),
{
    if ids.len() == 0 {
        vocab
    } else {
        with_scalar(with_word(vocab, ids.drop_last()), ids.last())
    }
}

/// The vocabulary after the characters of the words got their tokens.
pub open spec fn with_scalars(vocab: Map<u32, Seq<char>>, words: Seq<Seq<u32>>) -> Map<
    u32,
    Seq<char>,
>
    decreases words.len(),
{
    if words.len() == 0 {
        vocab
    } else {
        with_word(with_scalars(vocab, words.drop_last()), words.last())
    }
}

/// A vocabulary keeps its tokens when characters get theirs, and every character
/// of the word has one afterwards.
pub proof fn lemma_with_word(vocab: Map<u32, Seq<char>>, ids: Seq<u32>)
    ensures
        forall|id: u32|
            vocab.contains_key(id) ==> #[trigger] with_word(vocab, ids).contains_key(id)
                && with_word(vocab, ids)[id] == vocab[id],
        all_known(with_word(vocab, ids), ids),
    decreases ids.len(),
{
    if ids.len() > 0 {
        lemma_with_word(vocab, ids.drop_last());
        let prior = with_word(vocab, ids.drop_last());
        let after = with_word(vocab, ids);
        assert forall|i: int| 0 <= i < ids.len() implies after.contains_key(#[trigger] ids[i]) by {
            if i < ids.len() - 1 {
                assert(prior.contains_key(ids.drop_last()[i]));
            }
        }
    }
}

/// The same for all words.
pub proof fn lemma_with_scalars(vocab: Map<u32, Seq<char>>, words: Seq<Seq<u32>>)
    ensures
        forall|id: u32|
            vocab.contains_key(id) ==> #[trigger] with_scalars(vocab, words).contains_key(id)
                && with_scalars(vocab, words)[id] == vocab[id],
        forall|i: int|
            0 <= i < words.len() ==> all_known(with_scalars(vocab, words), #[trigger] words[i]),
    decreases words.len(),
{
    if words.len() > 0 {
        lemma_with_scalars(vocab, words.drop_last());
        let prior = with_scalars(vocab, words.drop_last());
        let after = with_scalars(vocab, words);
        lemma_with_word(prior, words.last());
        assert forall|i: int| 0 <= i < words.len() implies all_known(
            after,
            #[trigger] words[i],
        ) by {
            if i < words.len() - 1 {
                assert(all_known(prior, words.drop_last()[i]));
                assert forall|k: int| 0 <= k < words[i].len() implies after.contains_key(
                    #[trigger] words[i][k],
                ) by {
                    assert(prior.contains_key(words[i][k]));
                }
            }
        }
    }
}

/// The ids of the pre-tokens, each merged greedily, one after the other.
pub open spec fn encode_tokens(tokens: Seq<Seq<char>>, table: Map<Pair, u32>) -> Seq<u32>
    decreases tokens.len(),
{
    if tokens.len() == 0 {
        seq![]
    } else {
        encode_tokens(tokens.drop_last(), table) + greedy_merge(char_ids(tokens.last()), table)
    }
}

/// The ids that the model writes for `text`.
pub open spec fn encode_text(m: BpeModel, text: Seq<char>) -> Seq<u32> {
    encode_tokens(pre_tokens(m.pattern, text), rule_map(m.rules))
}

/// Whether encoding `text` fails: the text is not empty and the engine gives up
/// on it.
pub open spec fn encode_fails(m: BpeModel, text: Seq<char>) -> bool {
    text.len() > 0 && gives_up(m.pattern, text)
}

/// The message for a text on which the engine gave up.
pub open spec fn match_failed_message() -> Seq<char> {
    "the regular expression gave up on the text"@
}

/// The number of rules that training to `vocab_size` ids asks for.
pub open spec fn merge_budget(m: BpeModel, vocab_size: u32) -> nat {
    if vocab_size > m.next_id {
        (vocab_size - m.next_id) as nat
    } else {
        0
    }
}

/// The model after training on pre-tokens to `vocab_size` ids: the characters of
/// the corpus have their tokens, the rules are those learned, and every rule has
/// added its token under the next free id.
pub open spec fn trained_on(m: BpeModel, tokens: Seq<Seq<char>>, vocab_size: u32) -> BpeModel {
    let corpus = corpus_of(IdScheme::Scalars, tokens);
    let rules = learn(
        initial_model(corpus.words, weights_of(corpus.counts), m.next_id),
        merge_budget(m, vocab_size),
    );
    BpeModel {
        rules,
        vocab: grow_vocab(with_scalars(m.vocab, corpus.words), rules),
        next_id: (m.next_id + rules.len()) as u32,
        ..m
    }
}

/// The model after training on `texts` to `vocab_size` ids.
pub open spec fn trained(m: BpeModel, texts: Seq<Seq<char>>, vocab_size: u32) -> BpeModel {
    trained_on(m, all_tokens(m.pattern, texts), vocab_size)
}

/// Training on a stream is training on all its texts at once: the pre-tokens of
/// two buffers, counted one buffer after the other, train the model that the
/// texts of both buffers train together.
pub proof fn lemma_stream_is_batch(
    m: BpeModel,
    first: Seq<Seq<char>>,
    second: Seq<Seq<char>>,
    vocab_size: u32,
)
    ensures
        trained_on(
            m,
            all_tokens(m.pattern, first) + all_tokens(m.pattern, second),
            vocab_size,
        ) == trained(m, first + second, vocab_size),
{
    crate::gather::lemma_all_tokens_concat(m.pattern, first, second);
}

/// The message for a corpus that the learner cannot take.
pub open spec fn too_large_message() -> Seq<char> {
    "the corpus is too large for training"@
}

/// `char::from_u32` of std: the character of a scalar value, and nothing for a
/// number that is none.
#[verifier::external_body]
pub(crate) fn scalar_char(id: u32) -> (c: Option<char>)
    ensures
        c is Some <==> is_scalar(id),
        c matches Some(ch) ==> ch as u32 == id,
{
    char::from_u32(id)
}

/// The pattern of a streamed training: the one given, or the default pattern.
pub open spec fn stream_pattern(pattern: Option<String>) -> Seq<char> {
    match pattern {
        Some(source) => source@,
        None => GPT4_PATTERN@,
    }
}

/// What the next step of a streamed training is.
#[derive(Debug, Clone, Copy, PartialEq, Eq, Structural)]
pub enum StreamAction {
    /// Count the buffer, then fill it again.
    CountAndRefill,
    /// Count the buffer, then train.
    CountAndTrain,
    /// Train at once: the stream ended with nothing in the buffer.
    Train,
}

/// The step that follows a filled buffer: a buffer that holds texts is counted,
/// and training starts when the stream has ended.
pub fn stream_step(buffered: usize, exhausted: bool) -> (action: StreamAction)
    ensures
        action == (if exhausted && buffered == 0 {
            StreamAction::Train
        } else if exhausted {
            StreamAction::CountAndTrain
        } else {
            StreamAction::CountAndRefill
        }),
{
    if exhausted && buffered == 0 {
        StreamAction::Train
    } else if exhausted {
        StreamAction::CountAndTrain
    } else {
        StreamAction::CountAndRefill
    }
}

/// The character-level tokenizer.
pub struct Tokenizer {
    pub(crate) merges: MergeTable,
    pub(crate) base: TokenizerBase<u32>,
    pub(crate) vocab: HashMap<u32, Vec<char>>,
    pub(crate) next_token_id: u32,
}

impl View for Tokenizer {
    type V = BpeModel;

    closed spec fn view(&self) -> BpeModel {
        BpeModel {
            pattern: self.base.pattern_source(),
            vocab: store_view(self.vocab@),
            rules: self.merges@,
            next_id: self.next_token_id,
        }
    }
}

impl Tokenizer {
    /// The invariant of the tokenizer.
    pub closed spec fn wf(&self) -> bool {
        &&& self.merges.wf()
        &&& self.base.wf()
        &&& model_wf(self@)
    }

    /// A valid tokenizer has a valid model: in particular, every rule joins two
    /// ids of the vocabulary into a third whose token is the tokens of the two.
    pub proof fn lemma_wf(&self)
        requires
            self.wf(),
        ensures
            model_wf(self@),
    {
    }

    /// What the view and the invariant are made of.
    pub(crate) proof fn lemma_parts(&self)
        ensures
            self@ == (BpeModel {
                pattern: self.base.pattern_source(),
                vocab: store_view(self.vocab@),
                rules: self.merges@,
                next_id: self.next_token_id,
            }),
            self.wf() == (self.merges.wf() && self.base.wf() && model_wf(self@)),
    {
    }

    /// A tokenizer with the default pattern, no tokens and no rules.
    pub fn new() -> (outcome: Result<Self, String>)
        ensures
            outcome is Ok <==> pattern_compiles(GPT4_PATTERN@),
            outcome matches Ok(tokenizer) ==> {
                &&& tokenizer.wf()
                &&& tokenizer@.pattern == GPT4_PATTERN@
                &&& tokenizer@.rules == Seq::<MergeRule>::empty()
                &&& tokenizer@.vocab == Map::<u32, Seq<char>>::empty()
                &&& tokenizer@.next_id == FIRST_MERGE_ID
            },
            outcome matches Err(message) ==> is_pattern_message(message@),
    {
        Self::with_pattern(String::from_str(GPT4_PATTERN))
    }

    /// A tokenizer with the pattern `pattern`, no tokens and no rules.
    pub fn with_pattern(pattern: String) -> (outcome: Result<Self, String>)
        ensures
            outcome is Ok <==> pattern_compiles(pattern@),
            outcome matches Ok(tokenizer) ==> {
                &&& tokenizer.wf()
                &&& tokenizer@.pattern == pattern@
                &&& tokenizer@.rules == Seq::<MergeRule>::empty()
                &&& tokenizer@.vocab == Map::<u32, Seq<char>>::empty()
                &&& tokenizer@.next_id == FIRST_MERGE_ID
            },
            outcome matches Err(message) ==> is_pattern_message(message@),
    {
        broadcast use vstd::std_specs::hash::group_hash_axioms;

        match TokenizerBase::with_pattern(pattern) {
            Ok(base) => {
                let tokenizer = Tokenizer {
                    merges: MergeTable::new(),
                    base,
                    vocab: HashMap::new(),
                    next_token_id: FIRST_MERGE_ID,
                };
                assert(tokenizer@.vocab =~= Map::<u32, Seq<char>>::empty());
                Ok(tokenizer)
            },
            Err(message) => Err(message),
        }
    }

    /// The ids of `text`: the text is cut into pre-tokens, every pre-token becomes
    /// the ids of its characters, and the merge rules are applied to each. Fails
    /// where the engine gives up on a text that is not empty.
    pub fn encode(&self, text: &str) -> (outcome: Result<Vec<u32>, String>)
        requires
            self.wf(),
        ensures
            encode_fails(self@, text@) ==> outcome is Err && outcome->Err_0@
                == match_failed_message(),
            !encode_fails(self@, text@) ==> outcome is Ok && outcome->Ok_0@ == encode_text(
                self@,
                text@,
            ),
            text@.len() == 0 ==> outcome is Ok && outcome->Ok_0@.len() == 0,
    {
        let tokens = if text.is_empty() {
            pre_tokenize(self.base.pattern(), text)
        } else {
            match try_pre_tokenize(self.base.pattern(), text) {
                Some(tokens) => tokens,
                None => {
                    return Err(String::from_str("the regular expression gave up on the text"));
                },
            }
        };
        let ghost all = strings_view(tokens@);
        let ghost table = rule_map(self@.rules);
        let mut out: Vec<u32> = Vec::new();
        let mut i: usize = 0;
        assert(all.take(0) =~= Seq::<Seq<char>>::empty());
        while i < tokens.len()
            invariant
                i <= tokens@.len(),
                self.wf(),
                all == strings_view(tokens@),
                table == rule_map(self@.rules),
                out@ == encode_tokens(all.take(i as int), table),
            decreases tokens.len() - i,
        {
            let mut ids = initial_ids_of(IdScheme::Scalars, tokens[i].as_str());
            self.merges.apply(&mut ids);
            proof {
                assert(all.take(i + 1).drop_last() =~= all.take(i as int));
                assert(all.take(i + 1).last() == tokens@[i as int]@);
            }
            out.append(&mut ids);
            i += 1;
        }
        assert(all.take(tokens@.len() as int) =~= all);
        Ok(out)
    }

    /// The text of `tokens`: the tokens of the ids, one after the other. Fails at
    /// the first id without a token, with a message that names the id.
    pub fn decode(&self, tokens: &[u32]) -> (outcome: Result<String, String>)
        requires
            self.wf(),
        ensures
            all_known(self@.vocab, tokens@) ==> outcome is Ok && outcome->Ok_0@ == spell(
                self@.vocab,
                tokens@,
            ),
            !all_known(self@.vocab, tokens@) ==> outcome is Err && exists|i: int|
                is_first_unknown(self@.vocab, tokens@, i) && outcome->Err_0@ == unknown_id_message(
                    tokens@[i],
                ),
            tokens@.len() == 0 ==> outcome is Ok && outcome->Ok_0@.len() == 0,
    {
        match spell_tokens(&self.vocab, tokens) {
            Ok(chars) => Ok(string_from_chars(chars.as_slice())),
            Err(id) => Err(unknown_id_text(id)),
        }
    }

    /// Applies the merge rules to `ids`: passes from the left, without overlapping
    /// merges in one pass, until a pass merges nothing.
    pub fn apply_merges(&self, ids: &mut Vec<u32>)
        requires
            self.wf(),
        ensures
            final(ids)@ == greedy_merge(old(ids)@, rule_map(self@.rules)),
    {
        self.merges.apply(ids);
    }

    /// The number of tokens in the vocabulary.
    pub fn vocab_size(&self) -> (n: usize)
        ensures
            n == self@.vocab.dom().len(),
    {
        broadcast use vstd::std_specs::hash::group_hash_axioms;

        proof {
            assert(self@.vocab.dom() =~= self.vocab@.dom());
        }
        self.vocab.len()
    }

    /// The source of the pattern.
    pub fn get_pattern(&self) -> (pattern: String)
        ensures
            pattern@ == self@.pattern,
    {
        self.base.pattern().source().clone()
    }

    /// The merge rules in the order learned.
    pub fn get_merges(&self) -> (rules: &Vec<MergeRule>)
        ensures
            rules@ == self@.rules,
    {
        self.merges.rules()
    }

    /// The merge rules as pairs with their ranks, in the order learned. The rank
    /// of a pair is the id that its rule writes.
    pub fn get_mergeable_ranks(&self) -> (ranks: Vec<(Pair, u32)>)
        ensures
            ranks@ == crate::merges::ranks_of(self@.rules),
    {
        self.merges.ranks()
    }

    /// The token of `id`, if it has one.
    pub fn get_token(&self, id: u32) -> (token: Option<&Vec<char>>)
        ensures
            token is Some <==> self@.vocab.contains_key(id),
            token matches Some(t) ==> t@ == self@.vocab[id],
    {
        broadcast use vstd::std_specs::hash::group_hash_axioms;

        self.vocab.get(&id)
    }

    /// Gives the character `id` its token, if it has none.
    fn add_scalar(&mut self, id: u32)
        requires
            old(self).wf(),
            id < FIRST_MERGE_ID,
            is_scalar(id),
        ensures
            final(self).wf(),
            final(self)@ == (BpeModel { vocab: with_scalar(old(self)@.vocab, id), ..old(self)@ }),
    {
        broadcast use vstd::std_specs::hash::group_hash_axioms;

        let ghost before = *self;
        if self.vocab.contains_key(&id) {
            return ;
        }
        match scalar_char(id) {
            Some(c) => {
                let mut token: Vec<char> = Vec::new();
                token.push(c);
                self.vocab.insert(id, token);
                proof {
                    vstd::utf8::char_u32_cast(c, id);
                    assert(token@ =~= seq![id as char]);
                    assert(self@.vocab =~= with_scalar(before@.vocab, id));
                    assert forall|other: u32| self@.vocab.contains_key(other) implies other
                        < self@.next_id by {
                        if other != id {
                            assert(before@.vocab.contains_key(other));
                        }
                    }
                    assert forall|other: u32|
                        FIRST_MERGE_ID <= other < self@.next_id implies self@.vocab.contains_key(
                        other,
                    ) by {
                        assert(before@.vocab.contains_key(other));
                    }
                    assert forall|other: u32|
                        other < FIRST_MERGE_ID && #[trigger] self@.vocab.contains_key(
                            other,
                        ) implies is_scalar(other) && self@.vocab[other] == seq![other as char] by {
                        if other != id {
                            assert(before@.vocab.contains_key(other));
                        }
                    }
                    assert forall|j: int| 0 <= j < self@.rules.len() implies {
                        &&& self@.vocab.contains_key((#[trigger] self@.rules[j]).left)
                        &&& self@.vocab.contains_key(self@.rules[j].right)
                        &&& self@.vocab.contains_key(self@.rules[j].new_id)
                        &&& self@.vocab[self@.rules[j].new_id] == self@.vocab[self@.rules[j].left]
                            + self@.vocab[self@.rules[j].right]
                    } by {
                        let rule = before@.rules[j];
                        assert(before@.vocab.contains_key(rule.left));
                        assert(before@.vocab.contains_key(rule.right));
                        assert(before@.vocab.contains_key(rule.new_id));
                    }
                }
            },
            None => {},
        }
    }

    /// Gives every character of the words its token.
    fn add_scalars(&mut self, words: &Vec<Word<u32>>)
        requires
            old(self).wf(),
            forall|i: int|
                0 <= i < words@.len() ==> word_below(#[trigger] words@[i]@, FIRST_MERGE_ID as int),
            forall|i: int, k: int|
                0 <= i < words@.len() && 0 <= k < words@[i]@.len() ==> is_scalar(
                    #[trigger] words@[i]@[k],
                ),
        ensures
            final(self).wf(),
            final(self)@ == (BpeModel {
                vocab: with_scalars(old(self)@.vocab, words_view(words@)),
                ..old(self)@
            }),
    {
        let ghost start = self@;
        let ghost all = words_view(words@);
        let mut i: usize = 0;
        proof {
            assert(all.take(0) =~= Seq::<Seq<u32>>::empty());
        }
        while i < words.len()
            invariant
                i <= words@.len(),
                all == words_view(words@),
                self.wf(),
                self@ == (BpeModel { vocab: with_scalars(start.vocab, all.take(i as int)), ..start }),
                forall|i: int|
                    0 <= i < words@.len() ==> word_below(
                        #[trigger] words@[i]@,
                        FIRST_MERGE_ID as int,
                    ),
                forall|i: int, k: int|
                    0 <= i < words@.len() && 0 <= k < words@[i]@.len() ==> is_scalar(
                        #[trigger] words@[i]@[k],
                    ),
            decreases words.len() - i,
        {
            let word = &words[i];
            let ghost before_word = self@.vocab;
            let mut k: usize = 0;
            proof {
                assert(word@.take(0) =~= Seq::<u32>::empty());
                assert(word_below(words@[i as int]@, FIRST_MERGE_ID as int));
            }
            while k < word.ids.len()
                invariant
                    k <= word@.len(),
                    i < words@.len(),
                    word@ == words@[i as int]@,
                    self.wf(),
                    word_below(word@, FIRST_MERGE_ID as int),
                    forall|j: int| 0 <= j < word@.len() ==> is_scalar(#[trigger] word@[j]),
                    self@ == (BpeModel {
                        vocab: with_word(before_word, word@.take(k as int)),
                        ..start
                    }),
                decreases word.ids.len() - k,
            {
                proof {
                    assert(word@.take(k + 1).drop_last() =~= word@.take(k as int));
                    assert(word@.take(k + 1).last() == word@[k as int]);
                    assert(is_scalar(word@[k as int]));
                }
                self.add_scalar(word.ids[k]);
                k += 1;
            }
            proof {
                assert(word@.take(word@.len() as int) =~= word@);
                assert(all.take(i + 1).drop_last() =~= all.take(i as int));
                assert(all.take(i + 1).last() == word@);
            }
            i += 1;
        }
        proof {
            assert(all.take(words@.len() as int) =~= all);
        }
    }

    /// The merge loop on a corpus of counted words, with the growth of the
    /// vocabulary: the rules of before are forgotten, up to `vocab_size` minus the
    /// next free id rules are learned, and every rule adds its token.
    fn train_core_incremental(&mut self, words: Vec<Word<u32>>, counts: Vec<i32>, vocab_size: u32)
        requires
            old(self).wf(),
            counts@.len() == words@.len(),
            total_len(words_view(words@)) <= MAX_CORPUS_IDS,
            forall|i: int|
                0 <= i < words@.len() ==> word_below(#[trigger] words@[i]@, FIRST_MERGE_ID as int),
            forall|i: int|
                0 <= i < words@.len() ==> all_known(old(self)@.vocab, #[trigger] words@[i]@),
        ensures
            final(self).wf(),
            final(self)@ == ({
                let rules = learn(
                    initial_model(words_view(words@), counts@, old(self)@.next_id),
                    merge_budget(old(self)@, vocab_size),
                );
                BpeModel {
                    rules,
                    vocab: grow_vocab(old(self)@.vocab, rules),
                    next_id: (old(self)@.next_id + rules.len()) as u32,
                    ..old(self)@
                }
            }),
    {
        broadcast use vstd::std_specs::hash::group_hash_axioms;

        let ghost start = *self;
        let first = self.next_token_id;
        let budget: u32 = if vocab_size > first {
            vocab_size - first
        } else {
            0
        };
        let ghost corpus_words = words_view(words@);
        let ghost corpus_counts = counts@;
        let ghost known = |id: u32| start@.vocab.contains_key(id) || id >= first;
        proof {
            let below = |id: u32| id < first as int;
            assert forall|i: int| 0 <= i < corpus_words.len() implies word_ok(
                #[trigger] corpus_words[i],
                below,
            ) && word_ok(corpus_words[i], known) by {
                assert(word_below(words@[i]@, FIRST_MERGE_ID as int));
                assert(all_known(start@.vocab, words@[i]@));
            }
            lemma_initial_ids_ok(corpus_words, corpus_counts, first, below);
            lemma_initial_ids_ok(corpus_words, corpus_counts, first, known);
            lemma_ids_below(initial_model(corpus_words, corpus_counts, first), first as int);
        }
        let mut learner = MergeLearner::new(words, counts, first);
        let rules = learner.run_within(budget, Ghost(known), Ghost(true));
        self.merges.clear();
        proof {
            assert forall|id: u32| id >= first implies !self.vocab@.contains_key(id) by {
                assert(start@.vocab.contains_key(id) ==> id < first);
            }
            assert forall|j: int| 0 <= j < rules@.len() implies {
                &&& (#[trigger] rules@[j]).left < first ==> self.vocab@.contains_key(
                    rules@[j].left,
                )
                &&& rules@[j].right < first ==> self.vocab@.contains_key(rules@[j].right)
            } by {
                assert(known(rules@[j].left) && known(rules@[j].right));
            }
        }
        grow_with_rules(&mut self.vocab, &mut self.merges, &rules, first);
        self.next_token_id = first + rules.len() as u32;
        proof {
            assert forall|id: u32| self@.vocab.contains_key(id) implies id < self@.next_id by {
                assert(start@.vocab.contains_key(id) ==> id < first);
            }
            assert forall|id: u32|
                FIRST_MERGE_ID <= id < self@.next_id implies self@.vocab.contains_key(id) by {
                if id < first {
                    assert(start@.vocab.contains_key(id));
                }
            }
            assert forall|id: u32|
                id < FIRST_MERGE_ID && #[trigger] self@.vocab.contains_key(id) implies is_scalar(
                id,
            ) && self@.vocab[id] == seq![id as char] by {
                assert(start@.vocab.contains_key(id));
                assert(start.vocab@.contains_key(id));
            }
        }
    }

    /// Trains on the pre-tokens that `gathered` has seen.
    fn train_on(&mut self, gathered: Gatherer, vocab_size: u32) -> (outcome: Result<(), String>)
        requires
            old(self).wf(),
            gathered.wf(),
            gathered.scheme() == IdScheme::Scalars,
        ensures
            final(self).wf(),
            !corpus_fits(corpus_of(IdScheme::Scalars, gathered@)) ==> {
                &&& outcome is Err
                &&& outcome->Err_0@ == too_large_message()
                &&& final(self)@ == old(self)@
            },
            corpus_fits(corpus_of(IdScheme::Scalars, gathered@)) ==> {
                &&& outcome is Ok
                &&& final(self)@ == trained_on(old(self)@, gathered@, vocab_size)
            },
    {
        let ghost tokens = gathered@;
        match gathered.finish() {
            None => Err(String::from_str("the corpus is too large for training")),
            Some(corpus) => {
                let ghost model = corpus@;
                proof {
                    lemma_corpus_of(IdScheme::Scalars, tokens);
                    corpus.lemma_wf();
                }
                let (words, counts) = corpus.into_parts();
                proof {
                    assert(counts@ =~= weights_of(model.counts));
                    assert forall|i: int| 0 <= i < words@.len() implies word_below(
                        #[trigger] words@[i]@,
                        FIRST_MERGE_ID as int,
                    ) by {
                        assert(words_view(words@)[i] == words@[i]@);
                        assert(word_below(model.words[i], FIRST_MERGE_ID as int));
                    }
                    assert forall|i: int, k: int|
                        0 <= i < words@.len() && 0 <= k < words@[i]@.len() implies is_scalar(
                        #[trigger] words@[i]@[k],
                    ) by {
                        assert(words_view(words@)[i] == words@[i]@);
                        assert(model.words[i] == initial_ids(IdScheme::Scalars, model.tokens[i]));
                        vstd::utf8::char_is_scalar(model.tokens[i][k]);
                    }
                }
                let ghost before = self@.vocab;
                self.add_scalars(&words);
                proof {
                    lemma_with_scalars(before, words_view(words@));
                    assert forall|i: int| 0 <= i < words@.len() implies all_known(
                        self@.vocab,
                        #[trigger] words@[i]@,
                    ) by {
                        assert(all_known(self@.vocab, words_view(words@)[i]));
                    }
                }
                self.train_core_incremental(words, counts, vocab_size);
                Ok(())
            },
        }
    }

    /// Trains the tokenizer on `texts` until the next free id is `vocab_size` or
    /// the corpus offers no more pairs. Fails, and changes nothing, where the
    /// learner cannot take the corpus. It takes every corpus whose texts hold,
    /// four times over, no more characters than the learner takes ids.
    pub fn train(&mut self, texts: Vec<String>, vocab_size: u32) -> (outcome: Result<(), String>)
        requires
            old(self).wf(),
        ensures
            final(self).wf(),
            !corpus_fits(
                corpus_of(IdScheme::Scalars, all_tokens(old(self)@.pattern, strings_view(texts@))),
            ) ==> {
                &&& outcome is Err
                &&& outcome->Err_0@ == too_large_message()
                &&& final(self)@ == old(self)@
            },
            corpus_fits(
                corpus_of(IdScheme::Scalars, all_tokens(old(self)@.pattern, strings_view(texts@))),
            ) ==> {
                &&& outcome is Ok
                &&& final(self)@ == trained(old(self)@, strings_view(texts@), vocab_size)
            },
            4 * texts_len(strings_view(texts@)) <= MAX_CORPUS_IDS ==> outcome is Ok,
    {
        let mut gatherer = Gatherer::new(IdScheme::Scalars);
        gatherer.add_texts(self.base.pattern(), &texts);
        proof {
            assert(gatherer@ =~= all_tokens(self@.pattern, strings_view(texts@)));
            if 4 * texts_len(strings_view(texts@)) <= MAX_CORPUS_IDS {
                lemma_small_corpus_fits(
                    IdScheme::Scalars,
                    gatherer@,
                    texts_len(strings_view(texts@)),
                );
            }
        }
        self.train_on(gatherer, vocab_size)
    }

    /// Begins a streamed training: sets the pattern to the one given, or to the
    /// default pattern where none is given, and returns a gatherer that has seen
    /// nothing. Fails, and changes nothing, where the pattern does not compile.
    pub fn begin_stream(&mut self, pattern: Option<String>) -> (outcome: Result<Gatherer, String>)
        requires
            old(self).wf(),
        ensures
            final(self).wf(),
            outcome is Ok <==> pattern_compiles(stream_pattern(pattern)),
            outcome matches Ok(gatherer) ==> {
                &&& gatherer.wf()
                &&& gatherer.scheme() == IdScheme::Scalars
                &&& gatherer@ == Seq::<Seq<char>>::empty()
                &&& final(self)@ == (BpeModel { pattern: stream_pattern(pattern), ..old(self)@ })
            },
            outcome matches Err(message) ==> is_pattern_message(message@) && final(self)@ == old(
                self,
            )@,
    {
        let source = match pattern {
            Some(source) => source,
            None => String::from_str(GPT4_PATTERN),
        };
        match compile_pattern(source) {
            Ok(compiled) => {
                self.base.set_pattern(compiled);
            },
            Err(message) => {
                return Err(message);
            },
        }
        Ok(Gatherer::new(IdScheme::Scalars))
    }

    /// Counts the pre-tokens of one buffer of a streamed training.
    pub fn feed_stream(&self, gatherer: &mut Gatherer, buffer: &Vec<String>)
        requires
            self.wf(),
            old(gatherer).wf(),
        ensures
            final(gatherer).wf(),
            final(gatherer).scheme() == old(gatherer).scheme(),
            final(gatherer)@ == old(gatherer)@ + all_tokens(self@.pattern, strings_view(buffer@)),
    {
        gatherer.add_texts(self.base.pattern(), buffer);
    }

    /// Ends a streamed training: trains on all that the gatherer has seen.
    pub fn end_stream(&mut self, gatherer: Gatherer, vocab_size: u32) -> (outcome: Result<
        (),
        String,
    >)
        requires
            old(self).wf(),
            gatherer.wf(),
            gatherer.scheme() == IdScheme::Scalars,
        ensures
            final(self).wf(),
            !corpus_fits(corpus_of(IdScheme::Scalars, gatherer@)) ==> {
                &&& outcome is Err
                &&& outcome->Err_0@ == too_large_message()
                &&& final(self)@ == old(self)@
            },
            corpus_fits(corpus_of(IdScheme::Scalars, gatherer@)) ==> {
                &&& outcome is Ok
                &&& final(self)@ == trained_on(old(self)@, gatherer@, vocab_size)
            },
    {
        self.train_on(gatherer, vocab_size)
    }
}

/// The entries of a list as words of scalar values.
pub open spec fn entry_words(entries: Seq<Seq<char>>) -> Seq<Seq<u32>> {
    Seq::new(entries.len(), |i: int| char_ids(entries[i]))
}

/// The vocabulary after the words got the next free ids, first to last.
pub open spec fn with_words(vocab: Map<u32, Seq<char>>, next_id: u32, words: Seq<Seq<char>>) -> Map<
    u32,
    Seq<char>,
> {
    Map::new(
        |id: u32| vocab.contains_key(id) || next_id <= id < next_id + words.len(),
        |id: u32|
            if vocab.contains_key(id) {
                vocab[id]
            } else {
                words[id - next_id]
            },
    )
}

impl Tokenizer {
    /// Makes the characters of a list known: the lines of the list are trimmed,
    /// the empty ones left out, and every character of every line gets its
    /// token under its scalar value, if it has none. No id of a merge is used,
    /// and the rules stay.
    pub fn load_base_chars(&mut self, text: &str)
        requires
            old(self).wf(),
        ensures
            final(self).wf(),
            final(self)@ == (BpeModel {
                vocab: with_scalars(
                    old(self)@.vocab,
                    entry_words(crate::text::list_entries(text@)),
                ),
                ..old(self)@
            }),
    {
        let entries = crate::text::read_list(text);
        let ghost all = crate::text::chars_view(entries@);
        let mut words: Vec<Word<u32>> = Vec::new();
        let mut i: usize = 0;
        while i < entries.len()
            invariant
                i <= entries@.len(),
                all == crate::text::chars_view(entries@),
                words@.len() == i,
                forall|k: int| 0 <= k < i ==> (#[trigger] words@[k])@ == char_ids(all[k]),
            decreases entries.len() - i,
        {
            let entry = string_from_chars(entries[i].as_slice());
            let ids = initial_ids_of(IdScheme::Scalars, entry.as_str());
            proof {
                assert(all[i as int] == entries@[i as int]@);
            }
            words.push(Word::new(ids));
            i += 1;
        }
        proof {
            assert(words_view(words@) =~= entry_words(all));
            assert forall|k: int| 0 <= k < words@.len() implies word_below(
                #[trigger] words@[k]@,
                FIRST_MERGE_ID as int,
            ) by {
                crate::gather::lemma_initial_ids(IdScheme::Scalars, all[k]);
            }
            assert forall|k: int, j: int|
                0 <= k < words@.len() && 0 <= j < words@[k]@.len() implies is_scalar(
                #[trigger] words@[k]@[j],
            ) by {
                vstd::utf8::char_is_scalar(all[k][j]);
            }
        }
        self.add_scalars(&words);
    }

    /// Gives the entries of a word list the next free ids, which are ids of
    /// merges: the lines of the list trimmed, without the empty ones, first to
    /// last. The ids of characters stay as they are, and so do the rules. Fails,
    /// and changes nothing, where the ids do not suffice.
    pub fn load_vocab_from_dict(&mut self, text: &str) -> (outcome: Result<(), String>)
        requires
            old(self).wf(),
        ensures
            final(self).wf(),
            old(self)@.next_id + crate::text::list_entries(text@).len() > u32::MAX ==> {
                &&& outcome is Err
                &&& outcome->Err_0@ == crate::bbpe::no_ids_message()
                &&& final(self)@ == old(self)@
            },
            old(self)@.next_id + crate::text::list_entries(text@).len() <= u32::MAX ==> {
                &&& outcome is Ok
                &&& final(self)@ == (BpeModel {
                    vocab: with_words(
                        old(self)@.vocab,
                        old(self)@.next_id,
                        crate::text::list_entries(text@),
                    ),
                    next_id: (old(self)@.next_id + crate::text::list_entries(text@).len()) as u32,
                    ..old(self)@
                })
            },
    {
        broadcast use vstd::std_specs::hash::group_hash_axioms;

        let entries = crate::text::read_list(text);
        let ghost all = crate::text::chars_view(entries@);
        let ghost start = *self;
        let first = self.next_token_id;
        proof {
            start.lemma_parts();
        }
        if entries.len() > (u32::MAX - first) as usize {
            return Err(String::from_str("the word list needs more ids than there are"));
        }
        let mut i: usize = 0;
        while i < entries.len()
            invariant
                i <= entries@.len(),
                all == crate::text::chars_view(entries@),
                first + entries@.len() <= u32::MAX,
                first == start.next_token_id,
                start.wf(),
                self.merges == start.merges,
                self.base == start.base,
                self.next_token_id == first + i,
                forall|id: u32|
                    #![trigger self.vocab@.contains_key(id)]
                    self.vocab@.contains_key(id) <==> (start.vocab@.contains_key(id) || (first <= id
                        && id < first + i)),
                forall|id: u32|
                    start.vocab@.contains_key(id) ==> #[trigger] self.vocab@[id] == start.vocab@[id],
                forall|id: u32|
                    first <= id < first + i ==> (#[trigger] self.vocab@[id])@ == all[id - first],
            decreases entries.len() - i,
        {
            let token = crate::text::tail_of(&entries[i], 0);
            proof {
                start.lemma_parts();
                assert(token@ =~= all[i as int]);
                assert(start@.vocab.contains_key(self.next_token_id) ==> self.next_token_id
                    < start@.next_id);
                assert(!start.vocab@.contains_key(self.next_token_id));
            }
            let ghost held = self.vocab@;
            let ghost fresh = self.next_token_id;
            self.vocab.insert(self.next_token_id, token);
            self.next_token_id = self.next_token_id + 1;
            proof {
                assert(self.vocab@ == held.insert(fresh, token));
                assert forall|id: u32|
                    #![trigger self.vocab@.contains_key(id)]
                    self.vocab@.contains_key(id) <==> (start.vocab@.contains_key(id) || (first <= id
                        && id < first + i + 1)) by {
                    if id == fresh {
                    } else {
                        assert(self.vocab@.contains_key(id) <==> held.contains_key(id));
                    }
                }
                assert forall|id: u32| start.vocab@.contains_key(id) implies #[trigger] self.vocab@[id]
                    == start.vocab@[id] by {
                    assert(id != fresh);
                    assert(held[id] == start.vocab@[id]);
                }
                assert forall|id: u32| first <= id < first + i + 1 implies (
                #[trigger] self.vocab@[id])@ == all[id - first] by {
                    if id != fresh {
                        assert(held[id]@ == all[id - first]);
                    }
                }
            }
            i += 1;
        }
        proof {
            start.lemma_parts();
            self.lemma_parts();
            let target = with_words(start@.vocab, first, all);
            assert forall|id: u32| self@.vocab.contains_key(id) <==> target.contains_key(id) by {
                assert(self.vocab@.contains_key(id) <==> (start.vocab@.contains_key(id) || (first
                    <= id && id < first + i)));
            }
            assert forall|id: u32| self@.vocab.contains_key(id) implies #[trigger] self@.vocab[id]
                == target[id] by {
                if start.vocab@.contains_key(id) {
                    assert(self.vocab@[id] == start.vocab@[id]);
                } else {
                    assert(self.vocab@[id]@ == all[id - first]);
                }
            }
            assert(self@.vocab =~= target);
            assert forall|id: u32| self@.vocab.contains_key(id) implies id < self@.next_id by {
                if start@.vocab.contains_key(id) {
                    assert(id < start@.next_id);
                }
            }
            assert forall|id: u32| FIRST_MERGE_ID <= id < self@.next_id implies self@.vocab.contains_key(
                id,
            ) by {
                if id < first {
                    assert(start@.vocab.contains_key(id));
                }
            }
            assert forall|id: u32|
                id < FIRST_MERGE_ID && #[trigger] self@.vocab.contains_key(id) implies is_scalar(id)
                && self@.vocab[id] == seq![id as char] by {
                assert(start@.vocab.contains_key(id));
                assert(self.vocab@[id] == start.vocab@[id]);
            }
            assert(rules_well_formed(self@.vocab, self@.rules)) by {
                assert forall|j: int| 0 <= j < self@.rules.len() implies {
                    &&& self@.vocab.contains_key((#[trigger] self@.rules[j]).left)
                    &&& self@.vocab.contains_key(self@.rules[j].right)
                    &&& self@.vocab.contains_key(self@.rules[j].new_id)
                    &&& self@.vocab[self@.rules[j].new_id] == self@.vocab[self@.rules[j].left]
                        + self@.vocab[self@.rules[j].right]
                } by {
                    let rule = start@.rules[j];
                    assert(start@.vocab.contains_key(rule.left));
                    assert(start@.vocab.contains_key(rule.right));
                    assert(start@.vocab.contains_key(rule.new_id));
                    assert(self.vocab@[rule.left] == start.vocab@[rule.left]);
                    assert(self.vocab@[rule.right] == start.vocab@[rule.right]);
                    assert(self.vocab@[rule.new_id] == start.vocab@[rule.new_id]);
                }
            }
        }
        Ok(())
    }
}

} // verus!
