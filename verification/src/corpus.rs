//! The training corpus: every pre-token once, as a word of ids, with the number
//! of times that it occurs.

use crate::learner::{words_view, MAX_CORPUS_IDS};
use crate::learner_model::{lemma_total_len_nonnegative, total_len};
use crate::word::Word;
use ahash::AHashMap;
use compact_str::CompactString;
use vstd::prelude::*;

verus! {

/// A corpus as mathematics.
#[verifier::ext_equal]
pub struct CorpusModel {
    /// The pre-tokens, each once, in the order of their first occurrence.
    pub tokens: Seq<Seq<char>>,
    /// The ids of each pre-token.
    pub words: Seq<Seq<u32>>,
    /// How often each pre-token occurs.
    pub counts: Seq<int>,
}

/// The corpus without a pre-token.
pub open spec fn empty_corpus() -> CorpusModel {
    CorpusModel { tokens: seq![], words: seq![], counts: seq![] }
}

/// Whether `token` is in `tokens`.
pub open spec fn has_token(tokens: Seq<Seq<char>>, token: Seq<char>) -> bool {
    exists|i: int| 0 <= i < tokens.len() && #[trigger] tokens[i] == token
}

/// The place of `token` in `tokens`.
pub open spec fn token_slot(tokens: Seq<Seq<char>>, token: Seq<char>) -> int {
    choose|i: int| 0 <= i < tokens.len() && #[trigger] tokens[i] == token
}

/// The corpus after one more occurrence of `token`, whose ids are `ids`.
pub open spec fn corpus_add(corpus: CorpusModel, token: Seq<char>, ids: Seq<u32>) -> CorpusModel {
    if has_token(corpus.tokens, token) {
        let slot = token_slot(corpus.tokens, token);
        CorpusModel { counts: corpus.counts.update(slot, corpus.counts[slot] + 1), ..corpus }
    } else {
        CorpusModel {
            tokens: corpus.tokens.push(token),
            words: corpus.words.push(ids),
            counts: corpus.counts.push(1),
        }
    }
}

/// Whether the learner can take the corpus: the words together hold no more ids
/// than it allows, and every count fits 32 bits.
pub open spec fn corpus_fits(corpus: CorpusModel) -> bool {
    &&& total_len(corpus.words) <= MAX_CORPUS_IDS
    &&& forall|i: int| 0 <= i < corpus.counts.len() ==> #[trigger] corpus.counts[i] <= i32::MAX
}

/// No pre-token stands twice, and every pre-token has its word and its count.
pub open spec fn corpus_wf(corpus: CorpusModel) -> bool {
    &&& corpus.words.len() == corpus.tokens.len()
    &&& corpus.counts.len() == corpus.tokens.len()
    &&& forall|i: int, j: int|
        0 <= i < j < corpus.tokens.len() ==> #[trigger] corpus.tokens[i]
            != #[trigger] corpus.tokens[j]
    &&& forall|i: int| 0 <= i < corpus.counts.len() ==> #[trigger] corpus.counts[i] > 0
}

/// Adding keeps a corpus in order; a corpus that does not fit does not fit after
/// more was added.
pub proof fn lemma_corpus_add(corpus: CorpusModel, token: Seq<char>, ids: Seq<u32>)
    requires
        corpus_wf(corpus),
    ensures
        corpus_wf(corpus_add(corpus, token, ids)),
        !corpus_fits(corpus) ==> !corpus_fits(corpus_add(corpus, token, ids)),
{
    let after = corpus_add(corpus, token, ids);
    if has_token(corpus.tokens, token) {
        assert forall|i: int| 0 <= i < after.counts.len() implies #[trigger] after.counts[i]
            > 0 by {
            assert(corpus.counts[i] > 0);
        }
        if !corpus_fits(corpus) && total_len(corpus.words) <= MAX_CORPUS_IDS {
            let i = choose|i: int|
                0 <= i < corpus.counts.len() && !(#[trigger] corpus.counts[i] <= i32::MAX);
            assert(after.counts[i] > i32::MAX);
        }
    } else {
        assert forall|i: int, j: int| 0 <= i < j < after.tokens.len() implies #[trigger] after.tokens[i]
            != #[trigger] after.tokens[j] by {
            if j < corpus.tokens.len() {
                assert(corpus.tokens[i] != corpus.tokens[j]);
            } else {
                assert(corpus.tokens[i] != token);
            }
        }
        assert forall|i: int| 0 <= i < after.counts.len() implies #[trigger] after.counts[i]
            > 0 by {
            if i < corpus.counts.len() {
                assert(corpus.counts[i] > 0);
            }
        }
        assert(after.words.drop_last() =~= corpus.words);
        if !corpus_fits(corpus) && total_len(corpus.words) <= MAX_CORPUS_IDS {
            let i = choose|i: int|
                0 <= i < corpus.counts.len() && !(#[trigger] corpus.counts[i] <= i32::MAX);
            assert(after.counts[i] > i32::MAX);
        }
    }
}

/// A table from pre-tokens to places: a hash map of ahash with the compact
/// strings of compact_str as keys.
#[verifier::external_body]
pub struct TokenTable {
    table: AHashMap<CompactString, usize>,
}

/// What a table from pre-tokens to places holds.
pub uninterp spec fn token_table(table: TokenTable) -> Map<Seq<char>, usize>;

/// `AHashMap::new` of ahash: a table that holds nothing.
#[verifier::external_body]
fn tokens_new() -> (table: TokenTable)
    ensures
        token_table(table) == (Map::<Seq<char>, usize>::empty()),
{
    TokenTable { table: AHashMap::new() }
}

/// `AHashMap::get` of ahash: the place stored under `token`, if there is one.
#[verifier::external_body]
fn tokens_get(table: &TokenTable, token: &str) -> (slot: Option<usize>)
    ensures
        slot is Some <==> token_table(*table).contains_key(token@),
        slot matches Some(i) ==> i == token_table(*table)[token@],
{
    table.table.get(token).copied()
}

/// `AHashMap::insert` of ahash, with the key made by `CompactString::from` of
/// compact_str: `token` now leads to `slot`; nothing else changes.
#[verifier::external_body]
fn tokens_insert(table: &mut TokenTable, token: &str, slot: usize)
    ensures
        token_table(*final(table)) == token_table(*old(table)).insert(token@, slot),
{
    table.table.insert(CompactString::from(token), slot);
}

/// A corpus under construction.
pub struct Corpus {
    tokens: Ghost<Seq<Seq<char>>>,
    words: Vec<Word<u32>>,
    counts: Vec<i32>,
    index: TokenTable,
    total: usize,
}

impl View for Corpus {
    type V = CorpusModel;

    closed spec fn view(&self) -> CorpusModel {
        CorpusModel {
            tokens: self.tokens@,
            words: words_view(self.words@),
            counts: Seq::new(self.counts@.len(), |i: int| self.counts@[i] as int),
        }
    }
}

impl Corpus {
    /// The invariant: the table leads from every pre-token to its place, and the
    /// corpus fits the learner.
    pub closed spec fn wf(&self) -> bool {
        &&& corpus_wf(self@)
        &&& corpus_fits(self@)
        &&& self.total == total_len(words_view(self.words@))
        &&& forall|token: Seq<char>|
            #![trigger token_table(self.index).contains_key(token)]
            #![trigger has_token(self.tokens@, token)]
            token_table(self.index).contains_key(token) <==> has_token(self.tokens@, token)
        &&& forall|i: int|
            0 <= i < self.tokens@.len() ==> token_table(self.index)[#[trigger] self.tokens@[i]] == i
    }

    /// A valid corpus is in order and fits the learner.
    pub proof fn lemma_wf(&self)
        requires
            self.wf(),
        ensures
            corpus_wf(self@),
            corpus_fits(self@),
    {
    }

    /// A corpus without pre-tokens.
    pub fn new() -> (corpus: Self)
        ensures
            corpus.wf(),
            corpus@ == empty_corpus(),
    {
        let corpus = Corpus {
            tokens: Ghost(Seq::empty()),
            words: Vec::new(),
            counts: Vec::new(),
            index: tokens_new(),
            total: 0,
        };
        assert(corpus@ =~= empty_corpus());
        corpus
    }

    /// The place of `token`, if the corpus holds it.
    pub fn find(&self, token: &str) -> (slot: Option<usize>)
        requires
            self.wf(),
        ensures
            slot is Some <==> has_token(self@.tokens, token@),
            slot matches Some(i) ==> i == token_slot(self@.tokens, token@) && i
                < self@.tokens.len(),
    {
        let slot = tokens_get(&self.index, token);
        proof {
            assert(token_table(self.index).contains_key(token@) <==> has_token(
                self.tokens@,
                token@,
            ));
            if has_token(self.tokens@, token@) {
                let s = token_slot(self.tokens@, token@);
                assert(token_table(self.index)[self.tokens@[s]] == s);
            }
        }
        slot
    }

    /// Counts one more occurrence of the pre-token at `slot`. Returns `false`, and
    /// changes nothing, where the count would leave the range of 32 bits.
    pub fn bump(&mut self, slot: usize) -> (done: bool)
        requires
            old(self).wf(),
            slot < old(self)@.tokens.len(),
        ensures
            final(self).wf() || !done,
            done ==> final(self)@ == corpus_add(old(self)@, old(self)@.tokens[slot as int], seq![]),
            !done ==> *final(self) == *old(self) && !corpus_fits(
                corpus_add(old(self)@, old(self)@.tokens[slot as int], seq![]),
            ),
    {
        let ghost before = *self;
        let ghost token = self.tokens@[slot as int];
        proof {
            assert(has_token(self.tokens@, token));
            let s = token_slot(self.tokens@, token);
            if s < slot {
                assert(self@.tokens[s] != self@.tokens[slot as int]);
            }
            if slot < s {
                assert(self@.tokens[slot as int] != self@.tokens[s]);
            }
        }
        let count = self.counts[slot];
        if count == i32::MAX {
            proof {
                let after = corpus_add(before@, token, seq![]);
                assert(after.counts[slot as int] == before@.counts[slot as int] + 1);
            }
            return false;
        }
        self.counts.set(slot, count + 1);
        proof {
            let after = corpus_add(before@, token, seq![]);
            assert(self@.counts =~= after.counts);
            assert(self@ =~= after);
            lemma_corpus_add(before@, token, seq![]);
            assert forall|i: int| 0 <= i < self@.counts.len() implies #[trigger] self@.counts[i]
                <= i32::MAX by {}
        }
        true
    }

    /// Adds a pre-token that the corpus does not hold yet, with its ids. Returns
    /// `false`, and changes nothing, where the words would then hold more ids
    /// than the learner allows.
    pub fn push(&mut self, token: &str, ids: Vec<u32>) -> (done: bool)
        requires
            old(self).wf(),
            !has_token(old(self)@.tokens, token@),
        ensures
            final(self).wf() || !done,
            done ==> final(self)@ == corpus_add(old(self)@, token@, ids@),
            !done ==> *final(self) == *old(self) && !corpus_fits(
                corpus_add(old(self)@, token@, ids@),
            ),
    {
        let ghost before = *self;
        let ghost after = corpus_add(before@, token@, ids@);
        proof {
            assert(after.words.drop_last() =~= before@.words);
            lemma_total_len_nonnegative(before@.words);
        }
        if ids.len() > MAX_CORPUS_IDS - self.total {
            return false;
        }
        let slot = self.words.len();
        self.total = self.total + ids.len();
        self.words.push(Word::new(ids));
        self.counts.push(1);
        tokens_insert(&mut self.index, token, slot);
        self.tokens = Ghost(before.tokens@.push(token@));
        proof {
            assert(self@.words =~= after.words);
            assert(self@.counts =~= after.counts);
            assert(self@ =~= after);
            lemma_corpus_add(before@, token@, ids@);
            assert forall|i: int| 0 <= i < self@.counts.len() implies #[trigger] self@.counts[i]
                <= i32::MAX by {}
            assert forall|other: Seq<char>|
                #![trigger token_table(self.index).contains_key(other)]
                #![trigger has_token(self.tokens@, other)]
                token_table(self.index).contains_key(other) <==> has_token(
                    self.tokens@,
                    other,
                ) by {
                if has_token(self.tokens@, other) {
                    let i = token_slot(self.tokens@, other);
                    if i < slot {
                        assert(before.tokens@[i] == other);
                        assert(has_token(before.tokens@, other));
                    }
                }
                if has_token(before.tokens@, other) {
                    let i = token_slot(before.tokens@, other);
                    assert(self.tokens@[i] == other);
                }
                if other == token@ {
                    assert(self.tokens@[slot as int] == other);
                }
            }
            assert forall|i: int| 0 <= i < self.tokens@.len() implies token_table(
                self.index,
            )[#[trigger] self.tokens@[i]] == i by {
                if i < slot {
                    assert(before.tokens@[i] == self.tokens@[i]);
                    assert(has_token(before.tokens@, before.tokens@[i]));
                }
            }
        }
        true
    }

    /// The number of pre-tokens.
    pub fn len(&self) -> (n: usize)
        requires
            self.wf(),
        ensures
            n == self@.tokens.len(),
    {
        self.words.len()
    }

    /// The words and their counts, for the learner.
    pub fn into_parts(self) -> (parts: (Vec<Word<u32>>, Vec<i32>))
        requires
            self.wf(),
        ensures
            words_view(parts.0@) == self@.words,
            parts.1@.len() == parts.0@.len(),
            forall|i: int| 0 <= i < parts.1@.len() ==> (#[trigger] parts.1@[i]) == self@.counts[i],
            total_len(words_view(parts.0@)) <= MAX_CORPUS_IDS,
    {
        (self.words, self.counts)
    }
}

} // verus!
