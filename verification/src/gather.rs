//! Gathering a corpus: texts are cut into pre-tokens, and every pre-token is
//! counted under the ids with which it enters training.

use crate::corpus::{
    corpus_add, corpus_fits, corpus_wf, empty_corpus, lemma_corpus_add, Corpus, CorpusModel,
};
use crate::corpus_size::{lemma_small_concat, small_tokens, texts_len};
use crate::learner_model::word_below;
use crate::pattern::{pre_tokenize, pre_tokens, strings_view, Pattern};
use vstd::prelude::*;
use vstd::std_specs::iter::IteratorSpec;
use vstd::utf8::encode_utf8;

verus! {

/// How a pre-token becomes ids before any merge.
#[derive(Debug, Clone, Copy, PartialEq, Eq, Structural)]
pub enum IdScheme {
    /// Every byte of the pre-token in UTF-8 is its own id.
    Bytes,
    /// Every character of the pre-token is the id of its scalar value.
    Scalars,
}

/// The ids of bytes: every byte is its own id.
pub open spec fn byte_ids(bytes: Seq<u8>) -> Seq<u32> {
    Seq::new(bytes.len(), |i: int| bytes[i] as u32)
}

/// The ids of characters: every character is the id of its scalar value.
pub open spec fn char_ids(chars: Seq<char>) -> Seq<u32> {
    Seq::new(chars.len(), |i: int| chars[i] as u32)
}

/// The ids of a pre-token before any merge.
pub open spec fn initial_ids(scheme: IdScheme, token: Seq<char>) -> Seq<u32> {
    match scheme {
        IdScheme::Bytes => byte_ids(encode_utf8(token)),
        IdScheme::Scalars => char_ids(token),
    }
}

/// The bound below which all ids of a scheme lie.
pub open spec fn id_limit(scheme: IdScheme) -> int {
    match scheme {
        IdScheme::Bytes => 256,
        IdScheme::Scalars => 0x110000,
    }
}

/// The pre-tokens of all texts, first text first.
pub open spec fn all_tokens(pattern: Seq<char>, texts: Seq<Seq<char>>) -> Seq<Seq<char>>
    decreases texts.len(),
{
    if texts.len() == 0 {
        seq![]
    } else {
        all_tokens(pattern, texts.drop_last()) + pre_tokens(pattern, texts.last())
    }
}

/// The corpus of the pre-tokens: each once, in the order of first occurrence,
/// with its ids and the number of its occurrences.
pub open spec fn corpus_of(scheme: IdScheme, tokens: Seq<Seq<char>>) -> CorpusModel
    decreases tokens.len(),
{
    if tokens.len() == 0 {
        empty_corpus()
    } else {
        corpus_add(
            corpus_of(scheme, tokens.drop_last()),
            tokens.last(),
            initial_ids(scheme, tokens.last()),
        )
    }
}

/// The counts as the learner takes them.
pub open spec fn weights_of(counts: Seq<int>) -> Seq<i32> {
    Seq::new(counts.len(), |i: int| counts[i] as i32)
}

/// The ids with which a pre-token enters training lie below the limit of the
/// scheme.
pub proof fn lemma_initial_ids(scheme: IdScheme, token: Seq<char>)
    ensures
        word_below(initial_ids(scheme, token), id_limit(scheme)),
{
    broadcast use vstd::utf8::char_is_scalar;

    let ids = initial_ids(scheme, token);
    assert forall|k: int| 0 <= k < ids.len() implies (#[trigger] ids[k]) < id_limit(scheme) by {
        match scheme {
            IdScheme::Bytes => {},
            IdScheme::Scalars => {
                vstd::utf8::char_is_scalar(token[k]);
                assert(vstd::utf8::is_scalar(token[k] as u32));
            },
        }
    }
}

/// The corpus of any pre-tokens is in order; every word of it is the ids of its
/// pre-token, which lie below the limit of the scheme.
pub proof fn lemma_corpus_of(scheme: IdScheme, tokens: Seq<Seq<char>>)
    ensures
        corpus_wf(corpus_of(scheme, tokens)),
        forall|i: int|
            0 <= i < corpus_of(scheme, tokens).words.len() ==> (#[trigger] corpus_of(
                scheme,
                tokens,
            ).words[i]) == initial_ids(scheme, corpus_of(scheme, tokens).tokens[i]),
        forall|i: int|
            0 <= i < corpus_of(scheme, tokens).words.len() ==> word_below(
                #[trigger] corpus_of(scheme, tokens).words[i],
                id_limit(scheme),
            ),
    decreases tokens.len(),
{
    if tokens.len() > 0 {
        lemma_corpus_of(scheme, tokens.drop_last());
        let prior = corpus_of(scheme, tokens.drop_last());
        lemma_corpus_add(prior, tokens.last(), initial_ids(scheme, tokens.last()));
        let after = corpus_of(scheme, tokens);
        assert forall|i: int| 0 <= i < after.words.len() implies (#[trigger] after.words[i])
            == initial_ids(scheme, after.tokens[i]) && word_below(
            after.words[i],
            id_limit(scheme),
        ) by {
            if i < prior.words.len() {
                assert(prior.words[i] == initial_ids(scheme, prior.tokens[i]));
            }
            lemma_initial_ids(scheme, after.tokens[i]);
        }
    }
}

/// The pre-tokens of texts in a row are those of the first texts and then those
/// of the others.
pub proof fn lemma_all_tokens_concat(pattern: Seq<char>, a: Seq<Seq<char>>, b: Seq<Seq<char>>)
    ensures
        all_tokens(pattern, a + b) == all_tokens(pattern, a) + all_tokens(pattern, b),
    decreases b.len(),
{
    if b.len() == 0 {
        assert(a + b =~= a);
        assert(all_tokens(pattern, a) + all_tokens(pattern, b) =~= all_tokens(pattern, a));
    } else {
        assert((a + b).drop_last() =~= a + b.drop_last());
        lemma_all_tokens_concat(pattern, a, b.drop_last());
        assert(all_tokens(pattern, a + b) =~= all_tokens(pattern, a) + all_tokens(pattern, b));
    }
}

/// The ids with which `token` enters training.
pub fn initial_ids_of(scheme: IdScheme, token: &str) -> (ids: Vec<u32>)
    ensures
        ids@ == initial_ids(scheme, token@),
{
    let mut ids: Vec<u32> = Vec::new();
    match scheme {
        IdScheme::Bytes => {
            let bytes = token.as_bytes();
            let mut i: usize = 0;
            while i < bytes.len()
                invariant
                    i <= bytes@.len(),
                    bytes@ == encode_utf8(token@),
                    ids@.len() == i,
                    forall|k: int| 0 <= k < i ==> ids@[k] == bytes@[k] as u32,
                decreases bytes.len() - i,
            {
                ids.push(bytes[i] as u32);
                i += 1;
            }
            assert(ids@ =~= initial_ids(scheme, token@));
        },
        IdScheme::Scalars => {
            broadcast use vstd::string::axiom_spec_iter;

            for c in it: token.chars()
                invariant
                    it.seq() == token@,
                    ids@.len() == it.index(),
                    forall|k: int| 0 <= k < it.index() ==> ids@[k] == token@[k] as u32,
            {
                ids.push(c as u32);
            }
            assert(ids@ =~= initial_ids(scheme, token@));
        },
    }
    ids
}

/// A corpus that grows text by text. Its view is the pre-tokens seen so far.
pub struct Gatherer {
    corpus: Corpus,
    scheme: IdScheme,
    seen: Ghost<Seq<Seq<char>>>,
    failed: bool,
}

impl View for Gatherer {
    type V = Seq<Seq<char>>;

    closed spec fn view(&self) -> Seq<Seq<char>> {
        self.seen@
    }
}

impl Gatherer {
    /// The invariant: the corpus is that of the pre-tokens seen, unless the
    /// learner cannot take that one.
    pub closed spec fn wf(&self) -> bool {
        &&& !self.failed ==> self.corpus.wf() && self.corpus@ == corpus_of(self.scheme, self.seen@)
        &&& self.failed ==> !corpus_fits(corpus_of(self.scheme, self.seen@))
    }

    /// The scheme of the gatherer.
    pub closed spec fn scheme(&self) -> IdScheme {
        self.scheme
    }

    /// A gatherer that has seen nothing.
    pub fn new(scheme: IdScheme) -> (gatherer: Self)
        ensures
            gatherer.wf(),
            gatherer.scheme() == scheme,
            gatherer@ == Seq::<Seq<char>>::empty(),
    {
        Gatherer { corpus: Corpus::new(), scheme, seen: Ghost(Seq::empty()), failed: false }
    }

    /// Counts the pre-tokens of `text`.
    pub fn add_text(&mut self, pattern: &Pattern, text: &str)
        requires
            old(self).wf(),
        ensures
            final(self).wf(),
            final(self).scheme() == old(self).scheme(),
            final(self)@ == old(self)@ + pre_tokens(pattern@, text@),
            small_tokens(pre_tokens(pattern@, text@), text@.len() as int),
    {
        let tokens = pre_tokenize(pattern, text);
        let ghost here = strings_view(tokens@);
        proof {
            assert forall|k: int| 0 <= k < here.len() implies (#[trigger] here[k]).len() > 0 by {
                assert(tokens@[k]@.len() > 0);
            }
        }
        let ghost earlier = self.seen@;
        let mut j: usize = 0;
        proof {
            assert(earlier + here.take(0) =~= earlier);
        }
        while j < tokens.len()
            invariant
                j <= tokens@.len(),
                here == strings_view(tokens@),
                self.scheme == old(self).scheme,
                self.wf(),
                self.seen@ == earlier + here.take(j as int),
            decreases tokens.len() - j,
        {
            let token = tokens[j].as_str();
            let ghost done = self.seen@;
            let ghost next = earlier + here.take(j + 1);
            proof {
                assert(next.drop_last() =~= done);
                assert(next.last() == token@);
                lemma_corpus_of(self.scheme, done);
                lemma_corpus_add(
                    corpus_of(self.scheme, done),
                    token@,
                    initial_ids(self.scheme, token@),
                );
            }
            if !self.failed {
                let ghost held = self.corpus@;
                let added = match self.corpus.find(token) {
                    Some(slot) => {
                        proof {
                            assert(held.tokens[slot as int] == token@);
                            assert(corpus_add(held, token@, seq![]) == corpus_add(
                                held,
                                token@,
                                initial_ids(self.scheme, token@),
                            ));
                        }
                        self.corpus.bump(slot)
                    },
                    None => {
                        let ids = initial_ids_of(self.scheme, token);
                        self.corpus.push(token, ids)
                    },
                };
                if !added {
                    self.failed = true;
                }
            }
            self.seen = Ghost(next);
            j += 1;
        }
        proof {
            assert(here.take(tokens@.len() as int) =~= here);
        }
    }

    /// Counts the pre-tokens of every text of `texts`.
    pub fn add_texts(&mut self, pattern: &Pattern, texts: &Vec<String>)
        requires
            old(self).wf(),
        ensures
            final(self).wf(),
            final(self).scheme() == old(self).scheme(),
            final(self)@ == old(self)@ + all_tokens(pattern@, strings_view(texts@)),
            small_tokens(
                all_tokens(pattern@, strings_view(texts@)),
                texts_len(strings_view(texts@)),
            ),
    {
        let ghost all = strings_view(texts@);
        let ghost earlier = self.seen@;
        let mut i: usize = 0;
        proof {
            assert(all.take(0) =~= Seq::<Seq<char>>::empty());
            assert(earlier + all_tokens(pattern@, all.take(0)) =~= earlier);
        }
        while i < texts.len()
            invariant
                i <= texts@.len(),
                all == strings_view(texts@),
                self.scheme() == old(self).scheme(),
                self.wf(),
                self@ == earlier + all_tokens(pattern@, all.take(i as int)),
                small_tokens(all_tokens(pattern@, all.take(i as int)), texts_len(all.take(i as int))),
            decreases texts.len() - i,
        {
            let ghost before = all_tokens(pattern@, all.take(i as int));
            let ghost bound = texts_len(all.take(i as int));
            proof {
                assert(all.take(i + 1).drop_last() =~= all.take(i as int));
                assert(all.take(i + 1).last() == texts@[i as int]@);
                assert(earlier + all_tokens(pattern@, all.take(i as int)) + pre_tokens(
                    pattern@,
                    texts@[i as int]@,
                ) =~= earlier + all_tokens(pattern@, all.take(i + 1)));
            }
            self.add_text(pattern, texts[i].as_str());
            proof {
                lemma_small_concat(
                    before,
                    bound,
                    pre_tokens(pattern@, texts@[i as int]@),
                    texts@[i as int]@.len() as int,
                );
            }
            i += 1;
        }
        proof {
            assert(all.take(texts@.len() as int) =~= all);
        }
    }

    /// The corpus of the pre-tokens seen, or `None` where the learner cannot take
    /// it.
    pub fn finish(self) -> (outcome: Option<Corpus>)
        requires
            self.wf(),
        ensures
            outcome is Some <==> corpus_fits(corpus_of(self.scheme(), self@)),
            outcome matches Some(corpus) ==> corpus.wf() && corpus@ == corpus_of(
                self.scheme(),
                self@,
            ),
    {
        if self.failed {
            None
        } else {
            proof {
                self.corpus.lemma_wf();
            }
            Some(self.corpus)
        }
    }
}

} // verus!
