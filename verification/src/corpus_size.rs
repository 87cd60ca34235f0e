//! How large a corpus can get: the pre-tokens of a text hold no more characters
//! than the text, so that texts of bounded size give a corpus that the learner
//! can take.

use crate::corpus::{corpus_add, corpus_fits, corpus_wf, has_token, lemma_corpus_add, token_slot};
use crate::gather::{corpus_of, initial_ids, IdScheme};
use crate::learner::MAX_CORPUS_IDS;
use crate::learner_model::{lemma_total_len_nonnegative, total_len};
use crate::pattern::total_chars;
use vstd::prelude::*;
use vstd::utf8::encode_utf8;

verus! {

/// Whether the pre-tokens are not empty and hold no more than `bound`
/// characters together.
pub open spec fn small_tokens(tokens: Seq<Seq<char>>, bound: int) -> bool {
    &&& total_chars(tokens) <= bound
    &&& forall|k: int| 0 <= k < tokens.len() ==> (#[trigger] tokens[k]).len() > 0
}

/// The number of characters of all texts together.
pub open spec fn texts_len(texts: Seq<Seq<char>>) -> int {
    total_chars(texts) as int
}

/// The characters of pieces in a row are those of the first pieces and those of
/// the others.
pub proof fn lemma_total_chars_concat(a: Seq<Seq<char>>, b: Seq<Seq<char>>)
    ensures
        total_chars(a + b) == total_chars(a) + total_chars(b),
    decreases b.len(),
{
    if b.len() == 0 {
        assert(a + b =~= a);
    } else {
        assert((a + b).drop_last() =~= a + b.drop_last());
        assert((a + b).last() == b.last());
        lemma_total_chars_concat(a, b.drop_last());
    }
}

/// Small pre-tokens in a row are small.
pub proof fn lemma_small_concat(a: Seq<Seq<char>>, x: int, b: Seq<Seq<char>>, y: int)
    requires
        small_tokens(a, x),
        small_tokens(b, y),
    ensures
        small_tokens(a + b, x + y),
{
    lemma_total_chars_concat(a, b);
    assert forall|k: int| 0 <= k < (a + b).len() implies (#[trigger] (a + b)[k]).len() > 0 by {
        if k < a.len() {
            assert((a + b)[k] == a[k]);
        } else {
            assert((a + b)[k] == b[k - a.len()]);
        }
    }
}

/// Pre-tokens that are not empty are no more than their characters.
pub proof fn lemma_tokens_count(tokens: Seq<Seq<char>>)
    requires
        forall|k: int| 0 <= k < tokens.len() ==> (#[trigger] tokens[k]).len() > 0,
    ensures
        tokens.len() <= total_chars(tokens),
    decreases tokens.len(),
{
    if tokens.len() > 0 {
        assert forall|k: int| 0 <= k < tokens.drop_last().len() implies (
        #[trigger] tokens.drop_last()[k]).len() > 0 by {
            assert(tokens[k].len() > 0);
        }
        lemma_tokens_count(tokens.drop_last());
        assert(tokens.last() == tokens[tokens.len() - 1]);
    }
}

/// A text in UTF-8 has four bytes for a character at most.
pub proof fn lemma_utf8_len(chars: Seq<char>)
    ensures
        encode_utf8(chars).len() <= 4 * chars.len(),
    decreases chars.len(),
{
    if chars.len() > 0 {
        lemma_utf8_len(chars.drop_first());
    }
}

/// A pre-token enters training with four ids for a character at most.
pub proof fn lemma_ids_len(scheme: IdScheme, token: Seq<char>)
    ensures
        initial_ids(scheme, token).len() <= 4 * token.len(),
{
    lemma_utf8_len(token);
}

/// The corpus of pre-tokens holds four ids for a character of the pre-tokens at
/// most, and counts no pre-token more often than there are pre-tokens.
pub proof fn lemma_corpus_size(scheme: IdScheme, tokens: Seq<Seq<char>>)
    ensures
        corpus_wf(corpus_of(scheme, tokens)),
        0 <= total_len(corpus_of(scheme, tokens).words) <= 4 * total_chars(tokens),
        forall|i: int|
            0 <= i < corpus_of(scheme, tokens).counts.len() ==> #[trigger] corpus_of(
                scheme,
                tokens,
            ).counts[i] <= tokens.len(),
    decreases tokens.len(),
{
    let after = corpus_of(scheme, tokens);
    if tokens.len() > 0 {
        let prior = corpus_of(scheme, tokens.drop_last());
        let token = tokens.last();
        let ids = initial_ids(scheme, token);
        lemma_corpus_size(scheme, tokens.drop_last());
        lemma_corpus_add(prior, token, ids);
        lemma_ids_len(scheme, token);
        assert(after == corpus_add(prior, token, ids));
        if has_token(prior.tokens, token) {
            let slot = token_slot(prior.tokens, token);
            assert forall|i: int| 0 <= i < after.counts.len() implies #[trigger] after.counts[i]
                <= tokens.len() by {
                assert(prior.counts[i] <= tokens.len() - 1);
            }
        } else {
            assert(after.words.drop_last() =~= prior.words);
            assert forall|i: int| 0 <= i < after.counts.len() implies #[trigger] after.counts[i]
                <= tokens.len() by {
                if i < prior.counts.len() {
                    assert(prior.counts[i] <= tokens.len() - 1);
                }
            }
        }
    }
    lemma_total_len_nonnegative(after.words);
}

/// The learner can take the corpus of small pre-tokens: of pre-tokens that are
/// not empty and hold, four times over, no more characters than the learner
/// takes ids.
pub proof fn lemma_small_corpus_fits(scheme: IdScheme, tokens: Seq<Seq<char>>, bound: int)
    requires
        small_tokens(tokens, bound),
        4 * bound <= MAX_CORPUS_IDS,
    ensures
        corpus_fits(corpus_of(scheme, tokens)),
{
    lemma_corpus_size(scheme, tokens);
    lemma_tokens_count(tokens);
}

} // verus!
