//! Decoding undoes encoding: the law, and what it rests on.

use crate::bbpe::{encode_text, encode_tokens, model_wf, token_ids, BbpeModel};
use crate::bpe::BpeModel;
use crate::corpus::has_token;
use crate::gather::{byte_ids, char_ids, corpus_of, IdScheme};
use crate::merges::{
    greedy_merge, lemma_greedy_merge_spells, lemma_spell_concat, merge_pass, rule_map, spell,
    table_spells,
};
use crate::pairs::{MergeRule, Pair};
use crate::pattern::pre_tokens;
use crate::vocab_store::{all_known, grow_vocab, rules_well_formed};
use vstd::prelude::*;
use vstd::utf8::{decode_utf8, encode_utf8, valid_utf8};

verus! {

/// The pieces written one after the other.
pub open spec fn flatten(pieces: Seq<Seq<char>>) -> Seq<char>
    decreases pieces.len(),
{
    if pieces.len() == 0 {
        seq![]
    } else {
        flatten(pieces.drop_last()) + pieces.last()
    }
}

/// What the table writes for a pair, some rule says.
pub proof fn lemma_rule_map(rules: Seq<MergeRule>, pair: Pair)
    requires
        rule_map(rules).contains_key(pair),
    ensures
        exists|i: int|
            0 <= i < rules.len() && (#[trigger] rules[i]).left == pair.0 && rules[i].right
                == pair.1 && rules[i].new_id == rule_map(rules)[pair],
    decreases rules.len(),
{
    if rules.len() > 0 {
        let last = rules.last();
        if (last.left, last.right) == pair {
            assert(rules[rules.len() - 1] == last);
        } else {
            lemma_rule_map(rules.drop_last(), pair);
            let i = choose|i: int|
                0 <= i < rules.drop_last().len() && (#[trigger] rules.drop_last()[i]).left
                    == pair.0 && rules.drop_last()[i].right == pair.1
                    && rules.drop_last()[i].new_id == rule_map(rules.drop_last())[pair];
            assert(rules[i] == rules.drop_last()[i]);
        }
    }
}

/// Well-formed rules make a table that spells its pairs and writes known ids.
pub proof fn lemma_rules_spell<T>(vocab: Map<u32, Seq<T>>, rules: Seq<MergeRule>)
    requires
        rules_well_formed(vocab, rules),
    ensures
        table_spells(rule_map(rules), vocab),
        forall|pair: Pair| #[trigger]
            rule_map(rules).contains_key(pair) ==> vocab.contains_key(rule_map(rules)[pair]),
{
    assert forall|pair: Pair| #[trigger] rule_map(rules).contains_key(pair) implies vocab[rule_map(
        rules,
    )[pair]] == vocab[pair.0] + vocab[pair.1] && vocab.contains_key(rule_map(rules)[pair]) by {
        lemma_rule_map(rules, pair);
    }
}

/// A pass over known ids with a table of known ids writes known ids.
pub proof fn lemma_merge_pass_known<T>(vocab: Map<u32, Seq<T>>, ids: Seq<u32>, table: Map<Pair, u32>)
    requires
        all_known(vocab, ids),
        forall|pair: Pair| #[trigger] table.contains_key(pair) ==> vocab.contains_key(table[pair]),
    ensures
        all_known(vocab, merge_pass(ids, table)),
    decreases ids.len(),
{
    if ids.len() < 2 {
    } else if table.contains_key((ids[0], ids[1])) {
        assert forall|i: int| 0 <= i < ids.skip(2).len() implies vocab.contains_key(
            #[trigger] ids.skip(2)[i],
        ) by {
            assert(vocab.contains_key(ids[i + 2]));
        }
        lemma_merge_pass_known(vocab, ids.skip(2), table);
        let rest = merge_pass(ids.skip(2), table);
        let out = merge_pass(ids, table);
        assert forall|i: int| 0 <= i < out.len() implies vocab.contains_key(#[trigger] out[i]) by {
            if i > 0 {
                assert(out[i] == rest[i - 1]);
            }
        }
    } else {
        assert forall|i: int| 0 <= i < ids.skip(1).len() implies vocab.contains_key(
            #[trigger] ids.skip(1)[i],
        ) by {
            assert(vocab.contains_key(ids[i + 1]));
        }
        lemma_merge_pass_known(vocab, ids.skip(1), table);
        let rest = merge_pass(ids.skip(1), table);
        let out = merge_pass(ids, table);
        assert forall|i: int| 0 <= i < out.len() implies vocab.contains_key(#[trigger] out[i]) by {
            if i > 0 {
                assert(out[i] == rest[i - 1]);
            } else {
                assert(vocab.contains_key(ids[0]));
            }
        }
    }
}

/// The same for greedy merging.
pub proof fn lemma_greedy_merge_known<T>(
    vocab: Map<u32, Seq<T>>,
    ids: Seq<u32>,
    table: Map<Pair, u32>,
)
    requires
        all_known(vocab, ids),
        forall|pair: Pair| #[trigger] table.contains_key(pair) ==> vocab.contains_key(table[pair]),
    ensures
        all_known(vocab, greedy_merge(ids, table)),
    decreases ids.len(),
{
    let next = merge_pass(ids, table);
    lemma_merge_pass_known(vocab, ids, table);
    if next.len() < ids.len() {
        lemma_greedy_merge_known(vocab, next, table);
    }
}

/// Where every byte is its own token, the ids of bytes spell the bytes.
pub proof fn lemma_spell_bytes(vocab: Map<u32, Seq<u8>>, bytes: Seq<u8>)
    requires
        forall|id: u32| id < 256 ==> #[trigger] vocab[id] == seq![id as u8],
    ensures
        spell(vocab, byte_ids(bytes)) == bytes,
    decreases bytes.len(),
{
    if bytes.len() == 0 {
        assert(byte_ids(bytes) =~= Seq::<u32>::empty());
    } else {
        let ids = byte_ids(bytes);
        assert(ids.skip(1) =~= byte_ids(bytes.skip(1)));
        lemma_spell_bytes(vocab, bytes.skip(1));
        assert(vocab[ids[0]] == seq![bytes[0]]);
        assert(seq![bytes[0]] + bytes.skip(1) =~= bytes);
    }
}

/// The bytes of two texts in a row are the bytes of the first and then those of
/// the second.
pub proof fn lemma_encode_concat(a: Seq<char>, b: Seq<char>)
    ensures
        encode_utf8(a + b) == encode_utf8(a) + encode_utf8(b),
    decreases a.len(),
{
    if a.len() == 0 {
        assert(a + b =~= b);
        assert(encode_utf8(a) =~= Seq::<u8>::empty());
        assert(encode_utf8(a) + encode_utf8(b) =~= encode_utf8(b));
    } else {
        assert((a + b).drop_first() =~= a.drop_first() + b);
        lemma_encode_concat(a.drop_first(), b);
        assert((a + b)[0] == a[0]);
        assert(encode_utf8(a + b) =~= encode_utf8(a) + encode_utf8(b));
    }
}

/// The ids of pre-tokens are known and spell the bytes of the pre-tokens in a row.
pub proof fn lemma_encode_tokens(m: BbpeModel, tokens: Seq<Seq<char>>)
    requires
        model_wf(m),
    ensures
        all_known(m.vocab, encode_tokens(tokens, rule_map(m.rules))),
        spell(m.vocab, encode_tokens(tokens, rule_map(m.rules))) == encode_utf8(flatten(tokens)),
    decreases tokens.len(),
{
    let table = rule_map(m.rules);
    lemma_rules_spell(m.vocab, m.rules);
    if tokens.len() > 0 {
        lemma_encode_tokens(m, tokens.drop_last());
        let head = encode_tokens(tokens.drop_last(), table);
        let ids = token_ids(tokens.last());
        let merged = greedy_merge(ids, table);
        assert(all_known(m.vocab, ids)) by {
            assert forall|i: int| 0 <= i < ids.len() implies m.vocab.contains_key(
                #[trigger] ids[i],
            ) by {
                assert(ids[i] < 256);
            }
        }
        lemma_greedy_merge_known(m.vocab, ids, table);
        lemma_greedy_merge_spells(m.vocab, ids, table);
        lemma_spell_bytes(m.vocab, encode_utf8(tokens.last()));
        lemma_spell_concat(m.vocab, head, merged);
        lemma_encode_concat(flatten(tokens.drop_last()), tokens.last());
        assert forall|i: int| 0 <= i < (head + merged).len() implies m.vocab.contains_key(
            #[trigger] (head + merged)[i],
        ) by {
            if i < head.len() {
                assert(m.vocab.contains_key(head[i]));
            } else {
                assert(m.vocab.contains_key(merged[i - head.len()]));
            }
        }
    } else {
        assert(encode_utf8(flatten(tokens)) =~= Seq::<u8>::empty());
    }
}

/// Decoding undoes encoding. For every valid model and every text that the
/// pre-tokens cover without a gap, the ids of the text have tokens, and the
/// bytes of these tokens are the text in UTF-8, so that decoding gives the text
/// back.
pub proof fn lemma_round_trip(m: BbpeModel, text: Seq<char>)
    requires
        model_wf(m),
        flatten(pre_tokens(m.pattern, text)) == text,
    ensures
        all_known(m.vocab, encode_text(m, text)),
        spell(m.vocab, encode_text(m, text)) == encode_utf8(text),
        valid_utf8(spell(m.vocab, encode_text(m, text))),
        decode_utf8(spell(m.vocab, encode_text(m, text))) == text,
{
    lemma_encode_tokens(m, pre_tokens(m.pattern, text));
    vstd::utf8::encode_utf8_valid_utf8(text);
    vstd::utf8::encode_utf8_decode_utf8(text);
}

/// Whether the vocabulary knows every character of `text`.
pub open spec fn knows_chars(vocab: Map<u32, Seq<char>>, text: Seq<char>) -> bool {
    forall|i: int| 0 <= i < text.len() ==> vocab.contains_key(#[trigger] text[i] as u32)
}

/// Where every known character is its own token, the ids of known characters
/// spell the characters.
pub proof fn lemma_spell_chars(m: BpeModel, chars: Seq<char>)
    requires
        crate::bpe::model_wf(m),
        knows_chars(m.vocab, chars),
    ensures
        all_known(m.vocab, char_ids(chars)),
        spell(m.vocab, char_ids(chars)) == chars,
    decreases chars.len(),
{
    let ids = char_ids(chars);
    assert forall|i: int| 0 <= i < ids.len() implies m.vocab.contains_key(#[trigger] ids[i]) by {
        assert(m.vocab.contains_key(chars[i] as u32));
    }
    if chars.len() > 0 {
        let rest = chars.skip(1);
        assert forall|i: int| 0 <= i < rest.len() implies m.vocab.contains_key(
            #[trigger] rest[i] as u32,
        ) by {
            assert(rest[i] == chars[i + 1]);
        }
        assert(ids.skip(1) =~= char_ids(rest));
        lemma_spell_chars(m, rest);
        assert(m.vocab.contains_key(chars[0] as u32));
        assert(ids[0] == chars[0] as u32);
        vstd::utf8::char_is_scalar(chars[0]);
        vstd::utf8::char_u32_cast(chars[0], ids[0]);
        assert(ids[0] < crate::bpe::FIRST_MERGE_ID);
        assert(m.vocab[ids[0]] == seq![ids[0] as char]);
        assert(ids[0] as char == chars[0]);
        assert(seq![chars[0]] + rest =~= chars);
    }
}

/// The ids of pre-tokens of known characters are known and spell the pre-tokens
/// in a row.
pub proof fn lemma_encode_tokens_chars(m: BpeModel, tokens: Seq<Seq<char>>)
    requires
        crate::bpe::model_wf(m),
        knows_chars(m.vocab, flatten(tokens)),
    ensures
        all_known(m.vocab, crate::bpe::encode_tokens(tokens, rule_map(m.rules))),
        spell(m.vocab, crate::bpe::encode_tokens(tokens, rule_map(m.rules))) == flatten(tokens),
    decreases tokens.len(),
{
    let table = rule_map(m.rules);
    lemma_rules_spell(m.vocab, m.rules);
    if tokens.len() > 0 {
        let front = flatten(tokens.drop_last());
        let last = tokens.last();
        assert forall|i: int| 0 <= i < front.len() implies m.vocab.contains_key(
            #[trigger] front[i] as u32,
        ) by {
            assert(flatten(tokens)[i] == front[i]);
        }
        assert forall|i: int| 0 <= i < last.len() implies m.vocab.contains_key(
            #[trigger] last[i] as u32,
        ) by {
            assert(flatten(tokens)[front.len() + i] == last[i]);
        }
        lemma_encode_tokens_chars(m, tokens.drop_last());
        let head = crate::bpe::encode_tokens(tokens.drop_last(), table);
        let ids = char_ids(last);
        let merged = greedy_merge(ids, table);
        lemma_spell_chars(m, last);
        lemma_greedy_merge_known(m.vocab, ids, table);
        lemma_greedy_merge_spells(m.vocab, ids, table);
        lemma_spell_concat(m.vocab, head, merged);
        assert forall|i: int| 0 <= i < (head + merged).len() implies m.vocab.contains_key(
            #[trigger] (head + merged)[i],
        ) by {
            if i < head.len() {
                assert(m.vocab.contains_key(head[i]));
            } else {
                assert(m.vocab.contains_key(merged[i - head.len()]));
            }
        }
    }
}

/// Decoding undoes encoding at the level of characters. For every valid model
/// and every text that the pre-tokens cover without a gap and whose characters
/// the vocabulary knows, the ids of the text have tokens, and these tokens in a
/// row are the text.
pub proof fn lemma_round_trip_chars(m: BpeModel, text: Seq<char>)
    requires
        crate::bpe::model_wf(m),
        flatten(pre_tokens(m.pattern, text)) == text,
        knows_chars(m.vocab, text),
    ensures
        all_known(m.vocab, crate::bpe::encode_text(m, text)),
        spell(m.vocab, crate::bpe::encode_text(m, text)) == text,
{
    lemma_encode_tokens_chars(m, pre_tokens(m.pattern, text));
}

/// Every pre-token of a corpus has its place among the tokens of the corpus.
pub proof fn lemma_corpus_holds(scheme: IdScheme, tokens: Seq<Seq<char>>, k: int)
    requires
        0 <= k < tokens.len(),
    ensures
        has_token(corpus_of(scheme, tokens).tokens, tokens[k]),
    decreases tokens.len(),
{
    let prior = corpus_of(scheme, tokens.drop_last());
    let after = corpus_of(scheme, tokens);
    if k < tokens.len() - 1 {
        lemma_corpus_holds(scheme, tokens.drop_last(), k);
        let i = choose|i: int| 0 <= i < prior.tokens.len() && prior.tokens[i] == tokens[k];
        assert(after.tokens[i] == tokens[k]);
    } else if has_token(prior.tokens, tokens.last()) {
        assert(after.tokens == prior.tokens);
    } else {
        assert(after.tokens[prior.tokens.len() as int] == tokens[k]);
    }
}

/// A token that the vocabulary has stays when rules add their tokens.
pub proof fn lemma_grow_keeps<T>(vocab: Map<u32, Seq<T>>, rules: Seq<MergeRule>, id: u32)
    requires
        vocab.contains_key(id),
    ensures
        grow_vocab(vocab, rules).contains_key(id),
    decreases rules.len(),
{
    if rules.len() > 0 {
        lemma_grow_keeps(vocab, rules.drop_last(), id);
    }
}

/// Training makes the characters of its corpus known: after training on
/// pre-tokens, the vocabulary knows every character of every pre-token.
pub proof fn lemma_trained_knows_chars(m: BpeModel, tokens: Seq<Seq<char>>, vocab_size: u32, k: int)
    requires
        0 <= k < tokens.len(),
    ensures
        knows_chars(crate::bpe::trained_on(m, tokens, vocab_size).vocab, tokens[k]),
{
    let corpus = corpus_of(IdScheme::Scalars, tokens);
    let after = crate::bpe::trained_on(m, tokens, vocab_size);
    let seeded = crate::bpe::with_scalars(m.vocab, corpus.words);
    lemma_corpus_holds(IdScheme::Scalars, tokens, k);
    let i = choose|i: int| 0 <= i < corpus.tokens.len() && corpus.tokens[i] == tokens[k];
    crate::gather::lemma_corpus_of(IdScheme::Scalars, tokens);
    assert(corpus.words[i] == char_ids(tokens[k]));
    crate::bpe::lemma_with_scalars(m.vocab, corpus.words);
    assert(all_known(seeded, corpus.words[i]));
    assert forall|j: int| 0 <= j < tokens[k].len() implies after.vocab.contains_key(
        #[trigger] tokens[k][j] as u32,
    ) by {
        assert(corpus.words[i][j] == tokens[k][j] as u32);
        assert(seeded.contains_key(corpus.words[i][j]));
        lemma_grow_keeps(seeded, after.rules, tokens[k][j] as u32);
    }
}

/// Whether the character stands in one of the pre-tokens.
pub open spec fn stands_in(tokens: Seq<Seq<char>>, c: char) -> bool {
    exists|k: int, j: int|
        0 <= k < tokens.len() && 0 <= j < tokens[k].len() && #[trigger] tokens[k][j] == c
}

/// Decoding undoes encoding after training, at the level of characters: where
/// the pre-tokens cover the text and every character of the text stands in a
/// pre-token of the training corpus, the trained model writes ids for the text
/// whose tokens in a row are the text.
pub proof fn lemma_round_trip_trained(
    m: BpeModel,
    tokens: Seq<Seq<char>>,
    vocab_size: u32,
    text: Seq<char>,
)
    requires
        crate::bpe::model_wf(crate::bpe::trained_on(m, tokens, vocab_size)),
        flatten(pre_tokens(m.pattern, text)) == text,
        forall|i: int| 0 <= i < text.len() ==> stands_in(tokens, #[trigger] text[i]),
    ensures
        all_known(
            crate::bpe::trained_on(m, tokens, vocab_size).vocab,
            crate::bpe::encode_text(crate::bpe::trained_on(m, tokens, vocab_size), text),
        ),
        spell(
            crate::bpe::trained_on(m, tokens, vocab_size).vocab,
            crate::bpe::encode_text(crate::bpe::trained_on(m, tokens, vocab_size), text),
        ) == text,
{
    let after = crate::bpe::trained_on(m, tokens, vocab_size);
    assert forall|i: int| 0 <= i < text.len() implies after.vocab.contains_key(
        #[trigger] text[i] as u32,
    ) by {
        assert(stands_in(tokens, text[i]));
        let (k, j) = choose|k: int, j: int|
            0 <= k < tokens.len() && 0 <= j < tokens[k].len() && #[trigger] tokens[k][j]
                == text[i];
        lemma_trained_knows_chars(m, tokens, vocab_size, k);
        assert(after.vocab.contains_key(tokens[k][j] as u32));
    }
    lemma_round_trip_chars(after, text);
}

} // verus!
