//! The names that most programs need.

pub use crate::bbpe::BBPETokenizer as BBPE;
pub use crate::bpe::Tokenizer as BPE;
pub use crate::traits::{MergeBasedTokenizer, Tokenizer};
use crate::bbpe::{listed_vocab, seeded_vocab};
use crate::bpe::FIRST_MERGE_ID;
use crate::pairs::MergeRule;
use crate::pattern::{pattern_compiles, GPT4_PATTERN};
use crate::tokenizer_base::is_pattern_message;
use vstd::prelude::*;

verus! {

/// A byte-level tokenizer with the default pattern.
pub fn bbpe() -> (outcome: Result<BBPE, String>)
    ensures
        outcome is Ok <==> pattern_compiles(GPT4_PATTERN@),
        outcome matches Ok(tokenizer) ==> {
            &&& tokenizer.wf()
            &&& tokenizer@.pattern == GPT4_PATTERN@
            &&& tokenizer@.rules == Seq::<MergeRule>::empty()
            &&& tokenizer@.base_chars == Seq::<Seq<char>>::empty()
            &&& tokenizer@.next_id == 256
            &&& tokenizer@.vocab == listed_vocab(seeded_vocab(seq![]))
        },
        outcome matches Err(message) ==> is_pattern_message(message@),
{
    BBPE::new_internal()
}

/// A character-level tokenizer with the default pattern.
pub fn bpe() -> (outcome: Result<BPE, String>)
    ensures
        outcome is Ok <==> pattern_compiles(GPT4_PATTERN@),
        outcome matches Ok(tokenizer) ==> {
            &&& tokenizer.wf()
            &&& tokenizer@.pattern == GPT4_PATTERN@
            &&& tokenizer@.rules == Seq::<MergeRule>::empty()
            &&& tokenizer@.vocab == Map::<u32, Seq<char>>::empty()
            &&& tokenizer@.next_id == FIRST_MERGE_ID
        },
        outcome matches Err(message) ==> is_pattern_message(message@),
{
    BPE::new()
}

} // verus!
