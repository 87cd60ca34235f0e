//! Saving and loading the base of a tokenizer: its pattern and its vocabulary
//! of text tokens, one line for each token, with the id written as JSON.

use crate::bbpe_file::{failure_text, fault_text, load_message, LoadError, ModelFault};
use crate::model_file::{
    lemma_parse_render, parse_model, parse_text, printable, render_model, render_text, ModelFile,
    ModelText,
};
use crate::pattern::pattern_compiles;
use crate::text::{
    chars_of, chars_view, decimal, find_last, free_of, is_free_of, last_place, number_of,
    string_from_chars, tail_of,
};
use crate::tokenizer_base::{compile_pattern, TokenizerBase};
use crate::vocab_manager::{one_to_one, without_value, VocabManager};
use vstd::prelude::*;
use vstd::string::StringExecFns;

verus! {

/// `Error` of serde_json: why a value could not be written or read.
#[verifier::external_type_specification]
#[verifier::external_body]
pub struct ExJsonError(serde_json::Error);

/// The id that a text gives when it is read as JSON, if it gives one.
pub uninterp spec fn json_u32(text: Seq<char>) -> Option<u32>;

/// `serde_json::to_string` on an id: the decimal digits of the id. An integer
/// is written into memory, which does not fail.
#[verifier::external_body]
fn json_id_text(id: u32) -> (outcome: Result<String, serde_json::Error>)
    ensures
        outcome is Ok,
        outcome->Ok_0@ == decimal(id as nat),
{
    serde_json::to_string(&id)
}

/// Whether the text is an id in decimal digits, without needless zeros.
pub open spec fn is_decimal_id(text: Seq<char>) -> bool {
    &&& number_of(text) is Some
    &&& number_of(text)->0 <= u32::MAX
    &&& decimal(number_of(text)->0 as nat) == text
}

/// The id that a text gives: the decimal digits of an id give that id, and of
/// any other text the JSON reader decides.
pub open spec fn read_id(text: Seq<char>) -> Option<u32> {
    if is_decimal_id(text) {
        Some(number_of(text)->0 as u32)
    } else {
        json_u32(text)
    }
}

/// `serde_json::from_str` for an id: the id that the text gives as JSON, or the
/// error of the reader. A number in decimal digits without a sign and without
/// needless zeros, which fits an id, is read as that number.
#[verifier::external_body]
fn json_id_value(text: &str) -> (outcome: Result<u32, serde_json::Error>)
    ensures
        is_decimal_id(text@) ==> outcome is Ok && outcome->Ok_0 == number_of(text@)->0,
        !is_decimal_id(text@) ==> (outcome is Ok <==> json_u32(text@) is Some),
        !is_decimal_id(text@) ==> (outcome matches Ok(id) ==> id == json_u32(text@)->0),
{
    serde_json::from_str::<u32>(text)
}

/// The line of a token: the token, a space, and the id in decimal digits.
pub open spec fn token_line(token: Seq<char>, id: u32) -> Seq<char> {
    token + seq![' '] + decimal(id as nat)
}

/// The id and the token of a line: what stands before the last space is the
/// token, what stands behind it the id as JSON.
pub open spec fn line_entry(line: Seq<char>) -> Option<(u32, Seq<char>)> {
    match last_place(line, ' ') {
        None => None,
        Some(k) => match read_id(line.skip(k + 1)) {
            None => None,
            Some(id) => Some((id, line.take(k))),
        },
    }
}

/// The first of the first `n` lines that is the line of no token.
pub open spec fn bad_line(lines: Seq<Seq<char>>, n: nat) -> Option<int>
    decreases n,
{
    if n == 0 {
        None
    } else {
        match bad_line(lines, (n - 1) as nat) {
            Some(i) => Some(i),
            None => if line_entry(lines[n - 1]) is Some {
                None
            } else {
                Some(n - 1)
            },
        }
    }
}

/// The vocabulary after the tokens of the first `n` lines were set, first to
/// last.
pub open spec fn loaded_vocab(lines: Seq<Seq<char>>, n: nat) -> Map<u32, Seq<char>>
    decreases n,
{
    if n == 0 {
        Map::empty()
    } else {
        let (id, token) = line_entry(lines[n - 1])->0;
        without_value(loaded_vocab(lines, (n - 1) as nat), token).insert(id, token)
    }
}

/// The pattern and the vocabulary that a text holds.
pub open spec fn base_outcome(text: Seq<char>) -> Result<(Seq<char>, Map<u32, Seq<char>>), LoadError> {
    match parse_text(text) {
        Err(failure) => Err(LoadError::File(failure)),
        Ok(file) => if !pattern_compiles(file.pattern) {
            Err(LoadError::Model(ModelFault::BadPattern))
        } else if bad_line(file.tokens, file.tokens.len()) is Some {
            Err(
                LoadError::Model(
                    ModelFault::BadToken {
                        index: bad_line(file.tokens, file.tokens.len())->0 as usize,
                    },
                ),
            )
        } else {
            Ok((file.pattern, loaded_vocab(file.tokens, file.tokens.len())))
        },
    }
}

/// Whether the lines are those of the tokens of the vocabulary, each once, in
/// the order of `ids`.
pub open spec fn lines_of_vocab(
    lines: Seq<Seq<char>>,
    vocab: Map<u32, Seq<char>>,
    ids: Seq<u32>,
) -> bool {
    &&& ids.len() == lines.len()
    &&& ids.no_duplicates()
    &&& ids.to_set() == vocab.dom()
    &&& forall|i: int|
        0 <= i < lines.len() ==> #[trigger] lines[i] == token_line(vocab[ids[i]], ids[i])
}

/// Whether a text is what `save` writes for a pattern and a vocabulary: the
/// pattern, and the lines of the tokens in some order.
pub open spec fn is_saved_base(text: Seq<char>, pattern: Seq<char>, vocab: Map<u32, Seq<char>>) -> bool {
    exists|lines: Seq<Seq<char>>, ids: Seq<u32>|
        #[trigger] lines_of_vocab(lines, vocab, ids) && render_text(
            ModelText {
                pattern,
                tokens: lines,
                base_chars: seq![],
                vocab: seq![],
                merges: seq![],
                next_token_id: None,
            },
        ) == text
}

/// The message for a base that cannot be written.
pub open spec fn unsavable_base_message() -> Seq<char> {
    "the pattern or a token holds a line feed"@
}

/// Whether a base can be written: neither the pattern nor a token holds a line
/// feed, so that each has its line in the file.
pub open spec fn savable_base(pattern: Seq<char>, vocab: Map<u32, Seq<char>>) -> bool {
    &&& free_of(pattern, '\n')
    &&& forall|id: u32| vocab.contains_key(id) ==> free_of(#[trigger] vocab[id], '\n')
}

/// A bad line among the first lines is the first bad line of all.
pub proof fn lemma_bad_line_stays(lines: Seq<Seq<char>>, done: nat, n: nat)
    requires
        done <= n,
        bad_line(lines, done) is Some,
    ensures
        bad_line(lines, n) == bad_line(lines, done),
    decreases n - done,
{
    if done < n {
        lemma_bad_line_stays(lines, done, (n - 1) as nat);
    }
}

/// Behind the last separator stands what is free of it.
pub proof fn lemma_last_place(front: Seq<char>, sep: char, back: Seq<char>)
    requires
        free_of(back, sep),
    ensures
        last_place(front + seq![sep] + back, sep) == Some(front.len() as int),
    decreases back.len(),
{
    let whole = front + seq![sep] + back;
    if back.len() == 0 {
        assert(whole.last() == sep);
    } else {
        assert(whole.last() == back.last());
        assert(back.last() == back[back.len() - 1]);
        assert(whole.drop_last() =~= front + seq![sep] + back.drop_last());
        assert forall|i: int| 0 <= i < back.drop_last().len() implies #[trigger] back.drop_last()[i]
            != sep by {
            assert(back[i] != sep);
        }
        lemma_last_place(front, sep, back.drop_last());
    }
}

/// The line of a token reads as the token and its id.
pub proof fn lemma_line_entry(token: Seq<char>, id: u32)
    ensures
        line_entry(token_line(token, id)) == Some((id, token)),
{
    let digits = decimal(id as nat);
    let line = token_line(token, id);
    crate::text::lemma_decimal_free_of(id as nat, ' ');
    lemma_last_place(token, ' ', digits);
    assert(line.skip(token.len() as int + 1) =~= digits);
    assert(line.take(token.len() as int) =~= token);
    crate::text::lemma_number_of_decimal(id as nat);
}

/// The lines of a one-to-one vocabulary read as its tokens: no line is bad, and
/// the first `n` lines give the tokens of the first `n` ids.
pub proof fn lemma_lines_load(
    lines: Seq<Seq<char>>,
    vocab: Map<u32, Seq<char>>,
    ids: Seq<u32>,
    n: nat,
)
    requires
        one_to_one(vocab),
        lines_of_vocab(lines, vocab, ids),
        n <= lines.len(),
    ensures
        bad_line(lines, n) is None,
        loaded_vocab(lines, n) == vocab.restrict(ids.take(n as int).to_set()),
    decreases n,
{
    if n == 0 {
        assert(ids.take(0).to_set() =~= Set::<u32>::empty());
        assert(loaded_vocab(lines, n) =~= vocab.restrict(ids.take(n as int).to_set()));
    } else {
        lemma_lines_load(lines, vocab, ids, (n - 1) as nat);
        let id = ids[n - 1];
        let token = vocab[id];
        assert(ids.to_set().contains(id)) by {
            assert(ids.contains(id));
        }
        assert(vocab.contains_key(id));
        lemma_line_entry(token, id);
        assert(lines[n - 1] == token_line(token, id));
        let front = ids.take(n - 1);
        let upto = ids.take(n as int);
        let prior = vocab.restrict(front.to_set());
        assert(without_value(prior, token) =~= prior) by {
            assert forall|k: u32| prior.contains_key(k) implies #[trigger] prior[k] != token by {
                if prior[k] == token {
                    assert(vocab[k] == vocab[id]);
                    assert(k == id);
                    let a = choose|a: int| 0 <= a < front.len() && front[a] == k;
                    assert(ids[a] == ids[n - 1]);
                }
            }
        }
        assert(upto.to_set() =~= front.to_set().insert(id)) by {
            assert forall|v: u32| upto.to_set().contains(v) <==> front.to_set().insert(id).contains(
                v,
            ) by {
                if upto.contains(v) {
                    let k = choose|k: int| 0 <= k < upto.len() && upto[k] == v;
                    if k < n - 1 {
                        assert(front[k] == v);
                    }
                }
                if front.contains(v) {
                    let k = choose|k: int| 0 <= k < front.len() && front[k] == v;
                    assert(upto[k] == v);
                }
                if v == id {
                    assert(upto[n - 1] == v);
                }
            }
        }
        assert(loaded_vocab(lines, n) =~= vocab.restrict(upto.to_set()));
    }
}

/// Loading undoes saving: the text that `save` writes for a pattern that
/// compiles and a one-to-one vocabulary holds that pattern and that vocabulary,
/// where neither holds a line feed.
pub proof fn lemma_base_load_save(text: Seq<char>, pattern: Seq<char>, vocab: Map<u32, Seq<char>>)
    requires
        pattern_compiles(pattern),
        one_to_one(vocab),
        savable_base(pattern, vocab),
        is_saved_base(text, pattern, vocab),
    ensures
        base_outcome(text) == Ok::<(Seq<char>, Map<u32, Seq<char>>), LoadError>((pattern, vocab)),
{
    let (lines, ids) = choose|lines: Seq<Seq<char>>, ids: Seq<u32>|
        #[trigger] lines_of_vocab(lines, vocab, ids) && render_text(
            ModelText {
                pattern,
                tokens: lines,
                base_chars: seq![],
                vocab: seq![],
                merges: seq![],
                next_token_id: None,
            },
        ) == text;
    let file = ModelText {
        pattern,
        tokens: lines,
        base_chars: seq![],
        vocab: seq![],
        merges: seq![],
        next_token_id: None,
    };
    assert forall|i: int| 0 <= i < lines.len() implies free_of(#[trigger] lines[i], '\n') by {
        let id = ids[i];
        assert(ids.contains(id));
        assert(ids.to_set().contains(id));
        assert(vocab.contains_key(id));
        crate::text::lemma_decimal_free_of(id as nat, '\n');
        assert(free_of(vocab[id], '\n'));
    }
    lemma_ids_len(ids);
    assert(printable(file));
    lemma_parse_render(file);
    lemma_lines_load(lines, vocab, ids, lines.len());
    assert(ids.take(ids.len() as int) =~= ids);
    assert(vocab.restrict(ids.to_set()) =~= vocab);
}

/// A listing of ids without repetitions is no longer than there are ids.
pub proof fn lemma_ids_len(ids: Seq<u32>)
    requires
        ids.no_duplicates(),
    ensures
        ids.len() <= u32::MAX + 1,
{
    let all = Set::<int>::new(|v: int| 0 <= v <= u32::MAX);
    let taken = ids.map_values(|id: u32| id as int);
    assert(all =~= vstd::set_lib::set_int_range(0, u32::MAX + 1));
    vstd::set_lib::lemma_int_range(0, u32::MAX + 1);
    assert(taken.no_duplicates()) by {
        assert forall|i: int, j: int| 0 <= i < taken.len() && 0 <= j < taken.len() && i != j implies taken[i]
            != taken[j] by {
            assert(ids[i] != ids[j]);
        }
    }
    taken.unique_seq_to_set();
    assert(taken.to_set().subset_of(all)) by {
        assert forall|v: int| taken.to_set().contains(v) implies all.contains(v) by {
            let i = choose|i: int| 0 <= i < taken.len() && taken[i] == v;
        }
    }
    vstd::set_lib::lemma_len_subset(taken.to_set(), all);
}

/// The part of `text` before place `to`.
pub fn head_of(text: &Vec<char>, to: usize) -> (head: Vec<char>)
    requires
        to <= text@.len(),
    ensures
        head@ == text@.take(to as int),
{
    let mut head: Vec<char> = Vec::new();
    let mut i: usize = 0;
    while i < to
        invariant
            i <= to <= text@.len(),
            head@ == text@.take(i as int),
        decreases to - i,
    {
        head.push(text[i]);
        assert(text@.take(i + 1) =~= text@.take(i as int).push(text@[i as int]));
        i += 1;
    }
    head
}

/// The id and the token of a line.
pub fn read_entry(line: &Vec<char>) -> (entry: Option<(u32, String)>)
    ensures
        match line_entry(line@) {
            Some((id, token)) => entry matches Some((found, text)) && found == id && text@
                == token,
            None => entry is None,
        },
{
    match find_last(line, ' ') {
        None => None,
        Some(k) => {
            let digits = tail_of(line, k + 1);
            let id_text = string_from_chars(digits.as_slice());
            match json_id_value(id_text.as_str()) {
                Ok(id) => Some((id, string_from_chars(head_of(line, k).as_slice()))),
                Err(_) => None,
            }
        },
    }
}

/// The vocabulary that the lines give, or the number of the first line that is
/// the line of no token.
pub fn read_tokens(lines: &Vec<Vec<char>>) -> (outcome: Result<VocabManager<u32, String>, usize>)
    ensures
        match bad_line(chars_view(lines@), lines@.len()) {
            Some(index) => outcome == Err::<VocabManager<u32, String>, usize>(index as usize),
            None => outcome matches Ok(vocab) && vocab.wf() && vocab@ == loaded_vocab(
                chars_view(lines@),
                lines@.len(),
            ),
        },
{
    let ghost rows = chars_view(lines@);
    let mut vocab: VocabManager<u32, String> = VocabManager::new();
    let mut i: usize = 0;
    while i < lines.len()
        invariant
            i <= lines@.len(),
            rows == chars_view(lines@),
            vocab.wf(),
            bad_line(rows, i as nat) is None,
            vocab@ == loaded_vocab(rows, i as nat),
        decreases lines.len() - i,
    {
        proof {
            assert(rows[i as int] == lines@[i as int]@);
        }
        match read_entry(&lines[i]) {
            None => {
                proof {
                    assert(bad_line(rows, (i + 1) as nat) == Some(i as int));
                    lemma_bad_line_stays(rows, (i + 1) as nat, rows.len());
                }
                return Err(i);
            },
            Some((id, token)) => {
                vocab.insert(id, token);
            },
        }
        i += 1;
    }
    Ok(vocab)
}

impl TokenizerBase<u32> {
    /// The base as the text of a model file: the pattern, and one line for
    /// every token. Fails where the pattern or a token holds a line feed.
    pub fn save(&self) -> (outcome: Result<String, String>)
        requires
            self.wf(),
        ensures
            savable_base(self.pattern_source(), self.vocab_view()) ==> outcome is Ok
                && is_saved_base(outcome->Ok_0@, self.pattern_source(), self.vocab_view()),
            !savable_base(self.pattern_source(), self.vocab_view()) ==> outcome is Err
                && outcome->Err_0@ == unsavable_base_message(),
    {
        let ghost vocab = self.vocab_view();
        let pattern = chars_of(self.pattern().source().as_str());
        if !is_free_of(&pattern, '\n') {
            return Err(String::from_str("the pattern or a token holds a line feed"));
        }
        let store = self.vocab();
        let pairs = store.iter();
        proof {
            assert(store@ == vocab);
            assert forall|k: int| 0 <= k < pairs@.len() implies vocab.contains_key(
                (#[trigger] pairs@[k]).0,
            ) && vocab[pairs@[k].0] == pairs@[k].1@ by {
                assert(store@.contains_key(pairs@[k].0@) && store@[pairs@[k].0@] == pairs@[k].1@);
            }
            assert forall|id: u32| vocab.contains_key(id) implies exists|k: int|
                0 <= k < pairs@.len() && (#[trigger] pairs@[k]).0 == id by {
                let k = choose|k: int| 0 <= k < pairs@.len() && (#[trigger] pairs@[k]).0@ == id;
                assert(pairs@[k].0 == id);
            }
        }
        let mut lines: Vec<Vec<char>> = Vec::new();
        let mut i: usize = 0;
        while i < pairs.len()
            invariant
                i <= pairs@.len(),
                lines@.len() == i,
                vocab == self.vocab_view(),
                forall|k: int|
                    0 <= k < pairs@.len() ==> vocab.contains_key((#[trigger] pairs@[k]).0)
                        && vocab[pairs@[k].0] == pairs@[k].1@,
                forall|k: int|
                    0 <= k < i ==> (#[trigger] lines@[k])@ == token_line(pairs@[k].1@, pairs@[k].0),
                forall|k: int| 0 <= k < i ==> free_of((#[trigger] pairs@[k]).1@, '\n'),
                forall|id: u32|
                    vocab.contains_key(id) ==> exists|k: int|
                        0 <= k < pairs@.len() && (#[trigger] pairs@[k]).0 == id,
                forall|a: int, b: int|
                    0 <= a < b < pairs@.len() ==> pairs@[a].0@ != pairs@[b].0@,
            decreases pairs.len() - i,
        {
            let token = chars_of(pairs[i].1.as_str());
            let id = pairs[i].0;
            if !is_free_of(&token, '\n') {
                proof {
                    assert(vocab.contains_key(pairs@[i as int].0));
                    assert(!free_of(vocab[pairs@[i as int].0], '\n'));
                }
                return Err(String::from_str("the pattern or a token holds a line feed"));
            }
            let digits = match json_id_text(id) {
                Ok(text) => chars_of(text.as_str()),
                Err(_) => crate::text::decimal_chars(id as u64),
            };
            let mut line = token;
            line.push(' ');
            crate::vocab_store::append_items(&mut line, &digits);
            proof {
                assert(line@ =~= token_line(pairs@[i as int].1@, id));
            }
            lines.push(line);
            i += 1;
        }
        let file = ModelFile {
            pattern,
            tokens: lines,
            base_chars: Vec::new(),
            vocab: Vec::new(),
            merges: Vec::new(),
            next_token_id: None,
        };
        let chars = render_model(&file);
        let text = string_from_chars(chars.as_slice());
        proof {
            let written = chars_view(file.tokens@);
            let ids = Seq::new(pairs@.len(), |k: int| pairs@[k].0);
            assert forall|k: int| 0 <= k < written.len() implies #[trigger] written[k]
                == token_line(vocab[ids[k]], ids[k]) by {
                assert(written[k] == file.tokens@[k]@);
                assert(vocab.contains_key(pairs@[k].0));
            }
            assert forall|a: int, b: int| 0 <= a < ids.len() && 0 <= b < ids.len() && a != b implies ids[a] != ids[b] by {
                if a < b {
                    assert(pairs@[a].0@ != pairs@[b].0@);
                } else {
                    assert(pairs@[b].0@ != pairs@[a].0@);
                }
            }
            assert forall|id: u32| ids.to_set().contains(id) <==> vocab.dom().contains(id) by {
                if ids.to_set().contains(id) {
                    let k = choose|k: int| 0 <= k < ids.len() && ids[k] == id;
                    assert(vocab.contains_key(pairs@[k].0));
                }
                if vocab.contains_key(id) {
                    let k = choose|k: int| 0 <= k < pairs@.len() && (#[trigger] pairs@[k]).0 == id;
                    assert(ids[k] == id);
                }
            }
            assert(ids.to_set() =~= vocab.dom());
            assert(lines_of_vocab(written, vocab, ids));
            let model = ModelText {
                pattern: self.pattern_source(),
                tokens: written,
                base_chars: seq![],
                vocab: seq![],
                merges: seq![],
                next_token_id: None,
            };
            assert(file@ =~= model);
            assert(render_text(model) == text@);
            assert forall|id: u32| vocab.contains_key(id) implies free_of(
                #[trigger] vocab[id],
                '\n',
            ) by {
                let k = choose|k: int| 0 <= k < pairs@.len() && (#[trigger] pairs@[k]).0 == id;
                assert(vocab.contains_key(pairs@[k].0));
                assert(free_of(pairs@[k].1@, '\n'));
            }
        }
        Ok(text)
    }

    /// Loads the base from the text of a model file: the pattern, and the tokens
    /// of the first vocabulary, set first to last. Fails, and changes nothing,
    /// where the text holds no base; the message names the line at fault.
    pub fn load(&mut self, text: &str) -> (outcome: Result<(), String>)
        requires
            old(self).wf(),
        ensures
            final(self).wf(),
            match base_outcome(text@) {
                Ok((pattern, vocab)) => {
                    &&& outcome is Ok
                    &&& final(self).pattern_source() == pattern
                    &&& final(self).vocab_view() == vocab
                },
                Err(error) => {
                    &&& outcome is Err
                    &&& outcome->Err_0@ == load_message(error)
                    &&& final(self).pattern_source() == old(self).pattern_source()
                    &&& final(self).vocab_view() == old(self).vocab_view()
                },
            },
    {
        let chars = chars_of(text);
        let file = match parse_model(&chars) {
            Ok(file) => file,
            Err(failure) => {
                return Err(failure_text(failure));
            },
        };
        let source = string_from_chars(file.pattern.as_slice());
        let pattern = match compile_pattern(source) {
            Ok(pattern) => pattern,
            Err(_) => {
                return Err(fault_text(ModelFault::BadPattern));
            },
        };
        let vocab = match read_tokens(&file.tokens) {
            Ok(vocab) => vocab,
            Err(index) => {
                return Err(fault_text(ModelFault::BadToken { index }));
            },
        };
        self.replace(pattern, vocab);
        Ok(())
    }
}

} // verus!
