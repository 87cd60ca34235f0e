//! The model file: a text of lines, in sections that a header line introduces.
//!
//! ```text
//! pattern: <pattern>
//! vocab_size: <n>
//! <token> <id>                    n lines
//! base_chars: <k>
//! base_char: <text>               k lines
//! vocab: <m>
//! vocab_entry: <id> <item> ...    m lines
//! merges: <r>
//! merge: <left> <right> <new>     r lines
//! next_token_id: <id>
//! ```
//!
//! The sections `vocab_size`, `base_chars` and `next_token_id` may be missing.

use crate::text::{
    begins_with, chars_of, chars_view, decimal, decimal_chars, free_of, has_prefix, join_with,
    lemma_decimal_free_of, lemma_number_of_decimal, lemma_split_join, number_of, parse_number,
    split_chars, split_on, tail_of,
};
use crate::vocab_store::append_items;
use vstd::prelude::*;

verus! {

/// What a model file holds, as mathematics.
#[verifier::ext_equal]
pub struct ModelText {
    /// The source of the pattern.
    pub pattern: Seq<char>,
    /// The lines of the first vocabulary, each a token, a space and an id.
    pub tokens: Seq<Seq<char>>,
    /// The base characters.
    pub base_chars: Seq<Seq<char>>,
    /// The entries of the vocabulary: an id, then the items of its token.
    pub vocab: Seq<Seq<u64>>,
    /// The merge rules: the two ids of the pair, then the new id.
    pub merges: Seq<Seq<u64>>,
    /// The next free id, if the file names it.
    pub next_token_id: Option<u64>,
}

/// Why a text is no model file.
#[derive(Debug, Clone, Copy, PartialEq, Eq, Structural)]
pub enum LoadFailure {
    /// The first line does not give the pattern.
    MissingPattern,
    /// The section `vocab` does not begin where it should.
    MissingVocab,
    /// The section `merges` does not begin where it should.
    MissingMerges,
    /// The line of this number cannot be read as what should stand there.
    BadLine { line: usize },
    /// The text ends inside a section.
    Truncated,
}

/// The rest of `line` behind `prefix`, if the line begins with it.
pub open spec fn after_prefix(line: Seq<char>, prefix: Seq<char>) -> Option<Seq<char>> {
    if begins_with(line, prefix) {
        Some(line.skip(prefix.len() as int))
    } else {
        None
    }
}

/// The numbers that the fields write, if all of them are numbers.
pub open spec fn numbers_of(fields: Seq<Seq<char>>) -> Option<Seq<u64>>
    decreases fields.len(),
{
    if fields.len() == 0 {
        Some(seq![])
    } else {
        match (numbers_of(fields.drop_last()), number_of(fields.last())) {
            (Some(front), Some(last)) => Some(front.push(last)),
            _ => None,
        }
    }
}

/// The numbers of a line of numbers: behind the prefix, fields between single
/// spaces, each a number.
pub open spec fn numbers_line(line: Seq<char>, prefix: Seq<char>) -> Option<Seq<u64>> {
    match after_prefix(line, prefix) {
        Some(rest) => numbers_of(split_on(rest, ' ')),
        None => None,
    }
}

/// The texts of `count` lines from line `at` on, each behind the prefix.
pub open spec fn read_texts(lines: Seq<Seq<char>>, at: int, count: nat, prefix: Seq<char>) -> Result<
    Seq<Seq<char>>,
    LoadFailure,
>
    decreases count,
{
    if count == 0 {
        Ok(seq![])
    } else {
        match read_texts(lines, at, (count - 1) as nat, prefix) {
            Err(failure) => Err(failure),
            Ok(front) => {
                let i = at + count - 1;
                if i >= lines.len() {
                    Err(LoadFailure::Truncated)
                } else {
                    match after_prefix(lines[i], prefix) {
                        Some(text) => Ok(front.push(text)),
                        None => Err(LoadFailure::BadLine { line: (i + 1) as usize }),
                    }
                }
            },
        }
    }
}

/// The numbers of `count` lines from line `at` on, each behind the prefix.
pub open spec fn read_numbers(lines: Seq<Seq<char>>, at: int, count: nat, prefix: Seq<char>) -> Result<
    Seq<Seq<u64>>,
    LoadFailure,
>
    decreases count,
{
    if count == 0 {
        Ok(seq![])
    } else {
        match read_numbers(lines, at, (count - 1) as nat, prefix) {
            Err(failure) => Err(failure),
            Ok(front) => {
                let i = at + count - 1;
                if i >= lines.len() {
                    Err(LoadFailure::Truncated)
                } else {
                    match numbers_line(lines[i], prefix) {
                        Some(numbers) => Ok(front.push(numbers)),
                        None => Err(LoadFailure::BadLine { line: (i + 1) as usize }),
                    }
                }
            },
        }
    }
}

/// The count that the header at line `at` gives, if the line is a header with
/// this prefix: `None` where it is none, else the count or the failure to read
/// it.
pub open spec fn header_count(lines: Seq<Seq<char>>, at: int, prefix: Seq<char>) -> Option<
    Result<u64, LoadFailure>,
> {
    if at >= lines.len() {
        None
    } else {
        match after_prefix(lines[at], prefix) {
            None => None,
            Some(rest) => match number_of(rest) {
                Some(count) => Some(Ok(count)),
                None => Some(Err(LoadFailure::BadLine { line: (at + 1) as usize })),
            },
        }
    }
}

/// The first line from `at` on that is not empty, if there is one.
pub open spec fn first_text(lines: Seq<Seq<char>>, at: int) -> Option<int>
    decreases lines.len() - at,
{
    if at >= lines.len() {
        None
    } else if lines[at].len() > 0 {
        Some(at)
    } else {
        first_text(lines, at + 1)
    }
}

/// What the lines of a model file hold.
pub open spec fn parse_lines(lines: Seq<Seq<char>>) -> Result<ModelText, LoadFailure> {
    if lines.len() == 0 {
        Err(LoadFailure::MissingPattern)
    } else {
        match after_prefix(lines[0], "pattern: "@) {
            None => Err(LoadFailure::MissingPattern),
            Some(pattern) => parse_tokens(lines, pattern),
        }
    }
}

/// The file from the first vocabulary on.
pub open spec fn parse_tokens(lines: Seq<Seq<char>>, pattern: Seq<char>) -> Result<
    ModelText,
    LoadFailure,
> {
    match header_count(lines, 1, "vocab_size: "@) {
        None => parse_base_chars(lines, 1, pattern, seq![]),
        Some(Err(failure)) => Err(failure),
        Some(Ok(count)) => match read_texts(lines, 2, count as nat, seq![]) {
            Err(failure) => Err(failure),
            Ok(tokens) => parse_base_chars(lines, 2 + count, pattern, tokens),
        },
    }
}

/// The file from the base characters on.
pub open spec fn parse_base_chars(
    lines: Seq<Seq<char>>,
    at: int,
    pattern: Seq<char>,
    tokens: Seq<Seq<char>>,
) -> Result<ModelText, LoadFailure> {
    match header_count(lines, at, "base_chars: "@) {
        None => parse_vocab(lines, at, pattern, tokens, seq![]),
        Some(Err(failure)) => Err(failure),
        Some(Ok(count)) => match read_texts(lines, at + 1, count as nat, "base_char: "@) {
            Err(failure) => Err(failure),
            Ok(base_chars) => parse_vocab(lines, at + 1 + count, pattern, tokens, base_chars),
        },
    }
}

/// The file from the vocabulary on.
pub open spec fn parse_vocab(
    lines: Seq<Seq<char>>,
    at: int,
    pattern: Seq<char>,
    tokens: Seq<Seq<char>>,
    base_chars: Seq<Seq<char>>,
) -> Result<ModelText, LoadFailure> {
    match header_count(lines, at, "vocab: "@) {
        None => Err(LoadFailure::MissingVocab),
        Some(Err(failure)) => Err(failure),
        Some(Ok(count)) => match read_numbers(lines, at + 1, count as nat, "vocab_entry: "@) {
            Err(failure) => Err(failure),
            Ok(vocab) => parse_merges(lines, at + 1 + count, pattern, tokens, base_chars, vocab),
        },
    }
}

/// The file from the merge rules on.
pub open spec fn parse_merges(
    lines: Seq<Seq<char>>,
    at: int,
    pattern: Seq<char>,
    tokens: Seq<Seq<char>>,
    base_chars: Seq<Seq<char>>,
    vocab: Seq<Seq<u64>>,
) -> Result<ModelText, LoadFailure> {
    match header_count(lines, at, "merges: "@) {
        None => Err(LoadFailure::MissingMerges),
        Some(Err(failure)) => Err(failure),
        Some(Ok(count)) => match read_numbers(lines, at + 1, count as nat, "merge: "@) {
            Err(failure) => Err(failure),
            Ok(merges) => parse_end(
                lines,
                at + 1 + count,
                ModelText { pattern, tokens, base_chars, vocab, merges, next_token_id: None },
            ),
        },
    }
}

/// The end of the file: the next free id, if it is named, and then nothing but
/// empty lines.
pub open spec fn parse_end(lines: Seq<Seq<char>>, at: int, file: ModelText) -> Result<
    ModelText,
    LoadFailure,
> {
    match header_count(lines, at, "next_token_id: "@) {
        Some(Err(failure)) => Err(failure),
        Some(Ok(id)) => match first_text(lines, at + 1) {
            Some(i) => Err(LoadFailure::BadLine { line: (i + 1) as usize }),
            None => Ok(ModelText { next_token_id: Some(id), ..file }),
        },
        None => match first_text(lines, at) {
            Some(i) => Err(LoadFailure::BadLine { line: (i + 1) as usize }),
            None => Ok(file),
        },
    }
}

/// The lines of a text: what stands between its line feeds, without the empty
/// piece behind a line feed at the end.
pub open spec fn file_lines(text: Seq<char>) -> Seq<Seq<char>> {
    let pieces = split_on(text, '\n');
    if pieces.len() > 0 && pieces.last().len() == 0 {
        pieces.drop_last()
    } else {
        pieces
    }
}

/// What a text holds as a model file.
pub open spec fn parse_text(text: Seq<char>) -> Result<ModelText, LoadFailure> {
    parse_lines(file_lines(text))
}

/// The line of a header: the prefix, then the count.
pub open spec fn header_line(prefix: Seq<char>, count: nat) -> Seq<char> {
    prefix + decimal(count)
}

/// The digits of the numbers.
pub open spec fn decimals(numbers: Seq<u64>) -> Seq<Seq<char>> {
    Seq::new(numbers.len(), |i: int| decimal(numbers[i] as nat))
}

/// A line of numbers: the prefix, then the numbers with single spaces between.
pub open spec fn numbers_text(prefix: Seq<char>, numbers: Seq<u64>) -> Seq<char> {
    prefix + join_with(decimals(numbers), ' ')
}

/// The lines of texts, each behind the prefix.
pub open spec fn text_lines(prefix: Seq<char>, texts: Seq<Seq<char>>) -> Seq<Seq<char>> {
    Seq::new(texts.len(), |i: int| prefix + texts[i])
}

/// The lines of numbers, each behind the prefix.
pub open spec fn number_lines(prefix: Seq<char>, rows: Seq<Seq<u64>>) -> Seq<Seq<char>> {
    Seq::new(rows.len(), |i: int| numbers_text(prefix, rows[i]))
}

/// The lines of a model file.
pub open spec fn render_lines(file: ModelText) -> Seq<Seq<char>> {
    seq!["pattern: "@ + file.pattern] + seq![header_line("vocab_size: "@, file.tokens.len())]
        + text_lines(seq![], file.tokens) + seq![
        header_line("base_chars: "@, file.base_chars.len()),
    ] + text_lines("base_char: "@, file.base_chars) + seq![
        header_line("vocab: "@, file.vocab.len()),
    ] + number_lines("vocab_entry: "@, file.vocab) + seq![
        header_line("merges: "@, file.merges.len()),
    ] + number_lines("merge: "@, file.merges) + (match file.next_token_id {
        Some(id) => seq![header_line("next_token_id: "@, id as nat)],
        None => seq![],
    })
}

/// The text of a model file: its lines, each ended by a line feed.
pub open spec fn render_text(file: ModelText) -> Seq<char> {
    join_with(render_lines(file).push(seq![]), '\n')
}

/// What a model file holds.
#[derive(Debug)]
pub struct ModelFile {
    /// The source of the pattern.
    pub pattern: Vec<char>,
    /// The lines of the first vocabulary, each a token, a space and an id.
    pub tokens: Vec<Vec<char>>,
    /// The base characters.
    pub base_chars: Vec<Vec<char>>,
    /// The entries of the vocabulary: an id, then the items of its token.
    pub vocab: Vec<Vec<u64>>,
    /// The merge rules: the two ids of the pair, then the new id.
    pub merges: Vec<Vec<u64>>,
    /// The next free id, if the file names it.
    pub next_token_id: Option<u64>,
}

/// The rows of numbers as sequences.
pub open spec fn rows_view(rows: Seq<Vec<u64>>) -> Seq<Seq<u64>> {
    Seq::new(rows.len(), |i: int| rows[i]@)
}

impl View for ModelFile {
    type V = ModelText;

    open spec fn view(&self) -> ModelText {
        ModelText {
            pattern: self.pattern@,
            tokens: chars_view(self.tokens@),
            base_chars: chars_view(self.base_chars@),
            vocab: rows_view(self.vocab@),
            merges: rows_view(self.merges@),
            next_token_id: self.next_token_id,
        }
    }
}

/// The rest of `line` behind `prefix`, if the line begins with it.
pub fn strip_prefix(line: &Vec<char>, prefix: &str) -> (rest: Option<Vec<char>>)
    ensures
        rest is Some <==> after_prefix(line@, prefix@) is Some,
        rest matches Some(r) ==> r@ == after_prefix(line@, prefix@)->0,
{
    let prefix_chars = chars_of(prefix);
    if has_prefix(line, &prefix_chars) {
        Some(tail_of(line, prefix_chars.len()))
    } else {
        None
    }
}

/// The numbers of a line of numbers.
pub fn parse_numbers_line(line: &Vec<char>, prefix: &str) -> (numbers: Option<Vec<u64>>)
    ensures
        numbers is Some <==> numbers_line(line@, prefix@) is Some,
        numbers matches Some(n) ==> n@ == numbers_line(line@, prefix@)->0,
{
    match strip_prefix(line, prefix) {
        None => None,
        Some(rest) => {
            let fields = split_chars(&rest, ' ');
            let ghost all = chars_view(fields@);
            let mut numbers: Vec<u64> = Vec::new();
            let mut i: usize = 0;
            proof {
                assert(all.take(0) =~= Seq::<Seq<char>>::empty());
            }
            while i < fields.len()
                invariant
                    i <= fields@.len(),
                    all == chars_view(fields@),
                    all == split_on(rest@, ' '),
                    after_prefix(line@, prefix@) == Some(rest@),
                    numbers_of(all.take(i as int)) == Some(numbers@),
                decreases fields.len() - i,
            {
                proof {
                    assert(all.take(i + 1).drop_last() =~= all.take(i as int));
                    assert(all.take(i + 1).last() == fields@[i as int]@);
                }
                match parse_number(&fields[i]) {
                    Some(n) => {
                        numbers.push(n);
                    },
                    None => {
                        proof {
                            assert(numbers_of(all.take(i + 1)) is None);
                            lemma_numbers_fail(all, i + 1);
                        }
                        return None;
                    },
                }
                i += 1;
            }
            proof {
                assert(all.take(fields@.len() as int) =~= all);
            }
            Some(numbers)
        },
    }
}

/// Fields of which a beginning holds a field that is no number are no numbers.
pub proof fn lemma_numbers_fail(fields: Seq<Seq<char>>, n: int)
    requires
        0 <= n <= fields.len(),
        numbers_of(fields.take(n)) is None,
    ensures
        numbers_of(fields) is None,
    decreases fields.len() - n,
{
    if n < fields.len() {
        assert(fields.take(n + 1).drop_last() =~= fields.take(n));
        lemma_numbers_fail(fields, n + 1);
    } else {
        assert(fields.take(n) =~= fields);
    }
}

/// A failure in the first lines of a section is the failure of the section.
pub proof fn lemma_read_texts_fail(
    lines: Seq<Seq<char>>,
    at: int,
    done: nat,
    count: nat,
    prefix: Seq<char>,
)
    requires
        done <= count,
        read_texts(lines, at, done, prefix) is Err,
    ensures
        read_texts(lines, at, count, prefix) == read_texts(lines, at, done, prefix),
    decreases count - done,
{
    if done < count {
        lemma_read_texts_fail(lines, at, done, (count - 1) as nat, prefix);
    }
}

/// The same for sections of numbers.
pub proof fn lemma_read_numbers_fail(
    lines: Seq<Seq<char>>,
    at: int,
    done: nat,
    count: nat,
    prefix: Seq<char>,
)
    requires
        done <= count,
        read_numbers(lines, at, done, prefix) is Err,
    ensures
        read_numbers(lines, at, count, prefix) == read_numbers(lines, at, done, prefix),
    decreases count - done,
{
    if done < count {
        lemma_read_numbers_fail(lines, at, done, (count - 1) as nat, prefix);
    }
}

/// Reads the texts of a section.
pub fn read_text_section(lines: &Vec<Vec<char>>, at: usize, count: u64, prefix: &str) -> (outcome:
    Result<Vec<Vec<char>>, LoadFailure>)
    requires
        at <= lines@.len(),
    ensures
        match read_texts(chars_view(lines@), at as int, count as nat, prefix@) {
            Ok(texts) => outcome is Ok && chars_view(outcome->Ok_0@) == texts && at + count
                <= lines@.len(),
            Err(failure) => outcome == Err::<Vec<Vec<char>>, LoadFailure>(failure),
        },
{
    let ghost all = chars_view(lines@);
    let mut texts: Vec<Vec<char>> = Vec::new();
    let mut done: u64 = 0;
    proof {
        assert(chars_view(texts@) =~= Seq::<Seq<char>>::empty());
    }
    while done < count
        invariant
            done <= count,
            at <= lines@.len(),
            at + done <= lines@.len(),
            all == chars_view(lines@),
            read_texts(all, at as int, done as nat, prefix@) == Ok::<Seq<Seq<char>>, LoadFailure>(
                chars_view(texts@),
            ),
        decreases count - done,
    {
        let ghost before = chars_view(texts@);
        if done >= (lines.len() - at) as u64 {
            proof {
                assert(read_texts(all, at as int, (done + 1) as nat, prefix@) == Err::<
                    Seq<Seq<char>>,
                    LoadFailure,
                >(LoadFailure::Truncated));
                lemma_read_texts_fail(all, at as int, (done + 1) as nat, count as nat, prefix@);
            }
            return Err(LoadFailure::Truncated);
        }
        let i = at + done as usize;
        match strip_prefix(&lines[i], prefix) {
            Some(text) => {
                texts.push(text);
                proof {
                    assert(chars_view(texts@) =~= before.push(after_prefix(all[i as int], prefix@)->0));
                }
            },
            None => {
                proof {
                    assert(read_texts(all, at as int, (done + 1) as nat, prefix@) == Err::<
                        Seq<Seq<char>>,
                        LoadFailure,
                    >(LoadFailure::BadLine { line: (i + 1) as usize }));
                    lemma_read_texts_fail(all, at as int, (done + 1) as nat, count as nat, prefix@);
                }
                return Err(LoadFailure::BadLine { line: i + 1 });
            },
        }
        done += 1;
    }
    Ok(texts)
}

/// Reads the numbers of a section.
pub fn read_number_section(lines: &Vec<Vec<char>>, at: usize, count: u64, prefix: &str) -> (outcome:
    Result<Vec<Vec<u64>>, LoadFailure>)
    requires
        at <= lines@.len(),
    ensures
        match read_numbers(chars_view(lines@), at as int, count as nat, prefix@) {
            Ok(rows) => outcome is Ok && rows_view(outcome->Ok_0@) == rows && at + count
                <= lines@.len(),
            Err(failure) => outcome == Err::<Vec<Vec<u64>>, LoadFailure>(failure),
        },
{
    let ghost all = chars_view(lines@);
    let mut rows: Vec<Vec<u64>> = Vec::new();
    let mut done: u64 = 0;
    proof {
        assert(rows_view(rows@) =~= Seq::<Seq<u64>>::empty());
    }
    while done < count
        invariant
            done <= count,
            at <= lines@.len(),
            at + done <= lines@.len(),
            all == chars_view(lines@),
            read_numbers(all, at as int, done as nat, prefix@) == Ok::<Seq<Seq<u64>>, LoadFailure>(
                rows_view(rows@),
            ),
        decreases count - done,
    {
        let ghost before = rows_view(rows@);
        if done >= (lines.len() - at) as u64 {
            proof {
                assert(read_numbers(all, at as int, (done + 1) as nat, prefix@) == Err::<
                    Seq<Seq<u64>>,
                    LoadFailure,
                >(LoadFailure::Truncated));
                lemma_read_numbers_fail(all, at as int, (done + 1) as nat, count as nat, prefix@);
            }
            return Err(LoadFailure::Truncated);
        }
        let i = at + done as usize;
        match parse_numbers_line(&lines[i], prefix) {
            Some(numbers) => {
                rows.push(numbers);
                proof {
                    assert(rows_view(rows@) =~= before.push(numbers_line(all[i as int], prefix@)->0));
                }
            },
            None => {
                proof {
                    assert(read_numbers(all, at as int, (done + 1) as nat, prefix@) == Err::<
                        Seq<Seq<u64>>,
                        LoadFailure,
                    >(LoadFailure::BadLine { line: (i + 1) as usize }));
                    lemma_read_numbers_fail(
                        all,
                        at as int,
                        (done + 1) as nat,
                        count as nat,
                        prefix@,
                    );
                }
                return Err(LoadFailure::BadLine { line: i + 1 });
            },
        }
        done += 1;
    }
    Ok(rows)
}

/// Reads the header at line `at`, if there is one with this prefix.
pub fn read_header(lines: &Vec<Vec<char>>, at: usize, prefix: &str) -> (outcome: Option<
    Result<u64, LoadFailure>,
>)
    ensures
        outcome == header_count(chars_view(lines@), at as int, prefix@),
        outcome is Some ==> at < lines@.len() && at < usize::MAX,
{
    if at >= lines.len() {
        return None;
    }
    match strip_prefix(&lines[at], prefix) {
        None => None,
        Some(rest) => match parse_number(&rest) {
            Some(count) => Some(Ok(count)),
            None => Some(Err(LoadFailure::BadLine { line: at + 1 })),
        },
    }
}

/// The first line from `at` on that is not empty.
pub fn find_text(lines: &Vec<Vec<char>>, at: usize) -> (found: Option<usize>)
    ensures
        found is Some <==> first_text(chars_view(lines@), at as int) is Some,
        found matches Some(i) ==> i == first_text(chars_view(lines@), at as int)->0 && i
            < lines@.len(),
{
    let ghost all = chars_view(lines@);
    let mut i: usize = at;
    if at >= lines.len() {
        return None;
    }
    while i < lines.len()
        invariant
            at <= i <= lines@.len(),
            all == chars_view(lines@),
            first_text(all, at as int) == first_text(all, i as int),
        decreases lines.len() - i,
    {
        if lines[i].len() > 0 {
            return Some(i);
        }
        i += 1;
    }
    None
}

/// Reads the end of a model file.
fn parse_model_end(lines: &Vec<Vec<char>>, at: usize, file: ModelFile) -> (outcome: Result<
    ModelFile,
    LoadFailure,
>)
    requires
        at <= lines@.len(),
        file.next_token_id is None,
    ensures
        match parse_end(chars_view(lines@), at as int, file@) {
            Ok(full) => outcome is Ok && outcome->Ok_0@ == full,
            Err(failure) => outcome == Err::<ModelFile, LoadFailure>(failure),
        },
{
    assert(lines.len() == lines@.len());
    let mut file = file;
    let mut from = at;
    match read_header(lines, at, "next_token_id: ") {
        None => {},
        Some(Err(failure)) => {
            return Err(failure);
        },
        Some(Ok(id)) => {
            file.next_token_id = Some(id);
            from = at + 1;
        },
    }
    match find_text(lines, from) {
        Some(i) => Err(LoadFailure::BadLine { line: i + 1 }),
        None => Ok(file),
    }
}

/// Reads a model file from the merge rules on.
fn parse_model_merges(
    lines: &Vec<Vec<char>>,
    at: usize,
    pattern: Vec<char>,
    tokens: Vec<Vec<char>>,
    base_chars: Vec<Vec<char>>,
    vocab: Vec<Vec<u64>>,
) -> (outcome: Result<ModelFile, LoadFailure>)
    requires
        at <= lines@.len(),
    ensures
        match parse_merges(
            chars_view(lines@),
            at as int,
            pattern@,
            chars_view(tokens@),
            chars_view(base_chars@),
            rows_view(vocab@),
        ) {
            Ok(full) => outcome is Ok && outcome->Ok_0@ == full,
            Err(failure) => outcome == Err::<ModelFile, LoadFailure>(failure),
        },
{
    assert(lines.len() == lines@.len());
    match read_header(lines, at, "merges: ") {
        None => Err(LoadFailure::MissingMerges),
        Some(Err(failure)) => Err(failure),
        Some(Ok(count)) => match read_number_section(lines, at + 1, count, "merge: ") {
            Err(failure) => Err(failure),
            Ok(merges) => {
                let file = ModelFile {
                    pattern,
                    tokens,
                    base_chars,
                    vocab,
                    merges,
                    next_token_id: None,
                };
                parse_model_end(lines, at + 1 + count as usize, file)
            },
        },
    }
}

/// Reads a model file from the vocabulary on.
fn parse_model_vocab(
    lines: &Vec<Vec<char>>,
    at: usize,
    pattern: Vec<char>,
    tokens: Vec<Vec<char>>,
    base_chars: Vec<Vec<char>>,
) -> (outcome: Result<ModelFile, LoadFailure>)
    requires
        at <= lines@.len(),
    ensures
        match parse_vocab(
            chars_view(lines@),
            at as int,
            pattern@,
            chars_view(tokens@),
            chars_view(base_chars@),
        ) {
            Ok(full) => outcome is Ok && outcome->Ok_0@ == full,
            Err(failure) => outcome == Err::<ModelFile, LoadFailure>(failure),
        },
{
    assert(lines.len() == lines@.len());
    match read_header(lines, at, "vocab: ") {
        None => Err(LoadFailure::MissingVocab),
        Some(Err(failure)) => Err(failure),
        Some(Ok(count)) => match read_number_section(lines, at + 1, count, "vocab_entry: ") {
            Err(failure) => Err(failure),
            Ok(vocab) => parse_model_merges(
                lines,
                at + 1 + count as usize,
                pattern,
                tokens,
                base_chars,
                vocab,
            ),
        },
    }
}

/// Reads a model file from the base characters on.
fn parse_model_base_chars(
    lines: &Vec<Vec<char>>,
    at: usize,
    pattern: Vec<char>,
    tokens: Vec<Vec<char>>,
) -> (outcome: Result<ModelFile, LoadFailure>)
    requires
        at <= lines@.len(),
    ensures
        match parse_base_chars(chars_view(lines@), at as int, pattern@, chars_view(tokens@)) {
            Ok(full) => outcome is Ok && outcome->Ok_0@ == full,
            Err(failure) => outcome == Err::<ModelFile, LoadFailure>(failure),
        },
{
    assert(lines.len() == lines@.len());
    match read_header(lines, at, "base_chars: ") {
        None => {
            let base_chars: Vec<Vec<char>> = Vec::new();
            assert(chars_view(base_chars@) =~= Seq::<Seq<char>>::empty());
            parse_model_vocab(lines, at, pattern, tokens, base_chars)
        },
        Some(Err(failure)) => Err(failure),
        Some(Ok(count)) => match read_text_section(lines, at + 1, count, "base_char: ") {
            Err(failure) => Err(failure),
            Ok(base_chars) => parse_model_vocab(
                lines,
                at + 1 + count as usize,
                pattern,
                tokens,
                base_chars,
            ),
        },
    }
}

/// Reads a model file from its lines.
pub fn parse_model_lines(lines: &Vec<Vec<char>>) -> (outcome: Result<ModelFile, LoadFailure>)
    ensures
        match parse_lines(chars_view(lines@)) {
            Ok(file) => outcome is Ok && outcome->Ok_0@ == file,
            Err(failure) => outcome == Err::<ModelFile, LoadFailure>(failure),
        },
{
    if lines.len() == 0 {
        return Err(LoadFailure::MissingPattern);
    }
    let pattern = match strip_prefix(&lines[0], "pattern: ") {
        Some(pattern) => pattern,
        None => {
            return Err(LoadFailure::MissingPattern);
        },
    };
    proof {
        reveal_strlit("");
        assert(""@ =~= Seq::<char>::empty());
    }
    match read_header(lines, 1, "vocab_size: ") {
        None => {
            let tokens: Vec<Vec<char>> = Vec::new();
            assert(chars_view(tokens@) =~= Seq::<Seq<char>>::empty());
            parse_model_base_chars(lines, 1, pattern, tokens)
        },
        Some(Err(failure)) => Err(failure),
        Some(Ok(count)) => match read_text_section(lines, 2, count, "") {
            Err(failure) => Err(failure),
            Ok(tokens) => parse_model_base_chars(lines, 2 + count as usize, pattern, tokens),
        },
    }
}

/// Reads a model file from its text.
pub fn parse_model(text: &Vec<char>) -> (outcome: Result<ModelFile, LoadFailure>)
    ensures
        match parse_text(text@) {
            Ok(file) => outcome is Ok && outcome->Ok_0@ == file,
            Err(failure) => outcome == Err::<ModelFile, LoadFailure>(failure),
        },
{
    let mut lines = split_chars(text, '\n');
    let ghost pieces = chars_view(lines@);
    let n = lines.len();
    if lines[n - 1].len() == 0 {
        lines.pop();
        proof {
            assert(chars_view(lines@) =~= pieces.drop_last());
        }
    }
    parse_model_lines(&lines)
}

/// The lines written one after the other, each ended by a line feed.
pub fn join_lines(lines: &Vec<Vec<char>>) -> (text: Vec<char>)
    ensures
        text@ == join_with(chars_view(lines@).push(seq![]), '\n'),
{
    let ghost all = chars_view(lines@);
    let mut text: Vec<char> = Vec::new();
    let mut i: usize = 0;
    proof {
        assert(all.take(0).push(seq![]) =~= seq![Seq::<char>::empty()]);
    }
    while i < lines.len()
        invariant
            i <= lines@.len(),
            all == chars_view(lines@),
            text@ == join_with(all.take(i as int).push(seq![]), '\n'),
        decreases lines.len() - i,
    {
        proof {
            let before = all.take(i as int).push(seq![]);
            let after = all.take(i + 1).push(seq![]);
            assert(after.drop_last() =~= all.take(i + 1));
            assert(all.take(i + 1).drop_last() =~= all.take(i as int));
            assert(before.drop_last() =~= all.take(i as int));
            if i == 0 {
                assert(all.take(1) =~= seq![all[0]]);
                assert(join_with(all.take(1), '\n') =~= all[0]);
                assert(join_with(before, '\n') =~= Seq::<char>::empty());
            } else {
                assert(join_with(before, '\n') =~= join_with(all.take(i as int), '\n') + seq![
                    '\n',
                ]);
                assert(join_with(all.take(i + 1), '\n') =~= join_with(all.take(i as int), '\n')
                    + seq!['\n'] + all[i as int]);
            }
            assert(join_with(after, '\n') =~= join_with(before, '\n') + all[i as int] + seq![
                '\n',
            ]);
        }
        append_items(&mut text, &lines[i]);
        text.push('\n');
        i += 1;
    }
    proof {
        assert(all.take(lines@.len() as int) =~= all);
    }
    text
}

/// The line of a header.
pub fn header_chars(prefix: &str, count: u64) -> (line: Vec<char>)
    ensures
        line@ == header_line(prefix@, count as nat),
{
    let mut line = chars_of(prefix);
    let digits = decimal_chars(count);
    append_items(&mut line, &digits);
    line
}

/// A text behind a prefix.
pub fn prefixed_chars(prefix: &str, text: &Vec<char>) -> (line: Vec<char>)
    ensures
        line@ == prefix@ + text@,
{
    let mut line = chars_of(prefix);
    append_items(&mut line, text);
    line
}

/// A line of numbers.
pub fn numbers_chars(prefix: &str, numbers: &Vec<u64>) -> (line: Vec<char>)
    ensures
        line@ == numbers_text(prefix@, numbers@),
{
    let ghost all = decimals(numbers@);
    let mut joined: Vec<char> = Vec::new();
    let mut i: usize = 0;
    proof {
        assert(all.take(0) =~= Seq::<Seq<char>>::empty());
    }
    while i < numbers.len()
        invariant
            i <= numbers@.len(),
            all == decimals(numbers@),
            joined@ == join_with(all.take(i as int), ' '),
        decreases numbers.len() - i,
    {
        proof {
            assert(all.take(i + 1).drop_last() =~= all.take(i as int));
            assert(all.take(i + 1).last() == decimal(numbers@[i as int] as nat));
            if i == 0 {
                assert(all.take(1) =~= seq![all[0]]);
            }
        }
        if i > 0 {
            joined.push(' ');
        }
        let digits = decimal_chars(numbers[i]);
        append_items(&mut joined, &digits);
        proof {
            if i > 0 {
                assert(joined@ =~= join_with(all.take(i as int), ' ') + seq![' '] + all[i as int]);
            } else {
                assert(joined@ =~= all[0]);
            }
        }
        i += 1;
    }
    proof {
        assert(all.take(numbers@.len() as int) =~= all);
    }
    prefixed_chars(prefix, &joined)
}

/// Writes the lines of texts behind `lines`, each behind the prefix.
pub fn push_texts(lines: &mut Vec<Vec<char>>, prefix: &str, texts: &Vec<Vec<char>>)
    ensures
        chars_view(final(lines)@) == chars_view(old(lines)@) + text_lines(
            prefix@,
            chars_view(texts@),
        ),
{
    let ghost first = chars_view(lines@);
    let ghost all = chars_view(texts@);
    let mut i: usize = 0;
    proof {
        assert(first + text_lines(prefix@, all.take(0)) =~= first);
    }
    while i < texts.len()
        invariant
            i <= texts@.len(),
            all == chars_view(texts@),
            chars_view(lines@) == first + text_lines(prefix@, all.take(i as int)),
        decreases texts.len() - i,
    {
        let ghost before = chars_view(lines@);
        lines.push(prefixed_chars(prefix, &texts[i]));
        proof {
            assert(chars_view(lines@) =~= before.push(prefix@ + all[i as int]));
            assert(first + text_lines(prefix@, all.take(i + 1)) =~= (first + text_lines(
                prefix@,
                all.take(i as int),
            )).push(prefix@ + all[i as int]));
        }
        i += 1;
    }
    proof {
        assert(all.take(texts@.len() as int) =~= all);
    }
}

/// Writes the lines of numbers behind `lines`, each behind the prefix.
pub fn push_numbers(lines: &mut Vec<Vec<char>>, prefix: &str, rows: &Vec<Vec<u64>>)
    ensures
        chars_view(final(lines)@) == chars_view(old(lines)@) + number_lines(
            prefix@,
            rows_view(rows@),
        ),
{
    let ghost first = chars_view(lines@);
    let ghost all = rows_view(rows@);
    let mut i: usize = 0;
    proof {
        assert(first + number_lines(prefix@, all.take(0)) =~= first);
    }
    while i < rows.len()
        invariant
            i <= rows@.len(),
            all == rows_view(rows@),
            chars_view(lines@) == first + number_lines(prefix@, all.take(i as int)),
        decreases rows.len() - i,
    {
        let ghost before = chars_view(lines@);
        lines.push(numbers_chars(prefix, &rows[i]));
        proof {
            let row = numbers_text(prefix@, all[i as int]);
            assert(chars_view(lines@) =~= before.push(row));
            assert(first + number_lines(prefix@, all.take(i + 1)) =~= (first + number_lines(
                prefix@,
                all.take(i as int),
            )).push(row));
        }
        i += 1;
    }
    proof {
        assert(all.take(rows@.len() as int) =~= all);
    }
}

/// Writes one line behind `lines`.
pub fn push_line(lines: &mut Vec<Vec<char>>, line: Vec<char>)
    ensures
        chars_view(final(lines)@) == chars_view(old(lines)@) + seq![line@],
{
    let ghost before = chars_view(lines@);
    lines.push(line);
    assert(chars_view(lines@) =~= before + seq![line@]);
}

/// The text of a model file.
pub fn render_model(file: &ModelFile) -> (text: Vec<char>)
    ensures
        text@ == render_text(file@),
{
    let mut lines: Vec<Vec<char>> = Vec::new();
    proof {
        reveal_strlit("");
        assert(""@ =~= Seq::<char>::empty());
        assert(chars_view(lines@) =~= Seq::<Seq<char>>::empty());
    }
    push_line(&mut lines, prefixed_chars("pattern: ", &file.pattern));
    push_line(&mut lines, header_chars("vocab_size: ", file.tokens.len() as u64));
    push_texts(&mut lines, "", &file.tokens);
    push_line(&mut lines, header_chars("base_chars: ", file.base_chars.len() as u64));
    push_texts(&mut lines, "base_char: ", &file.base_chars);
    push_line(&mut lines, header_chars("vocab: ", file.vocab.len() as u64));
    push_numbers(&mut lines, "vocab_entry: ", &file.vocab);
    push_line(&mut lines, header_chars("merges: ", file.merges.len() as u64));
    push_numbers(&mut lines, "merge: ", &file.merges);
    let ghost before = chars_view(lines@);
    match file.next_token_id {
        Some(id) => {
            push_line(&mut lines, header_chars("next_token_id: ", id));
        },
        None => {
            assert(chars_view(lines@) =~= before + Seq::<Seq<char>>::empty());
        },
    }
    proof {
        assert(Seq::<Seq<char>>::empty() + seq!["pattern: "@ + file@.pattern] =~= seq![
            "pattern: "@ + file@.pattern,
        ]);
        assert(chars_view(lines@) == render_lines(file@));
    }
    join_lines(&lines)
}

/// What a model file must meet to be written as text: no line feed in the
/// pattern, in a token line or in a base character, and an id in every entry
/// and a number in every rule.
pub open spec fn printable(file: ModelText) -> bool {
    &&& free_of(file.pattern, '\n')
    &&& forall|i: int| 0 <= i < file.tokens.len() ==> free_of(#[trigger] file.tokens[i], '\n')
    &&& forall|i: int|
        0 <= i < file.base_chars.len() ==> free_of(#[trigger] file.base_chars[i], '\n')
    &&& forall|i: int| 0 <= i < file.vocab.len() ==> (#[trigger] file.vocab[i]).len() >= 1
    &&& forall|i: int| 0 <= i < file.merges.len() ==> (#[trigger] file.merges[i]).len() >= 1
    &&& file.tokens.len() <= u64::MAX
    &&& file.base_chars.len() <= u64::MAX
    &&& file.vocab.len() <= u64::MAX
    &&& file.merges.len() <= u64::MAX
}

/// A text behind a prefix is found behind the prefix.
pub proof fn lemma_after_prefix(prefix: Seq<char>, rest: Seq<char>)
    ensures
        after_prefix(prefix + rest, prefix) == Some(rest),
{
    assert((prefix + rest).take(prefix.len() as int) =~= prefix);
    assert((prefix + rest).skip(prefix.len() as int) =~= rest);
}

/// The line of a header reads as its count.
pub proof fn lemma_header_count(lines: Seq<Seq<char>>, at: int, prefix: Seq<char>, count: nat)
    requires
        0 <= at < lines.len(),
        lines[at] == header_line(prefix, count),
        count <= u64::MAX,
    ensures
        header_count(lines, at, prefix) == Some(Ok::<u64, LoadFailure>(count as u64)),
{
    lemma_after_prefix(prefix, decimal(count));
    lemma_number_of_decimal(count);
}

/// Lines of texts behind a prefix read as the texts.
pub proof fn lemma_read_texts(
    lines: Seq<Seq<char>>,
    at: int,
    texts: Seq<Seq<char>>,
    prefix: Seq<char>,
    n: nat,
)
    requires
        0 <= at,
        n <= texts.len(),
        at + texts.len() <= lines.len(),
        forall|i: int| 0 <= i < texts.len() ==> #[trigger] lines[at + i] == prefix + texts[i],
    ensures
        read_texts(lines, at, n, prefix) == Ok::<Seq<Seq<char>>, LoadFailure>(texts.take(n as int)),
    decreases n,
{
    if n == 0 {
        assert(texts.take(0) =~= Seq::<Seq<char>>::empty());
    } else {
        lemma_read_texts(lines, at, texts, prefix, (n - 1) as nat);
        let i = at + n - 1;
        assert(lines[at + (n - 1)] == prefix + texts[n - 1]);
        lemma_after_prefix(prefix, texts[n - 1]);
        assert(texts.take(n as int) =~= texts.take(n - 1).push(texts[n - 1]));
    }
}

/// The digits of numbers read as the numbers.
pub proof fn lemma_numbers_of_decimals(numbers: Seq<u64>)
    ensures
        numbers_of(decimals(numbers)) == Some(numbers),
    decreases numbers.len(),
{
    if numbers.len() == 0 {
        assert(decimals(numbers) =~= Seq::<Seq<char>>::empty());
        assert(numbers =~= Seq::<u64>::empty());
    } else {
        lemma_numbers_of_decimals(numbers.drop_last());
        assert(decimals(numbers).drop_last() =~= decimals(numbers.drop_last()));
        lemma_number_of_decimal(numbers.last() as nat);
        assert(decimals(numbers).last() == decimal(numbers.last() as nat));
        assert(numbers.drop_last().push(numbers.last()) =~= numbers);
    }
}

/// A line of numbers reads as its numbers.
pub proof fn lemma_numbers_line(prefix: Seq<char>, numbers: Seq<u64>)
    requires
        numbers.len() >= 1,
    ensures
        numbers_line(numbers_text(prefix, numbers), prefix) == Some(numbers),
{
    let fields = decimals(numbers);
    lemma_after_prefix(prefix, join_with(fields, ' '));
    assert forall|i: int| 0 <= i < fields.len() implies free_of(#[trigger] fields[i], ' ') by {
        lemma_decimal_free_of(numbers[i] as nat, ' ');
    }
    lemma_split_join(fields, ' ');
    lemma_numbers_of_decimals(numbers);
}

/// Lines of numbers behind a prefix read as the numbers.
pub proof fn lemma_read_numbers(
    lines: Seq<Seq<char>>,
    at: int,
    rows: Seq<Seq<u64>>,
    prefix: Seq<char>,
    n: nat,
)
    requires
        0 <= at,
        n <= rows.len(),
        at + rows.len() <= lines.len(),
        forall|i: int| 0 <= i < rows.len() ==> (#[trigger] rows[i]).len() >= 1,
        forall|i: int|
            0 <= i < rows.len() ==> #[trigger] lines[at + i] == numbers_text(prefix, rows[i]),
    ensures
        read_numbers(lines, at, n, prefix) == Ok::<Seq<Seq<u64>>, LoadFailure>(rows.take(n as int)),
    decreases n,
{
    if n == 0 {
        assert(rows.take(0) =~= Seq::<Seq<u64>>::empty());
    } else {
        lemma_read_numbers(lines, at, rows, prefix, (n - 1) as nat);
        assert(lines[at + (n - 1)] == numbers_text(prefix, rows[n - 1]));
        assert(rows[n - 1].len() >= 1);
        lemma_numbers_line(prefix, rows[n - 1]);
        assert(rows.take(n as int) =~= rows.take(n - 1).push(rows[n - 1]));
    }
}

/// The words of the headers hold no line feed, and none of them is empty.
pub proof fn lemma_prefixes()
    ensures
        free_of("pattern: "@, '\n'),
        free_of("vocab_size: "@, '\n'),
        free_of("base_chars: "@, '\n'),
        free_of("base_char: "@, '\n'),
        free_of("vocab: "@, '\n'),
        free_of("vocab_entry: "@, '\n'),
        free_of("merges: "@, '\n'),
        free_of("merge: "@, '\n'),
        free_of("next_token_id: "@, '\n'),
        "next_token_id: "@.len() > 0,
{
    reveal_strlit("pattern: ");
    reveal_strlit("vocab_size: ");
    reveal_strlit("base_chars: ");
    reveal_strlit("base_char: ");
    reveal_strlit("vocab: ");
    reveal_strlit("vocab_entry: ");
    reveal_strlit("merges: ");
    reveal_strlit("merge: ");
    reveal_strlit("next_token_id: ");
}

/// Two texts without line feed in a row hold none.
pub proof fn lemma_free_of_concat(a: Seq<char>, b: Seq<char>, sep: char)
    requires
        free_of(a, sep),
        free_of(b, sep),
    ensures
        free_of(a + b, sep),
{
    assert forall|i: int| 0 <= i < (a + b).len() implies #[trigger] (a + b)[i] != sep by {
        if i < a.len() {
            assert(a[i] != sep);
        } else {
            assert(b[i - a.len()] != sep);
        }
    }
}

/// A line of numbers holds no line feed where the prefix holds none.
pub proof fn lemma_numbers_text_free(prefix: Seq<char>, numbers: Seq<u64>)
    requires
        free_of(prefix, '\n'),
    ensures
        free_of(numbers_text(prefix, numbers), '\n'),
{
    lemma_joined_decimals_free(numbers);
    lemma_free_of_concat(prefix, join_with(decimals(numbers), ' '), '\n');
}

/// Numbers with spaces between hold no line feed.
pub proof fn lemma_joined_decimals_free(numbers: Seq<u64>)
    ensures
        free_of(join_with(decimals(numbers), ' '), '\n'),
    decreases numbers.len(),
{
    let fields = decimals(numbers);
    if numbers.len() == 0 {
    } else if numbers.len() == 1 {
        lemma_decimal_free_of(numbers[0] as nat, '\n');
    } else {
        lemma_joined_decimals_free(numbers.drop_last());
        assert(fields.drop_last() =~= decimals(numbers.drop_last()));
        lemma_decimal_free_of(numbers.last() as nat, '\n');
        let front = join_with(fields.drop_last(), ' ');
        lemma_free_of_concat(front, seq![' '], '\n');
        lemma_free_of_concat(front + seq![' '], fields.last(), '\n');
    }
}

/// Where the sections of a written file begin: the headers of the base
/// characters, of the vocabulary and of the merge rules, and the end.
pub open spec fn section_starts(file: ModelText) -> (int, int, int, int) {
    let a1: int = 2 + file.tokens.len() as int;
    let a2: int = a1 + 1 + file.base_chars.len();
    let a3: int = a2 + 1 + file.vocab.len();
    let a4: int = a3 + 1 + file.merges.len();
    (a1, a2, a3, a4)
}

/// What stands in which line of a written file.
pub open spec fn lines_as_written(file: ModelText, all: Seq<Seq<char>>) -> bool {
    let (a1, a2, a3, a4) = section_starts(file);
    &&& all.len() == a4 + (if file.next_token_id is Some {
        1int
    } else {
        0int
    })
    &&& all[0] == "pattern: "@ + file.pattern
    &&& all[1] == header_line("vocab_size: "@, file.tokens.len())
    &&& forall|i: int|
        0 <= i < file.tokens.len() ==> #[trigger] all[2 + i] == Seq::<char>::empty()
            + file.tokens[i]
    &&& all[a1] == header_line("base_chars: "@, file.base_chars.len())
    &&& forall|i: int|
        0 <= i < file.base_chars.len() ==> #[trigger] all[a1 + 1 + i] == "base_char: "@
            + file.base_chars[i]
    &&& all[a2] == header_line("vocab: "@, file.vocab.len())
    &&& forall|i: int|
        0 <= i < file.vocab.len() ==> #[trigger] all[a2 + 1 + i] == numbers_text(
            "vocab_entry: "@,
            file.vocab[i],
        )
    &&& all[a3] == header_line("merges: "@, file.merges.len())
    &&& forall|i: int|
        0 <= i < file.merges.len() ==> #[trigger] all[a3 + 1 + i] == numbers_text(
            "merge: "@,
            file.merges[i],
        )
    &&& file.next_token_id matches Some(id) ==> all[a4] == header_line(
        "next_token_id: "@,
        id as nat,
    )
}

/// The lines of a written file stand where `lines_as_written` says.
pub proof fn lemma_lines_as_written(file: ModelText)
    ensures
        lines_as_written(file, render_lines(file)),
{
    let all = render_lines(file);
    let (a1, a2, a3, a4) = section_starts(file);
    let head = seq!["pattern: "@ + file.pattern] + seq![
        header_line("vocab_size: "@, file.tokens.len()),
    ];
    let s1 = head + text_lines(seq![], file.tokens);
    let s2 = s1 + seq![header_line("base_chars: "@, file.base_chars.len())];
    let s3 = s2 + text_lines("base_char: "@, file.base_chars);
    let s4 = s3 + seq![header_line("vocab: "@, file.vocab.len())];
    let s5 = s4 + number_lines("vocab_entry: "@, file.vocab);
    let s6 = s5 + seq![header_line("merges: "@, file.merges.len())];
    let s7 = s6 + number_lines("merge: "@, file.merges);
    assert(s1.len() == a1);
    assert(s3.len() == a2);
    assert(s5.len() == a3);
    assert(s7.len() == a4);
    assert forall|i: int| 0 <= i < file.tokens.len() implies #[trigger] all[2 + i]
        == Seq::<char>::empty() + file.tokens[i] by {
        assert(s1[2 + i] == text_lines(seq![], file.tokens)[i]);
        assert(s7[2 + i] == s1[2 + i]);
    }
    assert(all[a1] == header_line("base_chars: "@, file.base_chars.len())) by {
        assert(s2[a1] == header_line("base_chars: "@, file.base_chars.len()));
        assert(s7[a1] == s2[a1]);
    }
    assert forall|i: int| 0 <= i < file.base_chars.len() implies #[trigger] all[a1 + 1 + i]
        == "base_char: "@ + file.base_chars[i] by {
        assert(s3[a1 + 1 + i] == text_lines("base_char: "@, file.base_chars)[i]);
        assert(s7[a1 + 1 + i] == s3[a1 + 1 + i]);
    }
    assert(all[a2] == header_line("vocab: "@, file.vocab.len())) by {
        assert(s4[a2] == header_line("vocab: "@, file.vocab.len()));
        assert(s7[a2] == s4[a2]);
    }
    assert forall|i: int| 0 <= i < file.vocab.len() implies #[trigger] all[a2 + 1 + i]
        == numbers_text("vocab_entry: "@, file.vocab[i]) by {
        assert(s5[a2 + 1 + i] == number_lines("vocab_entry: "@, file.vocab)[i]);
        assert(s7[a2 + 1 + i] == s5[a2 + 1 + i]);
    }
    assert(all[a3] == header_line("merges: "@, file.merges.len())) by {
        assert(s6[a3] == header_line("merges: "@, file.merges.len()));
        assert(s7[a3] == s6[a3]);
    }
    assert forall|i: int| 0 <= i < file.merges.len() implies #[trigger] all[a3 + 1 + i]
        == numbers_text("merge: "@, file.merges[i]) by {
        assert(s7[a3 + 1 + i] == number_lines("merge: "@, file.merges)[i]);
    }
    assert(all[0] == "pattern: "@ + file.pattern) by {
        assert(s7[0] == head[0]);
    }
    assert(all[1] == header_line("vocab_size: "@, file.tokens.len())) by {
        assert(s7[1] == head[1]);
    }
}

/// No line of a written file holds a line feed.
pub proof fn lemma_written_lines_free(file: ModelText, all: Seq<Seq<char>>)
    requires
        printable(file),
        lines_as_written(file, all),
    ensures
        forall|i: int| 0 <= i < all.len() ==> free_of(#[trigger] all[i], '\n'),
{
    lemma_prefixes();
    let (a1, a2, a3, a4) = section_starts(file);
    assert forall|i: int| 0 <= i < all.len() implies free_of(#[trigger] all[i], '\n') by {
        if i == 0 {
            lemma_free_of_concat("pattern: "@, file.pattern, '\n');
        } else if i == 1 {
            lemma_decimal_free_of(file.tokens.len(), '\n');
            lemma_free_of_concat("vocab_size: "@, decimal(file.tokens.len()), '\n');
        } else if i < a1 {
            assert(all[2 + (i - 2)] == Seq::<char>::empty() + file.tokens[i - 2]);
            assert(Seq::<char>::empty() + file.tokens[i - 2] =~= file.tokens[i - 2]);
        } else if i == a1 {
            lemma_decimal_free_of(file.base_chars.len(), '\n');
            lemma_free_of_concat("base_chars: "@, decimal(file.base_chars.len()), '\n');
        } else if i < a2 {
            assert(all[a1 + 1 + (i - a1 - 1)] == "base_char: "@ + file.base_chars[i - a1 - 1]);
            lemma_free_of_concat("base_char: "@, file.base_chars[i - a1 - 1], '\n');
        } else if i == a2 {
            lemma_decimal_free_of(file.vocab.len(), '\n');
            lemma_free_of_concat("vocab: "@, decimal(file.vocab.len()), '\n');
        } else if i < a3 {
            assert(all[a2 + 1 + (i - a2 - 1)] == numbers_text(
                "vocab_entry: "@,
                file.vocab[i - a2 - 1],
            ));
            lemma_numbers_text_free("vocab_entry: "@, file.vocab[i - a2 - 1]);
        } else if i == a3 {
            lemma_decimal_free_of(file.merges.len(), '\n');
            lemma_free_of_concat("merges: "@, decimal(file.merges.len()), '\n');
        } else if i < a4 {
            assert(all[a3 + 1 + (i - a3 - 1)] == numbers_text("merge: "@, file.merges[i - a3 - 1]));
            lemma_numbers_text_free("merge: "@, file.merges[i - a3 - 1]);
        } else {
            let id = file.next_token_id->0;
            lemma_decimal_free_of(id as nat, '\n');
            lemma_free_of_concat("next_token_id: "@, decimal(id as nat), '\n');
        }
    }
}

/// The lines of a written file read as the file, up to the end of the merge
/// rules.
pub proof fn lemma_parse_written_lines(file: ModelText, all: Seq<Seq<char>>)
    requires
        printable(file),
        lines_as_written(file, all),
    ensures
        parse_lines(all) == parse_end(
            all,
            section_starts(file).3,
            ModelText { next_token_id: None, ..file },
        ),
{
    let (a1, a2, a3, a4) = section_starts(file);
    lemma_after_prefix("pattern: "@, file.pattern);
    lemma_header_count(all, 1, "vocab_size: "@, file.tokens.len());
    lemma_read_texts(all, 2, file.tokens, seq![], file.tokens.len());
    assert(file.tokens.take(file.tokens.len() as int) =~= file.tokens);
    assert(parse_lines(all) == parse_base_chars(all, a1, file.pattern, file.tokens));
    lemma_header_count(all, a1, "base_chars: "@, file.base_chars.len());
    lemma_read_texts(all, a1 + 1, file.base_chars, "base_char: "@, file.base_chars.len());
    assert(file.base_chars.take(file.base_chars.len() as int) =~= file.base_chars);
    assert(parse_lines(all) == parse_vocab(all, a2, file.pattern, file.tokens, file.base_chars));
    lemma_header_count(all, a2, "vocab: "@, file.vocab.len());
    lemma_read_numbers(all, a2 + 1, file.vocab, "vocab_entry: "@, file.vocab.len());
    assert(file.vocab.take(file.vocab.len() as int) =~= file.vocab);
    assert(parse_lines(all) == parse_merges(
        all,
        a3,
        file.pattern,
        file.tokens,
        file.base_chars,
        file.vocab,
    ));
    lemma_header_count(all, a3, "merges: "@, file.merges.len());
    lemma_read_numbers(all, a3 + 1, file.merges, "merge: "@, file.merges.len());
    assert(file.merges.take(file.merges.len() as int) =~= file.merges);
}

/// Reading undoes writing: the text of a model file that can be written reads as
/// that file.
pub proof fn lemma_parse_render(file: ModelText)
    requires
        printable(file),
    ensures
        parse_text(render_text(file)) == Ok::<ModelText, LoadFailure>(file),
{
    let all = render_lines(file);
    let a4 = section_starts(file).3;
    lemma_prefixes();
    lemma_lines_as_written(file);
    lemma_written_lines_free(file, all);
    assert forall|i: int| 0 <= i < all.push(seq![]).len() implies free_of(
        #[trigger] all.push(seq![])[i],
        '\n',
    ) by {
        if i < all.len() {
            assert(free_of(all[i], '\n'));
        }
    }
    lemma_split_join(all.push(seq![]), '\n');
    assert(all.push(seq![]).drop_last() =~= all);
    assert(file_lines(render_text(file)) == all);
    lemma_parse_written_lines(file, all);
    let partial = ModelText { next_token_id: None, ..file };
    match file.next_token_id {
        Some(id) => {
            lemma_header_count(all, a4, "next_token_id: "@, id as nat);
            assert(first_text(all, a4 + 1) is None);
        },
        None => {
            assert(first_text(all, a4) is None);
        },
    }
    assert(parse_end(all, a4, partial) == Ok::<ModelText, LoadFailure>(file));
}

} // verus!
