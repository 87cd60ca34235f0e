//! The splitting pattern: a regular expression that cuts a text into pre-tokens.

use fancy_regex::Regex;
use vstd::prelude::*;

verus! {

/// The default pattern, in the style of GPT-4.
pub const GPT4_PATTERN: &'static str =
    r"'(?i:[sdmt]|ll|ve|re)|[^\r\n\p{L}\p{N}]?+\p{L}+|\p{N}{1,3}| ?[^\s\p{L}\p{N}]++[\r\n]*|\s*[\r\n]|\s+(?!\S)|\s+";

/// `Regex` of fancy_regex: a compiled pattern.
#[verifier::external_type_specification]
#[verifier::external_body]
pub struct ExRegex(Regex);

/// `Error` of fancy_regex: why a pattern does not compile or a search gave up.
#[verifier::external_type_specification]
#[verifier::external_body]
pub struct ExRegexError(fancy_regex::Error);

/// Whether `source` is a pattern that the regular-expression engine accepts.
pub uninterp spec fn pattern_compiles(source: Seq<char>) -> bool;

/// What a scan of `text` with the pattern `source` finds: the matches, first to
/// last, up to the first attempt that the engine gave up, and whether it gave
/// one up.
pub uninterp spec fn pattern_scan(source: Seq<char>, text: Seq<char>) -> (Seq<Seq<char>>, bool);

/// The words that the whitespace of `text` separates.
pub uninterp spec fn whitespace_words(text: Seq<char>) -> Seq<Seq<char>>;

/// Whether `piece` stands in `text` in one piece.
pub open spec fn is_slice_of(piece: Seq<char>, text: Seq<char>) -> bool {
    exists|start: int|
        0 <= start && start + piece.len() <= text.len() && #[trigger] text.subrange(
            start,
            start + piece.len(),
        ) == piece
}

/// Whether the pieces stand in `text` at the places `starts`: each where its
/// place says, and each behind the end of the one before it.
pub open spec fn placed_at(starts: Seq<int>, pieces: Seq<Seq<char>>, text: Seq<char>) -> bool {
    &&& starts.len() == pieces.len()
    &&& forall|i: int|
        0 <= i < pieces.len() ==> 0 <= #[trigger] starts[i] && starts[i] + pieces[i].len()
            <= text.len() && text.subrange(starts[i], starts[i] + pieces[i].len()) == pieces[i]
    &&& forall|i: int|
        0 <= i < pieces.len() - 1 ==> #[trigger] starts[i] + pieces[i].len() <= starts[i + 1]
}

/// Whether the pieces stand in `text` one behind the other, without overlap.
pub open spec fn in_order(pieces: Seq<Seq<char>>, text: Seq<char>) -> bool {
    exists|starts: Seq<int>| placed_at(starts, pieces, text)
}

/// The number of characters of all pieces together.
pub open spec fn total_chars(pieces: Seq<Seq<char>>) -> nat
    decreases pieces.len(),
{
    if pieces.len() == 0 {
        0
    } else {
        total_chars(pieces.drop_last()) + pieces.last().len()
    }
}

/// Pieces that stand in a text one behind the other end where the last of them
/// ends.
pub proof fn lemma_placed_len(starts: Seq<int>, pieces: Seq<Seq<char>>, text: Seq<char>, n: int)
    requires
        placed_at(starts, pieces, text),
        0 <= n <= pieces.len(),
    ensures
        n == 0 ==> total_chars(pieces.take(n)) == 0,
        n > 0 ==> total_chars(pieces.take(n)) <= starts[n - 1] + pieces[n - 1].len(),
    decreases n,
{
    if n == 0 {
        assert(pieces.take(0) =~= Seq::<Seq<char>>::empty());
    } else {
        lemma_placed_len(starts, pieces, text, n - 1);
        assert(pieces.take(n).drop_last() =~= pieces.take(n - 1));
        assert(pieces.take(n).last() == pieces[n - 1]);
        if n > 1 {
            assert(starts[n - 2] + pieces[n - 2].len() <= starts[n - 1]);
        } else {
            assert(0 <= starts[0]);
        }
    }
}

/// Pieces that stand in a text one behind the other hold no more characters
/// than the text.
pub proof fn lemma_in_order_len(pieces: Seq<Seq<char>>, text: Seq<char>)
    requires
        in_order(pieces, text),
    ensures
        total_chars(pieces) <= text.len(),
{
    let starts = choose|starts: Seq<int>| placed_at(starts, pieces, text);
    lemma_placed_len(starts, pieces, text, pieces.len() as int);
    assert(pieces.take(pieces.len() as int) =~= pieces);
    if pieces.len() > 0 {
        assert(0 <= starts[pieces.len() - 1]);
    }
}

/// The pieces that are not empty hold the characters of all pieces.
pub proof fn lemma_nonempty_len(pieces: Seq<Seq<char>>)
    ensures
        total_chars(nonempty_pieces(pieces)) == total_chars(pieces),
    decreases pieces.len(),
{
    reveal(Seq::filter);
    if pieces.len() > 0 {
        lemma_nonempty_len(pieces.drop_last());
        let keep = |piece: Seq<char>| piece.len() > 0;
        let front = pieces.drop_last().filter(keep);
        if pieces.last().len() > 0 {
            assert(pieces.filter(keep) == front.push(pieces.last()));
            assert(front.push(pieces.last()).drop_last() =~= front);
        } else {
            assert(pieces.filter(keep) == front);
        }
    }
}

/// The texts of the strings.
pub open spec fn strings_view(strings: Seq<String>) -> Seq<Seq<char>> {
    Seq::new(strings.len(), |i: int| strings[i]@)
}

/// A pattern in compiled form, together with its source. Only `compile` makes
/// one, so the compiled form always belongs to the source. The view is the
/// source.
pub struct Pattern {
    source: String,
    compiled: Regex,
}

impl View for Pattern {
    type V = Seq<char>;

    closed spec fn view(&self) -> Seq<char> {
        self.source@
    }
}

impl Pattern {
    /// `Regex::new` of fancy_regex: compiles `source`. It succeeds on the patterns
    /// that the engine accepts, and the pattern then stands for `source`.
    #[verifier::external_body]
    pub(crate) fn compile(source: String) -> (outcome: Result<Pattern, fancy_regex::Error>)
        ensures
            outcome is Ok <==> pattern_compiles(source@),
            outcome matches Ok(pattern) ==> pattern@ == source@,
    {
        let compiled = Regex::new(&source)?;
        Ok(Pattern { source, compiled })
    }

    /// `Regex::find_iter` of fancy_regex: the matches of the pattern in `text`,
    /// first to last, each a piece of `text`. A scan ends at the first attempt
    /// that the engine gives up; the second part says whether that happened.
    #[verifier::external_body]
    pub(crate) fn scan(&self, text: &str) -> (found: (Vec<String>, bool))
        ensures
            strings_view(found.0@) == pattern_scan(self@, text@).0,
            found.1 == pattern_scan(self@, text@).1,
            forall|i: int| 0 <= i < found.0@.len() ==> is_slice_of(#[trigger] found.0@[i]@, text@),
            in_order(strings_view(found.0@), text@),
    {
        let mut pieces: Vec<String> = Vec::new();
        let mut gave_up = false;
        for attempt in self.compiled.find_iter(text) {
            match attempt {
                Ok(found) => pieces.push(found.as_str().to_string()),
                Err(_) => gave_up = true,
            }
        }
        (pieces, gave_up)
    }

    /// The source of the pattern.
    pub fn source(&self) -> (source: &String)
        ensures
            source@ == self@,
    {
        &self.source
    }
}

/// `Error::to_string` of fancy_regex: what the engine says of a failure.
#[verifier::external_body]
pub(crate) fn describe_failure(failure: &fancy_regex::Error) -> String {
    failure.to_string()
}

/// `str::split_whitespace` of std: the pieces of `text` between its whitespace,
/// first to last, none of them empty.
#[verifier::external_body]
pub(crate) fn split_on_whitespace(text: &str) -> (words: Vec<String>)
    ensures
        strings_view(words@) == whitespace_words(text@),
        forall|i: int|
            0 <= i < words@.len() ==> (#[trigger] words@[i]@).len() > 0 && is_slice_of(
                words@[i]@,
                text@,
            ),
        in_order(strings_view(words@), text@),
{
    text.split_whitespace().map(|word| word.to_string()).collect()
}

/// The pieces into which the pattern `source` cuts `text`: its matches, or, where
/// it matches nothing in a text that is not empty, the words between whitespace.
pub open spec fn split_pieces(source: Seq<char>, text: Seq<char>) -> Seq<Seq<char>> {
    if pattern_scan(source, text).0.len() == 0 && text.len() > 0 {
        whitespace_words(text)
    } else {
        pattern_scan(source, text).0
    }
}

/// The pieces of `pieces` that are not empty, in their order.
pub open spec fn nonempty_pieces(pieces: Seq<Seq<char>>) -> Seq<Seq<char>> {
    pieces.filter(|piece: Seq<char>| piece.len() > 0)
}

/// The pre-tokens of `text`: the pieces that are not empty, or, where there is
/// none, the words between whitespace.
pub open spec fn pre_tokens(source: Seq<char>, text: Seq<char>) -> Seq<Seq<char>> {
    let pieces = nonempty_pieces(split_pieces(source, text));
    if pieces.len() == 0 {
        whitespace_words(text)
    } else {
        pieces
    }
}

/// Whether the engine gives up on `text` before it has found every match of
/// the pattern `source`.
pub open spec fn gives_up(source: Seq<char>, text: Seq<char>) -> bool {
    pattern_scan(source, text).1
}

/// The pre-tokens among `pieces` of `text`: the pieces that are not empty, or,
/// where there is none, the words between whitespace.
pub open spec fn kept_tokens(pieces: Seq<Seq<char>>, text: Seq<char>) -> Seq<Seq<char>> {
    if nonempty_pieces(pieces).len() == 0 {
        whitespace_words(text)
    } else {
        nonempty_pieces(pieces)
    }
}

/// Cuts `text` into pieces with `pattern`, and says whether the engine gave up
/// on the way.
pub fn scan_pieces(pattern: &Pattern, text: &str) -> (found: (Vec<String>, bool))
    ensures
        strings_view(found.0@) == split_pieces(pattern@, text@),
        found.1 == gives_up(pattern@, text@),
        forall|i: int| 0 <= i < found.0@.len() ==> is_slice_of(#[trigger] found.0@[i]@, text@),
        in_order(strings_view(found.0@), text@),
{
    let (pieces, gave_up) = pattern.scan(text);
    if pieces.len() == 0 && !text.is_empty() {
        (split_on_whitespace(text), gave_up)
    } else {
        (pieces, gave_up)
    }
}

/// Cuts `text` into pieces with `pattern`. What the engine found before it gave
/// up counts.
pub fn split_with(pattern: &Pattern, text: &str) -> (pieces: Vec<String>)
    ensures
        strings_view(pieces@) == split_pieces(pattern@, text@),
        forall|i: int| 0 <= i < pieces@.len() ==> is_slice_of(#[trigger] pieces@[i]@, text@),
        in_order(strings_view(pieces@), text@),
{
    let (pieces, _) = scan_pieces(pattern, text);
    pieces
}

/// Cuts `text` into pre-tokens with `pattern`. What the engine found before it
/// gave up counts.
pub fn pre_tokenize(pattern: &Pattern, text: &str) -> (tokens: Vec<String>)
    ensures
        strings_view(tokens@) == pre_tokens(pattern@, text@),
        forall|i: int|
            0 <= i < tokens@.len() ==> (#[trigger] tokens@[i]@).len() > 0 && is_slice_of(
                tokens@[i]@,
                text@,
            ),
        text@.len() == 0 ==> tokens@.len() == 0,
        total_chars(pre_tokens(pattern@, text@)) <= text@.len(),
{
    let pieces = split_with(pattern, text);
    keep_tokens(pieces, text)
}

/// Cuts `text` into pre-tokens with `pattern`, or gives nothing where the engine
/// gave up on the way.
pub fn try_pre_tokenize(pattern: &Pattern, text: &str) -> (outcome: Option<Vec<String>>)
    ensures
        outcome is None <==> gives_up(pattern@, text@),
        outcome matches Some(tokens) ==> {
            &&& strings_view(tokens@) == pre_tokens(pattern@, text@)
            &&& forall|i: int|
                0 <= i < tokens@.len() ==> (#[trigger] tokens@[i]@).len() > 0 && is_slice_of(
                    tokens@[i]@,
                    text@,
                )
            &&& text@.len() == 0 ==> tokens@.len() == 0
            &&& total_chars(pre_tokens(pattern@, text@)) <= text@.len()
        },
{
    let (pieces, gave_up) = scan_pieces(pattern, text);
    if gave_up {
        None
    } else {
        Some(keep_tokens(pieces, text))
    }
}

/// The pre-tokens among the pieces of `text`.
pub fn keep_tokens(pieces: Vec<String>, text: &str) -> (tokens: Vec<String>)
    requires
        forall|i: int| 0 <= i < pieces@.len() ==> is_slice_of(#[trigger] pieces@[i]@, text@),
        in_order(strings_view(pieces@), text@),
    ensures
        strings_view(tokens@) == kept_tokens(strings_view(pieces@), text@),
        total_chars(strings_view(tokens@)) <= text@.len(),
        forall|i: int|
            0 <= i < tokens@.len() ==> (#[trigger] tokens@[i]@).len() > 0 && is_slice_of(
                tokens@[i]@,
                text@,
            ),
        text@.len() == 0 ==> tokens@.len() == 0,
{
    let ghost all = strings_view(pieces@);
    let ghost keep = |piece: Seq<char>| piece.len() > 0;
    let mut tokens: Vec<String> = Vec::new();
    let mut i: usize = 0;
    proof {
        reveal(Seq::filter);
        assert(all.take(0) =~= Seq::<Seq<char>>::empty());
    }
    while i < pieces.len()
        invariant
            i <= pieces@.len(),
            all == strings_view(pieces@),
            keep == |piece: Seq<char>| piece.len() > 0,
            strings_view(tokens@) == all.take(i as int).filter(keep),
            forall|k: int| 0 <= k < pieces@.len() ==> is_slice_of(#[trigger] pieces@[k]@, text@),
            forall|k: int|
                0 <= k < tokens@.len() ==> (#[trigger] tokens@[k]@).len() > 0 && is_slice_of(
                    tokens@[k]@,
                    text@,
                ),
        decreases pieces.len() - i,
    {
        proof {
            reveal(Seq::filter);
            assert(all.take(i + 1).drop_last() =~= all.take(i as int));
            assert(all.take(i + 1).last() == all[i as int]);
        }
        if !pieces[i].as_str().is_empty() {
            let piece = pieces[i].clone();
            let ghost before = strings_view(tokens@);
            tokens.push(piece);
            assert(strings_view(tokens@) =~= before.push(all[i as int]));
        }
        i += 1;
    }
    assert(all.take(pieces@.len() as int) =~= all);
    if tokens.len() == 0 {
        let words = split_on_whitespace(text);
        proof {
            if text@.len() == 0 && words@.len() > 0 {
                assert(is_slice_of(words@[0]@, text@));
            }
            lemma_in_order_len(strings_view(words@), text@);
        }
        words
    } else {
        proof {
            if text@.len() == 0 {
                assert(is_slice_of(tokens@[0]@, text@));
            }
            lemma_nonempty_len(all);
            lemma_in_order_len(all, text@);
        }
        tokens
    }
}

} // verus!
