//! Small tools for texts: characters, decimal numbers, lines.

use vstd::prelude::*;
use vstd::std_specs::iter::IteratorSpec;

use vstd::utf8::{decode_utf8, valid_utf8};

verus! {

/// The character of the digit `d`.
pub open spec fn digit_char(d: int) -> char {
    if d == 0 {
        '0'
    } else if d == 1 {
        '1'
    } else if d == 2 {
        '2'
    } else if d == 3 {
        '3'
    } else if d == 4 {
        '4'
    } else if d == 5 {
        '5'
    } else if d == 6 {
        '6'
    } else if d == 7 {
        '7'
    } else if d == 8 {
        '8'
    } else {
        '9'
    }
}

/// The value of a digit character.
pub open spec fn digit_value(c: char) -> int {
    if c == '0' {
        0
    } else if c == '1' {
        1
    } else if c == '2' {
        2
    } else if c == '3' {
        3
    } else if c == '4' {
        4
    } else if c == '5' {
        5
    } else if c == '6' {
        6
    } else if c == '7' {
        7
    } else if c == '8' {
        8
    } else {
        9
    }
}

/// Whether `c` is one of the ten digits.
pub open spec fn is_digit(c: char) -> bool {
    c == '0' || c == '1' || c == '2' || c == '3' || c == '4' || c == '5' || c == '6' || c == '7'
        || c == '8' || c == '9'
}

/// The decimal digits of `n`, without leading zeros.
pub open spec fn decimal(n: nat) -> Seq<char>
    decreases n,
{
    if n < 10 {
        seq![digit_char(n as int)]
    } else {
        decimal(n / 10).push(digit_char((n % 10) as int))
    }
}

/// The number that the digits `chars` write, read from the left.
pub open spec fn digits_value(chars: Seq<char>) -> nat
    decreases chars.len(),
{
    if chars.len() == 0 {
        0
    } else {
        (digits_value(chars.drop_last()) * 10 + digit_value(chars.last())) as nat
    }
}

/// Whether `chars` is a number: one digit at least, and digits only.
pub open spec fn is_number(chars: Seq<char>) -> bool {
    chars.len() > 0 && forall|i: int| 0 <= i < chars.len() ==> is_digit(#[trigger] chars[i])
}

/// The digits of a number are a number, and they write that number.
pub proof fn lemma_decimal_round_trip(n: nat)
    ensures
        is_number(decimal(n)),
        digits_value(decimal(n)) == n,
    decreases n,
{
    if n < 10 {
        assert(decimal(n).drop_last() =~= Seq::<char>::empty());
        assert(digits_value(decimal(n).drop_last()) == 0);
    } else {
        lemma_decimal_round_trip(n / 10);
        assert(decimal(n).drop_last() =~= decimal(n / 10));
    }
}

fn digit_text(d: u64) -> (text: &'static str)
    requires
        d < 10,
    ensures
        text@ == seq![digit_char(d as int)],
{
    proof {
        reveal_strlit("0");
        reveal_strlit("1");
        reveal_strlit("2");
        reveal_strlit("3");
        reveal_strlit("4");
        reveal_strlit("5");
        reveal_strlit("6");
        reveal_strlit("7");
        reveal_strlit("8");
        reveal_strlit("9");
    }
    let text = if d == 0 {
        "0"
    } else if d == 1 {
        "1"
    } else if d == 2 {
        "2"
    } else if d == 3 {
        "3"
    } else if d == 4 {
        "4"
    } else if d == 5 {
        "5"
    } else if d == 6 {
        "6"
    } else if d == 7 {
        "7"
    } else if d == 8 {
        "8"
    } else {
        "9"
    };
    assert(text@ =~= seq![digit_char(d as int)]);
    text
}

/// Writes the decimal digits of `n` behind `out`.
pub fn append_decimal(out: &mut String, n: u64)
    ensures
        final(out)@ == old(out)@ + decimal(n as nat),
    decreases n,
{
    if n >= 10 {
        append_decimal(out, n / 10);
    }
    out.append(digit_text(n % 10));
    proof {
        if n >= 10 {
            assert(final(out)@ =~= old(out)@ + decimal(n as nat));
        } else {
            assert(final(out)@ =~= old(out)@ + decimal(n as nat));
        }
    }
}

/// The decimal digits of `n` as a string.
pub fn decimal_string(n: u64) -> (text: String)
    ensures
        text@ == decimal(n as nat),
{
    let mut text = String::new();
    append_decimal(&mut text, n);
    assert(text@ =~= decimal(n as nat));
    text
}

/// The characters of `text`.
pub fn chars_of(text: &str) -> (chars: Vec<char>)
    ensures
        chars@ == text@,
{
    broadcast use vstd::string::axiom_spec_iter;

    let mut chars: Vec<char> = Vec::new();
    for c in it: text.chars()
        invariant
            it.seq() == text@,
            chars@ == it.seq().take(it.index() as int),
    {
        chars.push(c);
    }
    assert(chars@ =~= text@);
    chars
}

/// `String::from_iter` of std on characters: the string that they spell.
#[verifier::external_body]
pub(crate) fn string_from_chars(chars: &[char]) -> (text: String)
    ensures
        text@ == chars@,
{
    String::from_iter(chars.iter())
}

/// `String::from_utf8` of std: the text of `bytes` where they are valid UTF-8,
/// else nothing.
#[verifier::external_body]
pub(crate) fn string_from_utf8(bytes: Vec<u8>) -> (text: Option<String>)
    ensures
        text is Some <==> valid_utf8(bytes@),
        text matches Some(t) ==> t@ == decode_utf8(bytes@),
{
    String::from_utf8(bytes).ok()
}

/// The pieces of `text` between the occurrences of `sep`: one piece more than
/// there are occurrences, so that the empty text has one empty piece.
pub open spec fn split_on(text: Seq<char>, sep: char) -> Seq<Seq<char>>
    decreases text.len(),
{
    if text.len() == 0 {
        seq![seq![]]
    } else {
        let head = split_on(text.drop_last(), sep);
        if text.last() == sep {
            head.push(seq![])
        } else {
            head.drop_last().push(head.last().push(text.last()))
        }
    }
}

/// The pieces written one after the other with `sep` between them.
pub open spec fn join_with(pieces: Seq<Seq<char>>, sep: char) -> Seq<char>
    decreases pieces.len(),
{
    if pieces.len() == 0 {
        seq![]
    } else if pieces.len() == 1 {
        pieces[0]
    } else {
        join_with(pieces.drop_last(), sep) + seq![sep] + pieces.last()
    }
}

/// Whether `sep` stands nowhere in `text`.
pub open spec fn free_of(text: Seq<char>, sep: char) -> bool {
    forall|i: int| 0 <= i < text.len() ==> #[trigger] text[i] != sep
}

/// Splitting never gives no piece.
pub proof fn lemma_split_nonempty(text: Seq<char>, sep: char)
    ensures
        split_on(text, sep).len() >= 1,
    decreases text.len(),
{
    if text.len() > 0 {
        lemma_split_nonempty(text.drop_last(), sep);
    }
}

/// A text without the separator behind another text lengthens the last piece.
pub proof fn lemma_split_append(text: Seq<char>, more: Seq<char>, sep: char)
    requires
        free_of(more, sep),
    ensures
        split_on(text + more, sep) == split_on(text, sep).drop_last().push(
            split_on(text, sep).last() + more,
        ),
    decreases more.len(),
{
    lemma_split_nonempty(text, sep);
    if more.len() == 0 {
        assert(text + more =~= text);
        assert(split_on(text, sep).last() + more =~= split_on(text, sep).last());
        assert(split_on(text, sep).drop_last().push(split_on(text, sep).last()) =~= split_on(
            text,
            sep,
        ));
    } else {
        assert((text + more).drop_last() =~= text + more.drop_last());
        assert forall|i: int| 0 <= i < more.drop_last().len() implies #[trigger] more.drop_last()[i]
            != sep by {
            assert(more[i] != sep);
        }
        lemma_split_append(text, more.drop_last(), sep);
        assert(more[more.len() - 1] != sep);
        let head = split_on(text, sep);
        assert((head.last() + more.drop_last()).push(more.last()) =~= head.last() + more);
        assert(head.drop_last().push(head.last() + more.drop_last()).drop_last()
            =~= head.drop_last());
    }
}

/// Splitting undoes joining, where no piece holds the separator.
pub proof fn lemma_split_join(pieces: Seq<Seq<char>>, sep: char)
    requires
        pieces.len() >= 1,
        forall|i: int| 0 <= i < pieces.len() ==> free_of(#[trigger] pieces[i], sep),
    ensures
        split_on(join_with(pieces, sep), sep) == pieces,
    decreases pieces.len(),
{
    if pieces.len() == 1 {
        lemma_split_append(seq![], pieces[0], sep);
        assert(Seq::<char>::empty() + pieces[0] =~= pieces[0]);
        assert(split_on(seq![], sep) =~= seq![Seq::<char>::empty()]);
        assert(split_on(pieces[0], sep) =~= pieces);
    } else {
        let front = pieces.drop_last();
        assert forall|i: int| 0 <= i < front.len() implies free_of(#[trigger] front[i], sep) by {
            assert(free_of(pieces[i], sep));
        }
        lemma_split_join(front, sep);
        let joined = join_with(front, sep) + seq![sep];
        assert(joined.drop_last() =~= join_with(front, sep));
        assert(split_on(joined, sep) == front.push(seq![]));
        assert(free_of(pieces[pieces.len() - 1], sep));
        lemma_split_append(joined, pieces.last(), sep);
        assert(Seq::<char>::empty() + pieces.last() =~= pieces.last());
        assert(front.push(seq![]).drop_last() =~= front);
        assert(front.push(pieces.last()) =~= pieces);
    }
}

/// The pieces of `text` between the occurrences of `sep`.
pub fn split_chars(text: &Vec<char>, sep: char) -> (pieces: Vec<Vec<char>>)
    ensures
        pieces@.len() >= 1,
        chars_view(pieces@) == split_on(text@, sep),
{
    let mut done: Vec<Vec<char>> = Vec::new();
    let mut current: Vec<char> = Vec::new();
    let mut i: usize = 0;
    proof {
        assert(text@.take(0) =~= Seq::<char>::empty());
        assert(chars_view(done@).push(current@) =~= split_on(text@.take(0), sep));
    }
    while i < text.len()
        invariant
            i <= text@.len(),
            chars_view(done@).push(current@) == split_on(text@.take(i as int), sep),
        decreases text.len() - i,
    {
        let c = text[i];
        let ghost before = chars_view(done@);
        let ghost head = split_on(text@.take(i as int), sep);
        proof {
            assert(text@.take(i + 1).drop_last() =~= text@.take(i as int));
            assert(text@.take(i + 1).last() == c);
            assert(head.last() == current@);
            assert(head.drop_last() =~= before);
        }
        if c == sep {
            done.push(current);
            current = Vec::new();
            proof {
                assert(chars_view(done@) =~= head);
            }
        } else {
            current.push(c);
            proof {
                assert(chars_view(done@) =~= before);
            }
        }
        i += 1;
    }
    proof {
        assert(text@.take(text@.len() as int) =~= text@);
    }
    let ghost before = chars_view(done@);
    let ghost last = current@;
    done.push(current);
    proof {
        assert(chars_view(done@) =~= before.push(last));
    }
    done
}

/// The texts of vectors of characters.
pub open spec fn chars_view(texts: Seq<Vec<char>>) -> Seq<Seq<char>> {
    Seq::new(texts.len(), |i: int| texts[i]@)
}

/// Whether `text` begins with `prefix`.
pub open spec fn begins_with(text: Seq<char>, prefix: Seq<char>) -> bool {
    text.len() >= prefix.len() && text.take(prefix.len() as int) == prefix
}

/// Whether `text` begins with `prefix`.
pub fn has_prefix(text: &Vec<char>, prefix: &Vec<char>) -> (found: bool)
    ensures
        found == begins_with(text@, prefix@),
{
    if text.len() < prefix.len() {
        return false;
    }
    let mut i: usize = 0;
    while i < prefix.len()
        invariant
            i <= prefix@.len(),
            prefix@.len() <= text@.len(),
            forall|k: int| 0 <= k < i ==> text@[k] == prefix@[k],
        decreases prefix.len() - i,
    {
        if text[i] != prefix[i] {
            proof {
                assert(text@.take(prefix@.len() as int)[i as int] == text@[i as int]);
            }
            return false;
        }
        i += 1;
    }
    assert(text@.take(prefix@.len() as int) =~= prefix@);
    true
}

/// The part of `text` from place `from` on.
pub fn tail_of(text: &Vec<char>, from: usize) -> (tail: Vec<char>)
    requires
        from <= text@.len(),
    ensures
        tail@ == text@.skip(from as int),
{
    let mut tail: Vec<char> = Vec::new();
    let mut i: usize = from;
    while i < text.len()
        invariant
            from <= i <= text@.len(),
            tail@ == text@.subrange(from as int, i as int),
        decreases text.len() - i,
    {
        tail.push(text[i]);
        assert(text@.subrange(from as int, i + 1) =~= text@.subrange(from as int, i as int).push(
            text@[i as int],
        ));
        i += 1;
    }
    assert(text@.subrange(from as int, text@.len() as int) =~= text@.skip(from as int));
    tail
}

/// The number that `chars` writes, if it is a number that fits 64 bits.
pub open spec fn number_of(chars: Seq<char>) -> Option<u64> {
    if is_number(chars) && digits_value(chars) <= u64::MAX {
        Some(digits_value(chars) as u64)
    } else {
        None
    }
}

/// The digits of a beginning write no more than the digits of the whole.
pub proof fn lemma_digits_grow(chars: Seq<char>, n: int)
    requires
        0 <= n <= chars.len(),
    ensures
        digits_value(chars.take(n)) <= digits_value(chars),
    decreases chars.len() - n,
{
    if n < chars.len() {
        lemma_digits_grow(chars, n + 1);
        assert(chars.take(n + 1).drop_last() =~= chars.take(n));
        assert(digit_value(chars.take(n + 1).last()) >= 0);
    } else {
        assert(chars.take(n) =~= chars);
    }
}

/// The value of a digit, if `c` is one.
pub fn digit_of(c: char) -> (digit: Option<u64>)
    ensures
        digit is Some <==> is_digit(c),
        digit matches Some(d) ==> d == digit_value(c) && d < 10,
{
    if c == '0' {
        Some(0)
    } else if c == '1' {
        Some(1)
    } else if c == '2' {
        Some(2)
    } else if c == '3' {
        Some(3)
    } else if c == '4' {
        Some(4)
    } else if c == '5' {
        Some(5)
    } else if c == '6' {
        Some(6)
    } else if c == '7' {
        Some(7)
    } else if c == '8' {
        Some(8)
    } else if c == '9' {
        Some(9)
    } else {
        None
    }
}

/// Reads a decimal number: digits only, one at least, and a value that fits 64
/// bits.
pub fn parse_number(chars: &Vec<char>) -> (number: Option<u64>)
    ensures
        number == number_of(chars@),
{
    if chars.len() == 0 {
        return None;
    }
    let mut value: u64 = 0;
    let mut i: usize = 0;
    proof {
        assert(chars@.take(0) =~= Seq::<char>::empty());
    }
    while i < chars.len()
        invariant
            i <= chars@.len(),
            chars@.len() > 0,
            forall|k: int| 0 <= k < i ==> is_digit(#[trigger] chars@[k]),
            value == digits_value(chars@.take(i as int)),
        decreases chars.len() - i,
    {
        proof {
            assert(chars@.take(i + 1).drop_last() =~= chars@.take(i as int));
            assert(chars@.take(i + 1).last() == chars@[i as int]);
            lemma_digits_grow(chars@, i + 1);
        }
        match digit_of(chars[i]) {
            Some(d) => {
                if value > (u64::MAX - d) / 10 {
                    return None;
                }
                value = value * 10 + d;
            },
            None => {
                return None;
            },
        }
        i += 1;
    }
    proof {
        assert(chars@.take(chars@.len() as int) =~= chars@);
    }
    Some(value)
}

/// The digits of a number hold no character but digits.
pub proof fn lemma_decimal_free_of(n: nat, sep: char)
    requires
        !is_digit(sep),
    ensures
        free_of(decimal(n), sep),
{
    lemma_decimal_round_trip(n);
    assert forall|i: int| 0 <= i < decimal(n).len() implies #[trigger] decimal(n)[i] != sep by {
        assert(is_digit(decimal(n)[i]));
    }
}

/// The digits of a number that fits 64 bits read as that number.
pub proof fn lemma_number_of_decimal(n: nat)
    requires
        n <= u64::MAX,
    ensures
        number_of(decimal(n)) == Some(n as u64),
{
    lemma_decimal_round_trip(n);
}

/// The decimal digits of `n` as characters.
pub fn decimal_chars(n: u64) -> (chars: Vec<char>)
    ensures
        chars@ == decimal(n as nat),
{
    let text = decimal_string(n);
    chars_of(text.as_str())
}

/// Whether `c` is a blank: a character with the Unicode property White_Space.
pub uninterp spec fn is_blank(c: char) -> bool;

/// `text` without the blanks at its end.
pub open spec fn trim_end(text: Seq<char>) -> Seq<char>
    decreases text.len(),
{
    if text.len() > 0 && is_blank(text.last()) {
        trim_end(text.drop_last())
    } else {
        text
    }
}

/// `text` without the blanks at its beginning.
pub open spec fn trim_start(text: Seq<char>) -> Seq<char>
    decreases text.len(),
{
    if text.len() > 0 && is_blank(text[0]) {
        trim_start(text.skip(1))
    } else {
        text
    }
}

/// `text` without the blanks at its beginning and at its end.
pub open spec fn trimmed(text: Seq<char>) -> Seq<char> {
    trim_start(trim_end(text))
}

/// The lines trimmed, without those that are empty then.
pub open spec fn kept_lines(lines: Seq<Seq<char>>) -> Seq<Seq<char>>
    decreases lines.len(),
{
    if lines.len() == 0 {
        seq![]
    } else if trimmed(lines.last()).len() == 0 {
        kept_lines(lines.drop_last())
    } else {
        kept_lines(lines.drop_last()).push(trimmed(lines.last()))
    }
}

/// The entries of a word list: its lines trimmed, without the empty ones.
pub open spec fn list_entries(text: Seq<char>) -> Seq<Seq<char>> {
    kept_lines(split_on(text, '\n'))
}

/// `char::is_whitespace` of std: whether the character has the Unicode property
/// White_Space.
#[verifier::external_body]
pub(crate) fn blank(c: char) -> (found: bool)
    ensures
        found == is_blank(c),
{
    c.is_whitespace()
}

/// `text` without the blanks at its beginning and at its end.
pub fn trim_chars(text: &Vec<char>) -> (out: Vec<char>)
    ensures
        out@ == trimmed(text@),
{
    let mut end: usize = text.len();
    proof {
        assert(text@.take(text@.len() as int) =~= text@);
    }
    while end > 0 && blank(text[end - 1])
        invariant
            end <= text@.len(),
            trim_end(text@) == trim_end(text@.take(end as int)),
        decreases end,
    {
        proof {
            assert(text@.take(end as int).drop_last() =~= text@.take(end - 1));
        }
        end -= 1;
    }
    proof {
        assert(text@.take(text@.len() as int) =~= text@);
        assert(trim_end(text@.take(end as int)) == text@.take(end as int));
    }
    let ghost kept = text@.take(end as int);
    let mut start: usize = 0;
    proof {
        assert(kept.skip(0) =~= kept);
    }
    while start < end && blank(text[start])
        invariant
            start <= end <= text@.len(),
            kept == text@.take(end as int),
            trim_start(kept) == trim_start(kept.skip(start as int)),
        decreases end - start,
    {
        proof {
            assert(kept.skip(start as int).skip(1) =~= kept.skip(start + 1));
            assert(kept.skip(start as int)[0] == text@[start as int]);
        }
        start += 1;
    }
    proof {
        assert(kept.skip(0) =~= kept);
        if start < end {
            assert(kept.skip(start as int)[0] == text@[start as int]);
        }
        assert(trim_start(kept.skip(start as int)) == kept.skip(start as int));
    }
    let mut out: Vec<char> = Vec::new();
    let mut i: usize = start;
    while i < end
        invariant
            start <= i <= end <= text@.len(),
            out@ == text@.subrange(start as int, i as int),
        decreases end - i,
    {
        out.push(text[i]);
        assert(text@.subrange(start as int, i + 1) =~= text@.subrange(start as int, i as int).push(
            text@[i as int],
        ));
        i += 1;
    }
    assert(text@.subrange(start as int, end as int) =~= kept.skip(start as int));
    out
}

/// The entries of a word list: its lines trimmed, without the empty ones.
pub fn read_list(text: &str) -> (entries: Vec<Vec<char>>)
    ensures
        chars_view(entries@) == list_entries(text@),
{
    let chars = chars_of(text);
    let lines = split_chars(&chars, '\n');
    let ghost all = chars_view(lines@);
    let mut entries: Vec<Vec<char>> = Vec::new();
    let mut i: usize = 0;
    proof {
        assert(all.take(0) =~= Seq::<Seq<char>>::empty());
        assert(chars_view(entries@) =~= kept_lines(all.take(0)));
    }
    while i < lines.len()
        invariant
            i <= lines@.len(),
            all == chars_view(lines@),
            chars_view(entries@) == kept_lines(all.take(i as int)),
        decreases lines.len() - i,
    {
        let entry = trim_chars(&lines[i]);
        let ghost before = chars_view(entries@);
        proof {
            assert(all.take(i + 1).drop_last() =~= all.take(i as int));
            assert(all.take(i + 1).last() == lines@[i as int]@);
        }
        if entry.len() > 0 {
            entries.push(entry);
            proof {
                assert(chars_view(entries@) =~= before.push(trimmed(lines@[i as int]@)));
            }
        }
        i += 1;
    }
    proof {
        assert(all.take(lines@.len() as int) =~= all);
    }
    entries
}

/// Whether `sep` stands nowhere in `text`.
pub fn is_free_of(text: &Vec<char>, sep: char) -> (free: bool)
    ensures
        free == free_of(text@, sep),
{
    let mut i: usize = 0;
    while i < text.len()
        invariant
            i <= text@.len(),
            forall|k: int| 0 <= k < i ==> #[trigger] text@[k] != sep,
        decreases text.len() - i,
    {
        if text[i] == sep {
            return false;
        }
        i += 1;
    }
    true
}

/// The place of the last `sep` in `text`, if there is one.
pub open spec fn last_place(text: Seq<char>, sep: char) -> Option<int>
    decreases text.len(),
{
    if text.len() == 0 {
        None
    } else if text.last() == sep {
        Some(text.len() - 1)
    } else {
        last_place(text.drop_last(), sep)
    }
}

/// The place of the last `sep` in `text`, if there is one.
pub fn find_last(text: &Vec<char>, sep: char) -> (place: Option<usize>)
    ensures
        place is Some <==> last_place(text@, sep) is Some,
        place matches Some(k) ==> k == last_place(text@, sep)->0 && k < text@.len() && k
            < usize::MAX,
{
    let mut end: usize = text.len();
    proof {
        assert(text@.take(text@.len() as int) =~= text@);
    }
    while end > 0
        invariant
            end <= text@.len(),
            last_place(text@, sep) == last_place(text@.take(end as int), sep),
        decreases end,
    {
        proof {
            assert(text@.take(end as int).drop_last() =~= text@.take(end - 1));
        }
        if text[end - 1] == sep {
            return Some(end - 1);
        }
        end -= 1;
    }
    None
}

} // verus!
