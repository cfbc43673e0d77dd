//! The grammar of the pattern notation, as functions on the text that is left to read.
//!
//! ```text
//! pattern            := group_or_delimited+
//! group_or_delimited := '(' group ')' | group
//! group              := (integer ',')? length note+
//! length             := triplet | tied | modded
//! triplet            := modded 't'
//! tied               := modded '+' modded
//! modded             := basic '.' | basic
//! basic              := integer
//! note               := 'x' | '-'
//! ```
//!
//! An alternative is tried only where all that stand before it have failed, and the
//! failure of a rule is that of its last alternative.

use crate::dsl::dsl::{BasicLength, Length, ModdedLength, Node, Note, Pattern};
use vstd::prelude::*;

verus! {

/// Why a text could not be read.
#[derive(Debug, Clone, Copy, PartialEq, Eq, Structural)]
pub enum Reason {
    /// The character that the grammar asks for is not the next one.
    UnexpectedChar,
    /// A number was expected, and the next character is no digit.
    MissingNumber,
    /// The number is not one of the note values 1, 2, 4, 8, 16, 32 and 64.
    UnknownLength,
}

/// A failure: the text that was left when it happened, and the reason.
pub struct Failure {
    pub rest: Seq<char>,
    pub reason: Reason,
}

/// What a rule makes of a text: the text that is left and the value read, or a failure.
pub type Parsed<T> = Result<(Seq<char>, T), Failure>;

/// `rest` is the end of `s`.
pub open spec fn is_suffix(rest: Seq<char>, s: Seq<char>) -> bool {
    rest.len() <= s.len() && rest == s.skip(s.len() - rest.len())
}

/// The character `c`.
pub open spec fn expect(c: char, s: Seq<char>) -> Parsed<char> {
    if s.len() > 0 && s[0] == c {
        Ok((s.skip(1), c))
    } else {
        Err(Failure { rest: s, reason: Reason::UnexpectedChar })
    }
}

/// `c` is one of the digits `0` to `9`.
pub open spec fn is_digit(c: char) -> bool {
    '0' <= c <= '9'
}

/// The number that the digit `c` writes.
pub open spec fn digit_value(c: char) -> nat {
    (c as int - '0' as int) as nat
}

/// The number of digits that `s` starts with.
pub open spec fn digits_len(s: Seq<char>) -> nat
    decreases s.len(),
{
    if s.len() > 0 && is_digit(s[0]) {
        1 + digits_len(s.skip(1))
    } else {
        0
    }
}

/// The number that the decimal digits `digits` write.
pub open spec fn decimal(digits: Seq<char>) -> nat
    decreases digits.len(),
{
    if digits.len() == 0 {
        0
    } else {
        10 * decimal(digits.drop_last()) + digit_value(digits.last())
    }
}

/// The digit that writes `d`, for `d` below 10.
pub open spec fn digit_of(d: nat) -> char {
    ('0' as nat + d) as char
}

/// The decimal digits that write `n`, without a leading zero.
pub open spec fn digits_of(n: nat) -> Seq<char>
    decreases n,
{
    if n < 10 {
        seq![digit_of(n)]
    } else {
        digits_of(n / 10).push(digit_of(n % 10))
    }
}

/// The digits that write a number are digits, and they write that number.
pub proof fn lemma_digits_of(n: nat)
    ensures
        digits_of(n).len() >= 1,
        forall|i: int| 0 <= i < digits_of(n).len() ==> is_digit(#[trigger] digits_of(n)[i]),
        decimal(digits_of(n)) == n,
    decreases n,
{
    if n < 10 {
        assert(digits_of(n).drop_last() =~= Seq::<char>::empty());
        assert(decimal(digits_of(n).drop_last()) == 0);
    } else {
        lemma_digits_of(n / 10);
        assert(digits_of(n).drop_last() =~= digits_of(n / 10));
    }
}

/// `integer`: all the digits that the text starts with, at least one.
pub open spec fn integer(s: Seq<char>) -> Parsed<nat> {
    let n = digits_len(s) as int;
    if n == 0 {
        Err(Failure { rest: s, reason: Reason::MissingNumber })
    } else {
        Ok((s.skip(n), decimal(s.take(n))))
    }
}

/// The note value that a number names.
pub open spec fn basic_of(number: nat) -> Option<BasicLength> {
    if number == 1 {
        Some(BasicLength::Whole)
    } else if number == 2 {
        Some(BasicLength::Half)
    } else if number == 4 {
        Some(BasicLength::Fourth)
    } else if number == 8 {
        Some(BasicLength::Eighth)
    } else if number == 16 {
        Some(BasicLength::Sixteenth)
    } else if number == 32 {
        Some(BasicLength::ThirtySecond)
    } else if number == 64 {
        Some(BasicLength::SixtyFourth)
    } else {
        None
    }
}

/// `basic`: a number that names a note value. Another number fails, with the text
/// behind the number.
pub open spec fn basic(s: Seq<char>) -> Parsed<BasicLength> {
    match integer(s) {
        Ok((rest, number)) => match basic_of(number) {
            Some(length) => Ok((rest, length)),
            None => Err(Failure { rest, reason: Reason::UnknownLength }),
        },
        Err(failure) => Err(failure),
    }
}

/// `basic '.'`
pub open spec fn dotted(s: Seq<char>) -> Parsed<ModdedLength> {
    match basic(s) {
        Ok((rest, length)) => match expect('.', rest) {
            Ok((rest, _)) => Ok((rest, ModdedLength::Dotted(length))),
            Err(failure) => Err(failure),
        },
        Err(failure) => Err(failure),
    }
}

/// `basic`, as a length without a dot.
pub open spec fn plain(s: Seq<char>) -> Parsed<ModdedLength> {
    match basic(s) {
        Ok((rest, length)) => Ok((rest, ModdedLength::Plain(length))),
        Err(failure) => Err(failure),
    }
}

/// `modded := basic '.' | basic`
pub open spec fn modded(s: Seq<char>) -> Parsed<ModdedLength> {
    match dotted(s) {
        Ok(read) => Ok(read),
        Err(_) => plain(s),
    }
}

/// `triplet := modded 't'`
pub open spec fn triplet(s: Seq<char>) -> Parsed<Length> {
    match modded(s) {
        Ok((rest, length)) => match expect('t', rest) {
            Ok((rest, _)) => Ok((rest, Length::Triplet(length))),
            Err(failure) => Err(failure),
        },
        Err(failure) => Err(failure),
    }
}

/// `tied := modded '+' modded`
pub open spec fn tied(s: Seq<char>) -> Parsed<Length> {
    match modded(s) {
        Ok((rest, first)) => match expect('+', rest) {
            Ok((rest, _)) => match modded(rest) {
                Ok((rest, second)) => Ok((rest, Length::Tied(first, second))),
                Err(failure) => Err(failure),
            },
            Err(failure) => Err(failure),
        },
        Err(failure) => Err(failure),
    }
}

/// `modded`, as a length of its own.
pub open spec fn simple(s: Seq<char>) -> Parsed<Length> {
    match modded(s) {
        Ok((rest, length)) => Ok((rest, Length::Simple(length))),
        Err(failure) => Err(failure),
    }
}

/// `length := triplet | tied | modded`
pub open spec fn length(s: Seq<char>) -> Parsed<Length> {
    match triplet(s) {
        Ok(read) => Ok(read),
        Err(_) => match tied(s) {
            Ok(read) => Ok(read),
            Err(_) => simple(s),
        },
    }
}

/// `note := 'x' | '-'`
pub open spec fn note(s: Seq<char>) -> Parsed<Note> {
    match expect('x', s) {
        Ok((rest, _)) => Ok((rest, Note::Hit)),
        Err(_) => match expect('-', s) {
            Ok((rest, _)) => Ok((rest, Note::Rest)),
            Err(failure) => Err(failure),
        },
    }
}

/// `note*`: all the notes that the text starts with, and the text behind them.
pub open spec fn notes(s: Seq<char>) -> (Seq<char>, Seq<Note>)
    decreases s.len(),
{
    match note(s) {
        Ok((rest, first)) => if rest.len() < s.len() {
            let (end, more) = notes(rest);
            (end, seq![first] + more)
        } else {
            (s, Seq::empty())
        },
        Err(_) => (s, Seq::empty()),
    }
}

/// `note+`
pub open spec fn notes1(s: Seq<char>) -> Parsed<Seq<Note>> {
    match note(s) {
        Ok(_) => Ok(notes(s)),
        Err(failure) => Err(failure),
    }
}

/// The group that is `notes`, each of the length `length`, played `times` times.
pub open spec fn pattern_of(times: nat, length: Length, notes: Seq<Note>) -> Pattern {
    Pattern { notes: Seq::new(notes.len(), |i: int| Node::Note(notes[i])), length, times }
}

/// `length note+`, as a group that is played `times` times.
pub open spec fn body(times: nat, s: Seq<char>) -> Parsed<Pattern> {
    match length(s) {
        Ok((rest, length)) => match notes1(rest) {
            Ok((rest, notes)) => Ok((rest, pattern_of(times, length, notes))),
            Err(failure) => Err(failure),
        },
        Err(failure) => Err(failure),
    }
}

/// `integer ','`, where the number fits in 16 bits: the number of repetitions.
pub open spec fn times(s: Seq<char>) -> Option<(Seq<char>, nat)> {
    match integer(s) {
        Ok((rest, number)) => match expect(',', rest) {
            Ok((rest, _)) => if number <= u16::MAX {
                Some((rest, number))
            } else {
                None
            },
            Err(_) => None,
        },
        Err(_) => None,
    }
}

/// `integer ',' length note+`
pub open spec fn repeated(s: Seq<char>) -> Option<(Seq<char>, Pattern)> {
    match times(s) {
        Some((rest, number)) => match body(number, rest) {
            Ok(read) => Some(read),
            Err(_) => None,
        },
        None => None,
    }
}

/// `group := (integer ',')? length note+`. Without a number the group is played once.
pub open spec fn group(s: Seq<char>) -> Parsed<Pattern> {
    match repeated(s) {
        Some(read) => Ok(read),
        None => body(1, s),
    }
}

/// `'(' group ')'`
pub open spec fn delimited_group(s: Seq<char>) -> Parsed<Pattern> {
    match expect('(', s) {
        Ok((rest, _)) => match group(rest) {
            Ok((rest, pattern)) => match expect(')', rest) {
                Ok((rest, _)) => Ok((rest, pattern)),
                Err(failure) => Err(failure),
            },
            Err(failure) => Err(failure),
        },
        Err(failure) => Err(failure),
    }
}

/// `group_or_delimited := '(' group ')' | group`
pub open spec fn group_or_delimited_group(s: Seq<char>) -> Parsed<Pattern> {
    match delimited_group(s) {
        Ok(read) => Ok(read),
        Err(_) => group(s),
    }
}

/// `pattern := group_or_delimited+`, up to the end of the text: where a group is
/// followed by text that is no group, the pattern fails as that text does.
pub open spec fn groups(s: Seq<char>) -> Parsed<Seq<Pattern>>
    decreases s.len(),
{
    match group_or_delimited_group(s) {
        Ok((rest, first)) => if rest.len() == 0 || rest.len() >= s.len() {
            Ok((rest, seq![first]))
        } else {
            match groups(rest) {
                Ok((end, more)) => Ok((end, seq![first] + more)),
                Err(failure) => Err(failure),
            }
        },
        Err(failure) => Err(failure),
    }
}

/// What is left behind a value is a shorter end of the text, and what is left at a
/// failure is an end of it.
pub open spec fn advances<T>(read: Parsed<T>, s: Seq<char>) -> bool {
    match read {
        Ok((rest, _)) => is_suffix(rest, s) && rest.len() < s.len(),
        Err(failure) => is_suffix(failure.rest, s),
    }
}

/// A text is an end of itself.
pub proof fn lemma_suffix_refl(s: Seq<char>)
    ensures
        is_suffix(s, s),
{
    assert(s.skip(0) =~= s);
}

/// The end of an end of a text is an end of the text.
pub proof fn lemma_suffix_trans(a: Seq<char>, b: Seq<char>, c: Seq<char>)
    requires
        is_suffix(a, b),
        is_suffix(b, c),
    ensures
        is_suffix(a, c),
{
    assert(c.skip(c.len() - b.len()).skip(b.len() - a.len()) =~= c.skip(c.len() - a.len()));
}

/// The digits that a text starts with are digits, and behind them stands none.
pub proof fn lemma_digits_len(s: Seq<char>)
    ensures
        digits_len(s) <= s.len(),
        forall|i: int| 0 <= i < digits_len(s) ==> is_digit(#[trigger] s[i]),
        digits_len(s) < s.len() ==> !is_digit(s[digits_len(s) as int]),
    decreases s.len(),
{
    if s.len() > 0 && is_digit(s[0]) {
        lemma_digits_len(s.skip(1));
        assert forall|i: int| 0 <= i < digits_len(s) implies is_digit(#[trigger] s[i]) by {
            if i > 0 {
                assert(s[i] == s.skip(1)[i - 1]);
            }
        }
        if digits_len(s) < s.len() {
            assert(s[digits_len(s) as int] == s.skip(1)[digits_len(s.skip(1)) as int]);
        }
    }
}

/// Behind `i` digits a text starts with `i` digits more than what follows them does.
pub proof fn lemma_digits_len_split(s: Seq<char>, i: int)
    requires
        0 <= i <= s.len(),
        forall|j: int| 0 <= j < i ==> is_digit(#[trigger] s[j]),
    ensures
        digits_len(s) == i + digits_len(s.skip(i)),
    decreases i,
{
    if i == 0 {
        assert(s.skip(0) =~= s);
    } else {
        let rest = s.skip(1);
        assert forall|j: int| 0 <= j < i - 1 implies is_digit(#[trigger] rest[j]) by {
            assert(rest[j] == s[j + 1]);
        }
        lemma_digits_len_split(rest, i - 1);
        assert(rest.skip(i - 1) =~= s.skip(i));
    }
}

/// A number leaves a shorter end of its text, and fails at an end of it.
pub proof fn lemma_integer_advances(s: Seq<char>)
    ensures
        advances(integer(s), s),
{
    lemma_digits_len(s);
    lemma_suffix_refl(s);
}

/// A note value, dotted or not, leaves a shorter end of its text, and fails at an end
/// of it.
pub proof fn lemma_modded_advances(s: Seq<char>)
    ensures
        advances(basic(s), s),
        advances(modded(s), s),
{
    lemma_integer_advances(s);
    if let Ok((rest, _)) = basic(s) {
        if let Ok((end, _)) = expect('.', rest) {
            lemma_suffix_trans(end, rest, s);
        }
    }
}

/// A length leaves a shorter end of its text, and fails at an end of it.
pub proof fn lemma_length_advances(s: Seq<char>)
    ensures
        advances(length(s), s),
{
    lemma_modded_advances(s);
    if let Ok((rest, _)) = modded(s) {
        if let Ok((end, _)) = expect('t', rest) {
            lemma_suffix_trans(end, rest, s);
        } else if let Ok((second, _)) = expect('+', rest) {
            lemma_modded_advances(second);
            if let Ok((end, _)) = modded(second) {
                lemma_suffix_trans(second, rest, s);
                lemma_suffix_trans(end, second, s);
            }
        }
    }
}

/// Behind the notes that a text starts with stands no note.
pub proof fn lemma_notes(s: Seq<char>)
    ensures
        is_suffix(notes(s).0, s),
        notes(s).0.len() + notes(s).1.len() == s.len(),
        note(notes(s).0) is Err,
    decreases s.len(),
{
    if let Ok((rest, _)) = note(s) {
        lemma_notes(rest);
        lemma_suffix_trans(notes(rest).0, rest, s);
    } else {
        lemma_suffix_refl(s);
    }
}

/// A group, between delimiters or without them, leaves a shorter end of its text, and
/// fails at an end of it.
pub proof fn lemma_group_advances(s: Seq<char>)
    ensures
        advances(body(1, s), s),
        advances(group(s), s),
        advances(delimited_group(s), s),
        advances(group_or_delimited_group(s), s),
{
    lemma_body_advances(1, s);
    lemma_repeated_advances(s);
    lemma_suffix_refl(s);
    if let Ok((rest, _)) = expect('(', s) {
        lemma_body_advances(1, rest);
        lemma_repeated_advances(rest);
        match group(rest) {
            Ok((inner, _)) => {
                lemma_suffix_trans(inner, rest, s);
                if let Ok((end, _)) = expect(')', inner) {
                    lemma_suffix_trans(end, inner, s);
                }
            },
            Err(failure) => {
                lemma_suffix_trans(failure.rest, rest, s);
            },
        }
    }
}

/// A length with its notes leaves a shorter end of its text, and fails at an end of it.
pub proof fn lemma_body_advances(times: nat, s: Seq<char>)
    ensures
        advances(body(times, s), s),
{
    lemma_length_advances(s);
    if let Ok((rest, _)) = length(s) {
        lemma_notes(rest);
        match notes1(rest) {
            Ok((end, _)) => {
                lemma_suffix_trans(end, rest, s);
            },
            Err(failure) => {
                lemma_suffix_trans(failure.rest, rest, s);
            },
        }
    }
}

/// A group with a number of repetitions leaves a shorter end of its text.
pub proof fn lemma_repeated_advances(s: Seq<char>)
    ensures
        repeated(s) matches Some((rest, _)) ==> is_suffix(rest, s) && rest.len() < s.len(),
{
    lemma_integer_advances(s);
    if let Some((rest, number)) = times(s) {
        let after = integer(s)->Ok_0.0;
        lemma_suffix_trans(rest, after, s);
        lemma_body_advances(number, rest);
        if let Ok((end, _)) = body(number, rest) {
            lemma_suffix_trans(end, rest, s);
        }
    }
}

/// A pattern that was read has at least one group and leaves nothing of the text.
pub proof fn lemma_groups(s: Seq<char>)
    ensures
        advances(groups(s), s),
        groups(s) matches Ok((rest, patterns)) ==> rest.len() == 0 && patterns.len() >= 1,
    decreases s.len(),
{
    lemma_group_advances(s);
    if let Ok((rest, _)) = group_or_delimited_group(s) {
        if rest.len() > 0 {
            lemma_groups(rest);
            match groups(rest) {
                Ok((end, _)) => {
                    lemma_suffix_trans(end, rest, s);
                },
                Err(failure) => {
                    lemma_suffix_trans(failure.rest, rest, s);
                },
            }
        }
    }
}

/// A group that was read has at least one note, no nested group, and a number of
/// repetitions that fits in 16 bits. It is well formed unless it is repeated 0 times.
pub proof fn lemma_group_shape(s: Seq<char>)
    ensures
        group(s) matches Ok((_, pattern)) ==> pattern.flat() && pattern.notes.len() >= 1
            && pattern.times <= u16::MAX && (pattern.well_formed() <==> pattern.times >= 1),
        delimited_group(s) matches Ok((_, pattern)) ==> pattern.flat() && pattern.notes.len() >= 1
            && pattern.times <= u16::MAX && (pattern.well_formed() <==> pattern.times >= 1),
        group_or_delimited_group(s) matches Ok((_, pattern)) ==> pattern.flat()
            && pattern.notes.len() >= 1 && pattern.times <= u16::MAX && (pattern.well_formed()
            <==> pattern.times >= 1),
{
    lemma_body_shape(1, s);
    if let Some((rest, number)) = times(s) {
        lemma_body_shape(number, rest);
    }
    if let Ok((inside, _)) = expect('(', s) {
        lemma_body_shape(1, inside);
        if let Some((rest, number)) = times(inside) {
            lemma_body_shape(number, rest);
        }
    }
}

/// A length with its notes makes a group of at least one note and no nested group.
proof fn lemma_body_shape(times: nat, s: Seq<char>)
    ensures
        body(times, s) matches Ok((_, pattern)) ==> pattern.flat() && pattern.notes.len() >= 1
            && pattern.times == times && (pattern.well_formed() <==> times >= 1),
{
    if let Ok((rest, _)) = length(s) {
        lemma_notes(rest);
        if let Ok((_, pattern)) = body(times, s) {
            assert(pattern.notes.len() >= 1);
            assert forall|i: int| 0 <= i < pattern.notes.len() implies (
            #[trigger] pattern.notes[i]).well_formed() by {
                assert(pattern.notes[i] is Note);
            }
        }
    }
}

/// A number that names no note value, and that no comma follows, fails every rule that
/// starts with a length: the number is never taken for another.
pub proof fn lemma_unknown_length_fails(s: Seq<char>)
    requires
        integer(s) matches Ok((rest, number)) && basic_of(number) is None && expect(',', rest)
            is Err,
    ensures
        length(s) == Err::<(Seq<char>, Length), Failure>(
            Failure { rest: integer(s)->Ok_0.0, reason: Reason::UnknownLength },
        ),
        group(s) == Err::<(Seq<char>, Pattern), Failure>(
            Failure { rest: integer(s)->Ok_0.0, reason: Reason::UnknownLength },
        ),
        group_or_delimited_group(s) == Err::<(Seq<char>, Pattern), Failure>(
            Failure { rest: integer(s)->Ok_0.0, reason: Reason::UnknownLength },
        ),
        groups(s) == Err::<(Seq<char>, Seq<Pattern>), Failure>(
            Failure { rest: integer(s)->Ok_0.0, reason: Reason::UnknownLength },
        ),
{
    lemma_digits_len(s);
}

} // verus!
