//! The parser on text: each function reads one rule of the grammar at the start of a
//! string and hands back the rest of the string.

use crate::dsl::dsl::{BasicLength, Group, Length, Pattern};
use crate::dsl::grammar;
use crate::dsl::grammar::{Failure, Parsed, Reason};
use crate::dsl::reader;
use crate::dsl::reader::{patterns_of, Step};
use crate::midi::time::TimeSignature;
use vstd::prelude::*;
use vstd::string::{StrSliceExecFns, StringExecFns};

verus! {

/// A failure of the parser: the text that was left when it happened, and the reason.
#[derive(Debug, Clone, Copy, PartialEq, Eq)]
pub struct ParseError<'a> {
    pub rest: &'a str,
    pub reason: Reason,
}

impl<'a> View for ParseError<'a> {
    type V = Failure;

    open spec fn view(&self) -> Failure {
        Failure { rest: self.rest@, reason: self.reason }
    }
}

/// What a function of this module returns, in the terms of the grammar.
pub open spec fn read_view<T>(read: Result<(&str, T), ParseError>) -> Parsed<T> {
    match read {
        Ok((rest, value)) => Ok((rest@, value)),
        Err(error) => Err(error@),
    }
}

/// A group that was read, in the terms of the grammar.
pub open spec fn read_group_view(read: Result<(&str, Group), ParseError>) -> Parsed<Pattern> {
    match read {
        Ok((rest, group)) => Ok((rest@, group@)),
        Err(error) => Err(error@),
    }
}

/// The groups that were read, in the terms of the grammar.
pub open spec fn read_groups_view(read: Result<(&str, Vec<Group>), ParseError>) -> Parsed<
    Seq<Pattern>,
> {
    match read {
        Ok((rest, groups)) => Ok((rest@, patterns_of(groups@))),
        Err(error) => Err(error@),
    }
}

/// The characters of a string.
fn chars_of(input: &str) -> (chars: Vec<char>)
    ensures
        chars@ == input@,
{
    let mut chars: Vec<char> = Vec::new();
    for c in it: input.chars()
        invariant
            chars@ == it.seq().take(it.index() as int),
            it.seq() == input@,
    {
        chars.push(c);
    }
    chars
}

/// What a step on the characters of `input` returned, with the rest as a part of
/// `input`.
fn finish<'a, 'b, T>(input: &'a str, len: usize, step: Step<'b, T>) -> (read: Result<
    (&'a str, T),
    ParseError<'a>,
>)
    requires
        len == input@.len(),
        grammar::advances(reader::step_view(step), input@),
    ensures
        match step {
            Ok((left, value)) => read matches Ok((rest, same)) && rest@ == left@ && same == value,
            Err((left, reason)) => read matches Err(error) && error.rest@ == left@ && error.reason
                == reason,
        },
{
    match step {
        Ok((left, value)) => Ok((input.substring_char(len - left.len(), len), value)),
        Err((left, reason)) => Err(
            ParseError { rest: input.substring_char(len - left.len(), len), reason },
        ),
    }
}

/// `length := triplet | tied | modded`
pub fn length(input: &str) -> (read: Result<(&str, Length), ParseError<'_>>)
    ensures
        read_view(read) == grammar::length(input@),
{
    let chars = chars_of(input);
    proof {
        grammar::lemma_length_advances(input@);
    }
    finish(input, chars.len(), reader::length(chars.as_slice()))
}

/// `group := (integer ',')? length note+`
pub fn group(input: &str) -> (read: Result<(&str, Group), ParseError<'_>>)
    ensures
        read_group_view(read) == grammar::group(input@),
{
    let chars = chars_of(input);
    proof {
        grammar::lemma_group_advances(input@);
    }
    finish(input, chars.len(), reader::group(chars.as_slice()))
}

/// `'(' group ')'`
pub fn delimited_group(input: &str) -> (read: Result<(&str, Group), ParseError<'_>>)
    ensures
        read_group_view(read) == grammar::delimited_group(input@),
{
    let chars = chars_of(input);
    proof {
        grammar::lemma_group_advances(input@);
    }
    finish(input, chars.len(), reader::delimited_group(chars.as_slice()))
}

/// `group_or_delimited := '(' group ')' | group`
pub fn group_or_delimited_group(input: &str) -> (read: Result<(&str, Group), ParseError<'_>>)
    ensures
        read_group_view(read) == grammar::group_or_delimited_group(input@),
{
    let chars = chars_of(input);
    proof {
        grammar::lemma_group_advances(input@);
    }
    finish(input, chars.len(), reader::group_or_delimited_group(chars.as_slice()))
}

/// `pattern := group_or_delimited+`, up to the end of the text.
pub fn groups(input: &str) -> (read: Result<(&str, Vec<Group>), ParseError<'_>>)
    ensures
        read_groups_view(read) == grammar::groups(input@),
{
    let chars = chars_of(input);
    proof {
        grammar::lemma_groups(input@);
    }
    finish(input, chars.len(), reader::groups(chars.as_slice()))
}

/// The number that a text writes in full: decimal digits, with or without a `+` before
/// them, that stay within 16 bits.
pub open spec fn number_of(s: Seq<char>) -> Option<u16> {
    let digits = if s.len() > 0 && s[0] == '+' {
        s.skip(1)
    } else {
        s
    };
    if digits.len() > 0 && grammar::digits_len(digits) == digits.len() && grammar::decimal(digits)
        <= u16::MAX {
        Some(grammar::decimal(digits) as u16)
    } else {
        None
    }
}

impl core::str::FromStr for BasicLength {
    type Err = String;

    /// The basic length that lasts as many 64th notes as the text says. Fails where the
    /// text is no number below 65536, and where no basic length lasts that long.
    fn from_str(s: &str) -> (length: Result<Self, String>)
        ensures
            match number_of(s@) {
                Some(number) => match BasicLength::of_half_ticks(number as nat) {
                    Some(found) => length == Ok::<Self, String>(found),
                    None => length matches Err(message) && message@ == grammar::digits_of(
                        number as nat,
                    ) + " is not a num BasicLength can be constructed from"@,
                },
                None => length matches Err(message) && message@ == s@
                    + " is not a number of 64th notes"@,
            },
    {
        let chars = chars_of(s);
        let all: &[char] = chars.as_slice();
        let digits: &[char] = match reader::expect('+', all) {
            Ok((rest, _)) => rest,
            Err(_) => all,
        };
        if let Ok((rest, Some(number))) = reader::integer(digits) {
            if rest.len() == 0 {
                proof {
                    grammar::lemma_digits_len(digits@);
                    assert(digits@.take(digits@.len() as int) =~= digits@);
                }
                return BasicLength::from_num(number);
            }
        }
        proof {
            grammar::lemma_digits_len(digits@);
            assert(digits@.take(digits@.len() as int) =~= digits@);
        }
        let mut message: String = s.to_owned();
        message.append(" is not a number of 64th notes");
        Err(message)
    }
}

/// The time signature that a text writes in full: the number of notes in a bar, between
/// 1 and 255, a stroke, and the value of these notes.
pub open spec fn time_signature_of(s: Seq<char>) -> Option<TimeSignature> {
    match grammar::integer(s) {
        Ok((rest, numerator)) => match grammar::expect('/', rest) {
            Ok((rest, _)) => match grammar::basic(rest) {
                Ok((end, denominator)) => if end.len() == 0 && 1 <= numerator <= u8::MAX {
                    Some(TimeSignature { numerator: numerator as u8, denominator })
                } else {
                    None
                },
                Err(_) => None,
            },
            Err(_) => None,
        },
        Err(_) => None,
    }
}

impl core::str::FromStr for TimeSignature {
    type Err = String;

    /// The time signature that the text writes, such as `4/4` or `7/8`.
    fn from_str(s: &str) -> (signature: Result<Self, String>)
        ensures
            match time_signature_of(s@) {
                Some(found) => signature == Ok::<Self, String>(found),
                None => signature matches Err(message) && message@ == s@
                    + " is not a time signature"@,
            },
    {
        let chars = chars_of(s);
        if let Ok((rest, Some(numerator))) = reader::integer(chars.as_slice()) {
            if let Ok((rest, _)) = reader::expect('/', rest) {
                if let Ok((end, denominator)) = reader::length_basic(rest) {
                    if end.len() == 0 && 1 <= numerator && numerator <= 255 {
                        return Ok(TimeSignature { numerator: numerator as u8, denominator });
                    }
                }
            }
        }
        let mut message: String = s.to_owned();
        message.append(" is not a time signature");
        Err(message)
    }
}

} // verus!
