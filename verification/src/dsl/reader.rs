//! The parser on characters: one function for each rule of the grammar, which reads the
//! rule at the start of a slice and hands back the rest of the slice.

use crate::dsl::dsl::{BasicLength, Group, GroupOrNote, Length, ModdedLength, Note, Pattern, Times};
use crate::dsl::grammar;
use crate::dsl::grammar::{Failure, Parsed, Reason};
use vstd::prelude::*;
use vstd::slice::slice_subrange;

verus! {

/// What a function of this module returns: the rest of the slice and the value read,
/// or the rest of the slice at the failure and the reason.
pub type Step<'a, T> = Result<(&'a [char], T), (&'a [char], Reason)>;

/// A step in the terms of the grammar.
pub open spec fn step_view<T>(step: Step<T>) -> Parsed<T> {
    match step {
        Ok((rest, value)) => Ok((rest@, value)),
        Err((rest, reason)) => Err(Failure { rest: rest@, reason }),
    }
}

/// A step that read a group, in the terms of the grammar.
pub open spec fn group_step_view(step: Step<Group>) -> Parsed<Pattern> {
    match step {
        Ok((rest, group)) => Ok((rest@, group@)),
        Err((rest, reason)) => Err(Failure { rest: rest@, reason }),
    }
}

/// The number `number` where it fits in 16 bits.
pub open spec fn capped(number: nat) -> Option<u16> {
    if number <= u16::MAX {
        Some(number as u16)
    } else {
        None
    }
}

/// The slice without its first `n` characters.
fn skip<'a>(s: &'a [char], n: usize) -> (rest: &'a [char])
    requires
        n <= s.len(),
    ensures
        rest@ == s@.skip(n as int),
{
    slice_subrange(s, n, s.len())
}

/// The character `c`.
pub fn expect<'a>(c: char, s: &'a [char]) -> (step: Step<'a, char>)
    ensures
        step_view(step) == grammar::expect(c, s@),
{
    if s.len() > 0 && s[0] == c {
        Ok((skip(s, 1), c))
    } else {
        Err((s, Reason::UnexpectedChar))
    }
}

fn is_digit(c: char) -> (digit: bool)
    ensures
        digit == grammar::is_digit(c),
{
    '0' <= c && c <= '9'
}

fn digit_value(c: char) -> (value: u32)
    requires
        grammar::is_digit(c),
    ensures
        value == grammar::digit_value(c),
        value <= 9,
{
    c as u32 - '0' as u32
}

/// The number that the slice starts with, as `None` where it does not fit in 16 bits.
pub fn integer<'a>(s: &'a [char]) -> (step: Step<'a, Option<u16>>)
    ensures
        step_view(step) == match grammar::integer(s@) {
            Ok((rest, number)) => Ok((rest, capped(number))),
            Err(failure) => Err(failure),
        },
{
    let mut i: usize = 0;
    let mut value: u32 = 0;
    let mut fits: bool = true;
    proof {
        assert(s@.take(0) =~= Seq::<char>::empty());
    }
    while i < s.len() && is_digit(s[i])
        invariant
            i <= s.len(),
            forall|j: int| 0 <= j < i ==> grammar::is_digit(#[trigger] s@[j]),
            fits ==> value == grammar::decimal(s@.take(i as int)) && value <= u16::MAX,
            !fits ==> grammar::decimal(s@.take(i as int)) > u16::MAX,
        decreases s.len() - i,
    {
        let digit: u32 = digit_value(s[i]);
        proof {
            let longer = s@.take(i + 1);
            assert(longer.drop_last() =~= s@.take(i as int));
            assert(longer.last() == s@[i as int]);
        }
        if fits {
            let next: u32 = value * 10 + digit;
            if next > 65535 {
                fits = false;
            } else {
                value = next;
            }
        }
        i += 1;
    }
    proof {
        grammar::lemma_digits_len_split(s@, i as int);
    }
    if i == 0 {
        Err((s, Reason::MissingNumber))
    } else if fits {
        Ok((skip(s, i), Some(value as u16)))
    } else {
        Ok((skip(s, i), None))
    }
}

/// `basic := integer`, one of the seven note values.
pub fn length_basic<'a>(s: &'a [char]) -> (step: Step<'a, BasicLength>)
    ensures
        step_view(step) == grammar::basic(s@),
{
    match integer(s) {
        Ok((rest, Some(1))) => Ok((rest, BasicLength::Whole)),
        Ok((rest, Some(2))) => Ok((rest, BasicLength::Half)),
        Ok((rest, Some(4))) => Ok((rest, BasicLength::Fourth)),
        Ok((rest, Some(8))) => Ok((rest, BasicLength::Eighth)),
        Ok((rest, Some(16))) => Ok((rest, BasicLength::Sixteenth)),
        Ok((rest, Some(32))) => Ok((rest, BasicLength::ThirtySecond)),
        Ok((rest, Some(64))) => Ok((rest, BasicLength::SixtyFourth)),
        Ok((rest, _)) => Err((rest, Reason::UnknownLength)),
        Err(failure) => Err(failure),
    }
}

/// `modded := basic '.' | basic`
pub fn modded_length<'a>(s: &'a [char]) -> (step: Step<'a, ModdedLength>)
    ensures
        step_view(step) == grammar::modded(s@),
{
    match length_basic(s) {
        Ok((rest, length)) => match expect('.', rest) {
            Ok((rest, _)) => Ok((rest, ModdedLength::Dotted(length))),
            Err(_) => Ok((rest, ModdedLength::Plain(length))),
        },
        Err(failure) => Err(failure),
    }
}

/// `length := triplet | tied | modded`
pub fn length<'a>(s: &'a [char]) -> (step: Step<'a, Length>)
    ensures
        step_view(step) == grammar::length(s@),
{
    match modded_length(s) {
        Ok((rest, first)) => {
            if let Ok((rest, _)) = expect('t', rest) {
                return Ok((rest, Length::Triplet(first)));
            }
            if let Ok((rest, _)) = expect('+', rest) {
                if let Ok((rest, second)) = modded_length(rest) {
                    return Ok((rest, Length::Tied(first, second)));
                }
            }
            Ok((rest, Length::Simple(first)))
        },
        Err(failure) => Err(failure),
    }
}

/// `note := 'x' | '-'`
pub fn note<'a>(s: &'a [char]) -> (step: Step<'a, Note>)
    ensures
        step_view(step) == grammar::note(s@),
{
    match expect('x', s) {
        Ok((rest, _)) => Ok((rest, Note::Hit)),
        Err(_) => match expect('-', s) {
            Ok((rest, _)) => Ok((rest, Note::Rest)),
            Err(failure) => Err(failure),
        },
    }
}

/// All the notes that the slice starts with.
pub fn notes<'a>(s: &'a [char]) -> (read: (&'a [char], Vec<Note>))
    ensures
        (read.0@, read.1@) == grammar::notes(s@),
{
    let mut rest: &'a [char] = s;
    let mut found: Vec<Note> = Vec::new();
    loop
        invariant
            grammar::notes(s@) == (grammar::notes(rest@).0, found@ + grammar::notes(rest@).1),
        ensures
            (rest@, found@) == grammar::notes(s@),
        decreases rest.len(),
    {
        match note(rest) {
            Ok((after, first)) => {
                proof {
                    let more = grammar::notes(after@).1;
                    assert(found@.push(first) + more =~= found@ + (seq![first] + more));
                }
                found.push(first);
                rest = after;
            },
            Err(_) => {
                assert(found@ + Seq::<Note>::empty() =~= found@);
                break ;
            },
        }
    }
    (rest, found)
}

/// All the notes that the slice starts with, where there is one.
pub fn notes1<'a>(s: &'a [char]) -> (step: Step<'a, Vec<Note>>)
    ensures
        match step {
            Ok((rest, found)) => grammar::notes1(s@) == Ok::<_, Failure>((rest@, found@)),
            Err((rest, reason)) => grammar::notes1(s@) == Err::<(Seq<char>, Seq<Note>), _>(
                Failure { rest: rest@, reason },
            ),
        },
{
    match note(s) {
        Ok(_) => Ok(notes(s)),
        Err(failure) => Err(failure),
    }
}

/// `length note+`, as a group that is played `times` times.
pub fn body<'a>(times: u16, s: &'a [char]) -> (step: Step<'a, Group>)
    ensures
        group_step_view(step) == grammar::body(times as nat, s@),
{
    match length(s) {
        Ok((rest, length)) => match notes1(rest) {
            Ok((rest, found)) => {
                let mut children: Vec<GroupOrNote> = Vec::new();
                let mut i: usize = 0;
                while i < found.len()
                    invariant
                        i <= found.len(),
                        children.len() == i,
                        forall|j: int|
                            0 <= j < i ==> children[j] == GroupOrNote::SingleNote(found[j]),
                    decreases found.len() - i,
                {
                    children.push(GroupOrNote::SingleNote(found[i]));
                    i += 1;
                }
                let group = Group { notes: children, length, times: Times(times) };
                proof {
                    group.lemma_view();
                    assert(group@.notes =~= grammar::pattern_of(
                        times as nat,
                        length,
                        found@,
                    ).notes);
                }
                Ok((rest, group))
            },
            Err(failure) => Err(failure),
        },
        Err(failure) => Err(failure),
    }
}

/// The number of repetitions and the comma behind it.
pub fn times<'a>(s: &'a [char]) -> (read: Option<(&'a [char], Times)>)
    ensures
        match read {
            Some((rest, times)) => grammar::times(s@) == Some((rest@, times.0 as nat)),
            None => grammar::times(s@) is None,
        },
{
    match integer(s) {
        Ok((rest, Some(number))) => match expect(',', rest) {
            Ok((rest, _)) => Some((rest, Times(number))),
            Err(_) => None,
        },
        _ => None,
    }
}

/// `group := (integer ',')? length note+`
pub fn group<'a>(s: &'a [char]) -> (step: Step<'a, Group>)
    ensures
        group_step_view(step) == grammar::group(s@),
{
    if let Some((rest, times)) = times(s) {
        if let Ok(read) = body(times.0, rest) {
            return Ok(read);
        }
    }
    body(1, s)
}

/// `'(' group ')'`
pub fn delimited_group<'a>(s: &'a [char]) -> (step: Step<'a, Group>)
    ensures
        group_step_view(step) == grammar::delimited_group(s@),
{
    match expect('(', s) {
        Ok((rest, _)) => match group(rest) {
            Ok((rest, group)) => match expect(')', rest) {
                Ok((rest, _)) => Ok((rest, group)),
                Err(failure) => Err(failure),
            },
            Err(failure) => Err(failure),
        },
        Err(failure) => Err(failure),
    }
}

/// `group_or_delimited := '(' group ')' | group`
pub fn group_or_delimited_group<'a>(s: &'a [char]) -> (step: Step<'a, Group>)
    ensures
        group_step_view(step) == grammar::group_or_delimited_group(s@),
{
    match delimited_group(s) {
        Ok(read) => Ok(read),
        Err(_) => group(s),
    }
}

/// The patterns that `groups` hold, in their order.
pub open spec fn patterns_of(groups: Seq<Group>) -> Seq<Pattern> {
    Seq::new(groups.len(), |i: int| groups[i]@)
}

/// One group after the other, up to the end of the slice.
pub fn groups<'a>(s: &'a [char]) -> (step: Step<'a, Vec<Group>>)
    ensures
        match step {
            Ok((rest, found)) => grammar::groups(s@) == Ok::<_, Failure>(
                (rest@, patterns_of(found@)),
            ),
            Err((rest, reason)) => grammar::groups(s@) == Err::<(Seq<char>, Seq<Pattern>), _>(
                Failure { rest: rest@, reason },
            ),
        },
{
    let mut rest: &'a [char] = s;
    let mut found: Vec<Group> = Vec::new();
    proof {
        assert(patterns_of(found@) =~= Seq::<Pattern>::empty());
    }
    loop
        invariant
            grammar::groups(s@) == match grammar::groups(rest@) {
                Ok((end, more)) => Ok::<_, Failure>((end, patterns_of(found@) + more)),
                Err(failure) => Err(failure),
            },
        decreases rest.len(),
    {
        proof {
            grammar::lemma_group_advances(rest@);
        }
        match group_or_delimited_group(rest) {
            Ok((after, first)) => {
                let ghost before = patterns_of(found@);
                let ghost pattern = first@;
                found.push(first);
                proof {
                    assert(patterns_of(found@) =~= before.push(pattern));
                    if after@.len() > 0 {
                        if let Ok((end, more)) = grammar::groups(after@) {
                            assert(before.push(pattern) + more =~= before + (seq![pattern] + more));
                        }
                    } else {
                        assert(before.push(pattern) =~= before + seq![pattern]);
                    }
                }
                if after.len() == 0 {
                    return Ok((after, found));
                }
                rest = after;
            },
            Err(failure) => {
                return Err(failure);
            },
        }
    }
}

} // verus!
