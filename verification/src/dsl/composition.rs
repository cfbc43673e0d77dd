//! What the grammar makes of a text that stands before another: where a rule has read
//! its fill, text put behind does not change what it read. From this follow the laws of
//! the notation: delimiters do not change a group, and groups in a row are read in
//! their order.

use crate::dsl::dsl::Pattern;
use crate::dsl::grammar::{
    basic, body, delimited_group, digits_len, expect, group, group_or_delimited_group, groups,
    integer, is_digit, lemma_digits_len, lemma_group_advances, lemma_groups,
    lemma_integer_advances, lemma_length_advances, lemma_modded_advances, length, modded, note,
    notes, times, Failure, Parsed,
};
use vstd::prelude::*;

verus! {

/// The same result, with `more` behind the text that is left.
pub open spec fn extended<T>(read: Parsed<T>, more: Seq<char>) -> Parsed<T> {
    match read {
        Ok((rest, value)) => Ok((rest + more, value)),
        Err(failure) => Err(Failure { rest: failure.rest + more, reason: failure.reason }),
    }
}

/// No note starts `s`: it is empty, or starts with another character.
pub open spec fn starts_no_note(s: Seq<char>) -> bool {
    note(s) is Err
}

/// What a character makes of a text that is not empty does not depend on what follows.
pub proof fn lemma_expect_extends(c: char, s: Seq<char>, more: Seq<char>)
    requires
        s.len() > 0,
    ensures
        expect(c, s + more) == extended(expect(c, s), more),
{
    assert((s + more).skip(1) =~= s.skip(1) + more);
}

/// The digits that a text starts with do not depend on what follows a character that
/// is no digit.
pub proof fn lemma_digits_len_extends(s: Seq<char>, more: Seq<char>)
    requires
        digits_len(s) < s.len(),
    ensures
        digits_len(s + more) == digits_len(s),
    decreases s.len(),
{
    if is_digit(s[0]) {
        assert((s + more).skip(1) =~= s.skip(1) + more);
        lemma_digits_len_extends(s.skip(1), more);
    }
}

/// A number that does not reach the end of its text does not depend on what follows.
pub proof fn lemma_integer_extends(s: Seq<char>, more: Seq<char>)
    requires
        digits_len(s) < s.len(),
    ensures
        integer(s + more) == extended(integer(s), more),
{
    let n = digits_len(s) as int;
    lemma_digits_len_extends(s, more);
    assert((s + more).skip(n) =~= s.skip(n) + more);
    assert((s + more).take(n) =~= s.take(n));
}

/// A note value, dotted or not, that does not reach the end of its text with its
/// digits does not depend on what follows.
pub proof fn lemma_modded_extends(s: Seq<char>, more: Seq<char>)
    requires
        digits_len(s) < s.len(),
    ensures
        basic(s + more) == extended(basic(s), more),
        modded(s + more) == extended(modded(s), more),
{
    lemma_integer_extends(s, more);
    if let Ok((rest, _)) = basic(s) {
        lemma_expect_extends('.', rest, more);
    }
}

/// A length that is followed by a note does not depend on what follows the note.
pub proof fn lemma_length_extends(s: Seq<char>, more: Seq<char>)
    requires
        length(s) matches Ok((rest, _)) && note(rest) is Ok,
    ensures
        length(s + more) == extended(length(s), more),
{
    let rest = length(s)->Ok_0.0;
    let first = modded(s)->Ok_0.0;
    lemma_modded_advances(s);
    lemma_length_advances(s);
    lemma_digits_len(s);
    assert(digits_len(s) < s.len());
    lemma_modded_extends(s, more);
    lemma_expect_extends('t', first, more);
    lemma_expect_extends('+', first, more);
    if expect('t', first) is Err {
        if let Ok((second, _)) = expect('+', first) {
            lemma_modded_advances(second);
            lemma_digits_len(second);
            if modded(second) is Ok {
                lemma_modded_extends(second, more);
            }
        }
    }
}

/// The notes that a text starts with do not depend on what follows them, unless they
/// reach the end of the text and a note follows.
pub proof fn lemma_notes_extend(s: Seq<char>, more: Seq<char>)
    requires
        notes(s).0.len() > 0 || starts_no_note(more),
    ensures
        notes(s + more) == (notes(s).0 + more, notes(s).1),
    decreases s.len(),
{
    if s.len() == 0 {
        assert(s + more =~= more);
        assert(notes(s).0 + more =~= more);
    } else {
        lemma_expect_extends('x', s, more);
        lemma_expect_extends('-', s, more);
        if let Ok((rest, _)) = note(s) {
            lemma_notes_extend(rest, more);
        }
    }
}

/// The length and the notes of a group do not depend on what follows them, unless the
/// notes reach the end of the text and a note follows.
pub proof fn lemma_body_extends(times: nat, s: Seq<char>, more: Seq<char>)
    requires
        body(times, s) matches Ok((rest, _)) && (rest.len() > 0 || starts_no_note(more)),
    ensures
        body(times, s + more) == extended(body(times, s), more),
{
    let rest = length(s)->Ok_0.0;
    lemma_length_extends(s, more);
    lemma_expect_extends('x', rest, more);
    lemma_expect_extends('-', rest, more);
    lemma_notes_extend(rest, more);
}

/// A group does not depend on what follows it, unless it reaches the end of the text
/// and a note follows.
pub proof fn lemma_group_extends(s: Seq<char>, more: Seq<char>)
    requires
        group(s) matches Ok((rest, _)) && (rest.len() > 0 || starts_no_note(more)),
    ensures
        group(s + more) == extended(group(s), more),
{
    lemma_integer_advances(s);
    lemma_digits_len(s);
    if let Ok((after, _)) = integer(s) {
        if after.len() > 0 {
            lemma_integer_extends(s, more);
            lemma_expect_extends(',', after, more);
            lemma_expect_extends('.', after, more);
            lemma_expect_extends('t', after, more);
            lemma_expect_extends('+', after, more);
            lemma_expect_extends('x', after, more);
            lemma_expect_extends('-', after, more);
        }
        match times(s) {
            Some((rest, number)) => {
                if body(number, rest) is Ok {
                    lemma_body_extends(number, rest, more);
                } else {
                    assert(body(1, s) is Err);
                }
            },
            None => {
                lemma_body_extends(1, s, more);
            },
        }
    }
}

/// A group between delimiters does not depend on what follows it.
pub proof fn lemma_delimited_group_extends(s: Seq<char>, more: Seq<char>)
    requires
        delimited_group(s) is Ok,
    ensures
        delimited_group(s + more) == extended(delimited_group(s), more),
{
    let inside = expect('(', s)->Ok_0.0;
    let close = group(inside)->Ok_0.0;
    lemma_expect_extends('(', s, more);
    lemma_group_extends(inside, more);
    lemma_expect_extends(')', close, more);
}

/// A group, between delimiters or without them, does not depend on what follows it,
/// unless it has no delimiters, reaches the end of the text, and a note follows.
pub proof fn lemma_group_or_delimited_group_extends(s: Seq<char>, more: Seq<char>)
    requires
        group_or_delimited_group(s) matches Ok((rest, _)) && (delimited_group(s) is Ok
            || rest.len() > 0 || starts_no_note(more)),
    ensures
        group_or_delimited_group(s + more) == extended(group_or_delimited_group(s), more),
{
    if delimited_group(s) is Ok {
        lemma_delimited_group_extends(s, more);
    } else {
        lemma_integer_advances(s);
        lemma_expect_extends('(', s, more);
        lemma_group_extends(s, more);
    }
}

/// Delimiters do not change a group: a text that is a group, put between delimiters,
/// is read as the same group, whatever follows.
pub proof fn lemma_delimiters_keep_the_group(s: Seq<char>, more: Seq<char>)
    requires
        group(s) matches Ok((rest, _)) && rest.len() == 0,
    ensures
        delimited_group(seq!['('] + s + seq![')'] + more) == Ok::<(Seq<char>, Pattern), Failure>(
            (more, group(s)->Ok_0.1),
        ),
        group_or_delimited_group(seq!['('] + s + seq![')'] + more) == Ok::<
            (Seq<char>, Pattern),
            Failure,
        >((more, group(s)->Ok_0.1)),
{
    let text = seq!['('] + s + seq![')'] + more;
    let inside = s + (seq![')'] + more);
    assert(text.skip(1) =~= inside);
    assert(starts_no_note(seq![')'] + more));
    lemma_group_extends(s, seq![')'] + more);
    let close = group(s)->Ok_0.0 + (seq![')'] + more);
    assert(close =~= seq![')'] + more);
    assert(close.skip(1) =~= more);
}

/// Groups in a row are read in their order: a group before a pattern makes the pattern
/// that starts with the group, provided that the group has delimiters or that the
/// pattern starts with none of the notes that would go on the group.
pub proof fn lemma_groups_in_a_row(first: Seq<char>, then: Seq<char>)
    requires
        group_or_delimited_group(first) matches Ok((rest, _)) && rest.len() == 0,
        groups(then) is Ok,
        delimited_group(first) is Ok || starts_no_note(then),
    ensures
        groups(first + then) == Ok::<(Seq<char>, Seq<Pattern>), Failure>(
            (
                Seq::empty(),
                seq![group_or_delimited_group(first)->Ok_0.1] + groups(then)->Ok_0.1,
            ),
        ),
{
    lemma_group_or_delimited_group_extends(first, then);
    lemma_groups(then);
    lemma_group_advances(first);
    assert(Seq::<char>::empty() + then =~= then);
    assert(groups(then)->Ok_0.0 =~= Seq::<char>::empty());
}

} // verus!
