//! The text that writes a group, and the law that the grammar reads it back: every
//! group of notes can be written in the notation, in one way that this module gives.

use crate::dsl::composition::starts_no_note;
use crate::dsl::dsl::{BasicLength, Length, ModdedLength, Note, Pattern};
use crate::dsl::grammar::{
    body, digit_of, digits_of, expect, group, integer, is_digit, lemma_digits_len_split,
    lemma_digits_of, length, modded, note, notes, notes1, pattern_of, times, Failure,
};
use vstd::prelude::*;
use vstd::string::StringExecFns;

verus! {

/// The digit that writes `d`.
fn digit_text(d: u16) -> (text: &'static str)
    requires
        d < 10,
    ensures
        text@ == seq![digit_of(d as nat)],
{
    proof {
        reveal_strlit("0");
        reveal_strlit("1");
        reveal_strlit("2");
        reveal_strlit("3");
        reveal_strlit("4");
        reveal_strlit("5");
        reveal_strlit("6");
        reveal_strlit("7");
        reveal_strlit("8");
        reveal_strlit("9");
    }
    let text = match d {
        0 => "0",
        1 => "1",
        2 => "2",
        3 => "3",
        4 => "4",
        5 => "5",
        6 => "6",
        7 => "7",
        8 => "8",
        _ => "9",
    };
    assert(text@ =~= seq![digit_of(d as nat)]);
    text
}

/// Puts the decimal digits of `n` behind `text`.
pub fn push_number(text: &mut String, n: u16)
    ensures
        final(text)@ == old(text)@ + digits_of(n as nat),
    decreases n,
{
    if n >= 10 {
        push_number(text, n / 10);
    }
    text.append(digit_text(n % 10));
    proof {
        let before = old(text)@;
        if n >= 10 {
            assert(before + digits_of(n as nat / 10) + seq![digit_of(n as nat % 10)] =~= before
                + digits_of(n as nat));
        }
    }
}

/// The number that names a note value.
pub open spec fn number_of_basic(length: BasicLength) -> nat {
    match length {
        BasicLength::Whole => 1,
        BasicLength::Half => 2,
        BasicLength::Fourth => 4,
        BasicLength::Eighth => 8,
        BasicLength::Sixteenth => 16,
        BasicLength::ThirtySecond => 32,
        BasicLength::SixtyFourth => 64,
    }
}

/// The text that writes a note value, with a dot behind it where it is dotted.
pub open spec fn write_modded(length: ModdedLength) -> Seq<char> {
    match length {
        ModdedLength::Plain(length) => digits_of(number_of_basic(length)),
        ModdedLength::Dotted(length) => digits_of(number_of_basic(length)).push('.'),
    }
}

/// The text that writes a length: a tie with `+` between its parts, a triplet with `t`
/// behind it.
pub open spec fn write_length(length: Length) -> Seq<char> {
    match length {
        Length::Simple(length) => write_modded(length),
        Length::Tied(first, second) => write_modded(first).push('+') + write_modded(second),
        Length::Triplet(length) => write_modded(length).push('t'),
    }
}

/// The character that writes a note.
pub open spec fn write_note(note: Note) -> char {
    match note {
        Note::Hit => 'x',
        Note::Rest => '-',
    }
}

/// The text that writes notes, one character each.
pub open spec fn write_notes(notes: Seq<Note>) -> Seq<char> {
    Seq::new(notes.len(), |i: int| write_note(notes[i]))
}

/// The notes of a group without nested groups.
pub open spec fn notes_of(pattern: Pattern) -> Seq<Note> {
    Seq::new(pattern.notes.len(), |i: int| pattern.notes[i]->Note_0)
}

/// The text that writes a group without nested groups: the number of repetitions, a
/// comma, the length and the notes.
pub open spec fn write_group(pattern: Pattern) -> Seq<char> {
    digits_of(pattern.times).push(',') + write_length(pattern.length) + write_notes(
        notes_of(pattern),
    )
}

/// No digit starts `s`.
pub open spec fn starts_no_digit(s: Seq<char>) -> bool {
    s.len() == 0 || !is_digit(s[0])
}

/// Nothing that could go on a length starts `s`: no digit, dot, `t` or `+`.
pub open spec fn starts_no_length(s: Seq<char>) -> bool {
    s.len() == 0 || !(is_digit(s[0]) || s[0] == '.' || s[0] == 't' || s[0] == '+')
}

/// The digits that write a number are read as that number, where no digit follows.
pub proof fn lemma_integer_reads(n: nat, more: Seq<char>)
    requires
        starts_no_digit(more),
    ensures
        integer(digits_of(n) + more) == Ok::<(Seq<char>, nat), Failure>((more, n)),
{
    let digits = digits_of(n);
    let text = digits + more;
    let len = digits.len() as int;
    lemma_digits_of(n);
    assert forall|j: int| 0 <= j < len implies is_digit(#[trigger] text[j]) by {
        assert(text[j] == digits[j]);
    }
    lemma_digits_len_split(text, len);
    assert(text.skip(len) =~= more);
    assert(text.take(len) =~= digits);
}

/// The text that writes a length, dotted or not, is read as that length, where nothing
/// follows that could go on it.
pub proof fn lemma_modded_reads(length: ModdedLength, more: Seq<char>)
    requires
        starts_no_digit(more),
        more.len() == 0 || more[0] != '.',
    ensures
        modded(write_modded(length) + more) == Ok::<(Seq<char>, ModdedLength), Failure>(
            (more, length),
        ),
{
    match length {
        ModdedLength::Plain(named) => {
            lemma_integer_reads(number_of_basic(named), more);
        },
        ModdedLength::Dotted(named) => {
            let after = seq!['.'] + more;
            lemma_integer_reads(number_of_basic(named), after);
            assert(write_modded(length) + more =~= digits_of(number_of_basic(named)) + after);
            assert(after.skip(1) =~= more);
        },
    }
}

/// What follows a length, dotted or not, decides what the length is a part of.
proof fn lemma_length_of_modded(text: Seq<char>, first: ModdedLength, after: Seq<char>)
    requires
        modded(text) == Ok::<(Seq<char>, ModdedLength), Failure>((after, first)),
    ensures
        expect('t', after) matches Ok((rest, _)) ==> length(text) == Ok::<
            (Seq<char>, Length),
            Failure,
        >((rest, Length::Triplet(first))),
        expect('t', after) is Err && expect('+', after) is Err ==> length(text) == Ok::<
            (Seq<char>, Length),
            Failure,
        >((after, Length::Simple(first))),
        expect('t', after) is Err ==> (expect('+', after) matches Ok((second, _)) ==> (modded(
            second,
        ) matches Ok((rest, tied)) ==> length(text) == Ok::<(Seq<char>, Length), Failure>(
            (rest, Length::Tied(first, tied)),
        ))),
{
}

/// The text of a length of its own is read back.
proof fn lemma_simple_reads(only: ModdedLength, more: Seq<char>)
    requires
        starts_no_length(more),
    ensures
        length(write_modded(only) + more) == Ok::<(Seq<char>, Length), Failure>(
            (more, Length::Simple(only)),
        ),
{
    lemma_modded_reads(only, more);
    lemma_length_of_modded(write_modded(only) + more, only, more);
}

/// The text of a triplet is read back.
proof fn lemma_triplet_reads(only: ModdedLength, more: Seq<char>)
    ensures
        length(write_modded(only).push('t') + more) == Ok::<(Seq<char>, Length), Failure>(
            (more, Length::Triplet(only)),
        ),
{
    let after = seq!['t'] + more;
    let text = write_modded(only).push('t') + more;
    assert(text =~= write_modded(only) + after);
    assert(after[0] == 't');
    lemma_modded_reads(only, after);
    assert(after.skip(1) =~= more);
    lemma_length_of_modded(text, only, after);
}

/// The text of a tie is read back.
proof fn lemma_tied_reads(first: ModdedLength, second: ModdedLength, more: Seq<char>)
    requires
        starts_no_digit(more),
        more.len() == 0 || more[0] != '.',
    ensures
        length(write_modded(first).push('+') + write_modded(second) + more) == Ok::<
            (Seq<char>, Length),
            Failure,
        >((more, Length::Tied(first, second))),
{
    let behind = write_modded(second) + more;
    let after = seq!['+'] + behind;
    let text = write_modded(first).push('+') + write_modded(second) + more;
    assert(text =~= write_modded(first) + after);
    assert(after[0] == '+');
    lemma_modded_reads(first, after);
    lemma_modded_reads(second, more);
    assert(after.skip(1) =~= behind);
    lemma_length_of_modded(text, first, after);
}

/// The text that writes a length is read as that length, where nothing follows that
/// could go on it.
pub proof fn lemma_length_reads(written: Length, more: Seq<char>)
    requires
        starts_no_length(more),
    ensures
        length(write_length(written) + more) == Ok::<(Seq<char>, Length), Failure>(
            (more, written),
        ),
{
    match written {
        Length::Simple(only) => {
            lemma_simple_reads(only, more);
        },
        Length::Tied(first, second) => {
            lemma_tied_reads(first, second, more);
        },
        Length::Triplet(only) => {
            lemma_triplet_reads(only, more);
        },
    }
}

/// The text that writes notes is read as those notes, where no note follows.
pub proof fn lemma_notes_read(written: Seq<Note>, more: Seq<char>)
    requires
        starts_no_note(more),
    ensures
        notes(write_notes(written) + more) == (more, written),
    decreases written.len(),
{
    let text = write_notes(written) + more;
    if written.len() == 0 {
        assert(text =~= more);
        assert(written =~= Seq::<Note>::empty());
    } else {
        let later = written.skip(1);
        lemma_notes_read(later, more);
        assert(text[0] == write_note(written[0]));
        assert(text.skip(1) =~= write_notes(later) + more);
        assert(seq![written[0]] + later =~= written);
    }
}

/// Reading back: the text that writes a group is read as that group, where no note
/// follows. The group has at least one note, no nested group, and is repeated a number
/// of times that fits in 16 bits.
pub proof fn lemma_group_reads(pattern: Pattern, more: Seq<char>)
    requires
        pattern.flat(),
        pattern.notes.len() >= 1,
        pattern.times <= u16::MAX,
        starts_no_note(more),
    ensures
        group(write_group(pattern) + more) == Ok::<(Seq<char>, Pattern), Failure>(
            (more, pattern),
        ),
{
    let written = notes_of(pattern);
    let notes_text = write_notes(written) + more;
    let body_text = write_length(pattern.length) + notes_text;
    let after = seq![','] + body_text;
    let text = write_group(pattern) + more;
    assert(text =~= digits_of(pattern.times) + after);
    lemma_integer_reads(pattern.times, after);
    assert(after.skip(1) =~= body_text);
    assert(times(text) == Some((body_text, pattern.times)));
    assert(notes_text[0] == write_note(written[0]));
    lemma_length_reads(pattern.length, notes_text);
    lemma_notes_read(written, more);
    assert(note(notes_text) is Ok);
    assert(notes1(notes_text) == Ok::<(Seq<char>, Seq<Note>), Failure>((more, written)));
    let read = pattern_of(pattern.times, pattern.length, written);
    assert(read.notes =~= pattern.notes) by {
        assert forall|i: int| 0 <= i < pattern.notes.len() implies read.notes[i]
            == pattern.notes[i] by {
            assert(pattern.notes[i] is Note);
        }
    }
    assert(read == pattern);
    assert(body(pattern.times, body_text) == Ok::<(Seq<char>, Pattern), Failure>(
        (more, pattern),
    ));
}

} // verus!
