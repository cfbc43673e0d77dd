use polyrhythmix::dsl::dsl::{
    delimited_group, group, group_or_delimited_group, groups, length, BasicLength, Group,
    GroupOrNote, KnownLength, Length, ModdedLength, Note, ParseError, Times,
};
use polyrhythmix::dsl::grammar::Reason;

const HIT: GroupOrNote = GroupOrNote::SingleNote(Note::Hit);
const REST: GroupOrNote = GroupOrNote::SingleNote(Note::Rest);

fn sixteenth() -> Length {
    Length::plain(BasicLength::Sixteenth)
}

fn failure(rest: &str, reason: Reason) -> ParseError<'_> {
    ParseError { rest, reason }
}

#[test]
fn parse_length() {
    assert_eq!(length("16"), Ok(("", sixteenth())));
    assert_eq!(
        length("8+16"),
        Ok((
            "",
            Length::Tied(
                ModdedLength::Plain(BasicLength::Eighth),
                ModdedLength::Plain(BasicLength::Sixteenth)
            )
        ))
    );
    assert_eq!(length("8t"), Ok(("", Length::triplet(BasicLength::Eighth))));
    assert_eq!(length("4.t"), Ok(("", Length::dotted_triplet(BasicLength::Fourth))));
}

#[test]
fn parse_group() {
    assert_eq!(
        group("16x--x-"),
        Ok((
            "",
            Group {
                times: Times(1),
                notes: vec![HIT.clone(), REST.clone(), REST.clone(), HIT.clone(), REST.clone()],
                length: sixteenth()
            }
        ))
    );
    assert_eq!(
        group("8txxx"),
        Ok((
            "",
            Group {
                times: Times(1),
                notes: vec![HIT.clone(), HIT.clone(), HIT.clone()],
                length: Length::triplet(BasicLength::Eighth)
            }
        ))
    );
    assert_eq!(
        group("16+32x-xx"),
        Ok((
            "",
            Group {
                times: Times(1),
                notes: vec![HIT.clone(), REST.clone(), HIT.clone(), HIT.clone()],
                length: Length::Tied(
                    ModdedLength::Plain(BasicLength::Sixteenth),
                    ModdedLength::Plain(BasicLength::ThirtySecond)
                )
            }
        ))
    );
    assert_eq!(
        group("3,16xx"),
        Ok((
            "",
            Group { times: Times(3), length: sixteenth(), notes: vec![HIT.clone(), HIT.clone()] }
        ))
    );
}

#[test]
fn parse_delimited_group() {
    assert_eq!(
        delimited_group("(3,16x--x-)"),
        Ok((
            "",
            Group {
                times: Times(3),
                notes: vec![HIT.clone(), REST.clone(), REST.clone(), HIT.clone(), REST.clone()],
                length: sixteenth()
            }
        ))
    );
}

#[test]
fn parse_group_or_delimited_group() {
    assert_eq!(
        group_or_delimited_group("(3,16x--x-)"),
        Ok((
            "",
            Group {
                times: Times(3),
                notes: vec![HIT.clone(), REST.clone(), REST.clone(), HIT.clone(), REST.clone()],
                length: sixteenth()
            }
        ))
    );
    assert_eq!(
        group_or_delimited_group("16x--x-"),
        Ok((
            "",
            Group {
                times: Times(1),
                notes: vec![HIT.clone(), REST.clone(), REST.clone(), HIT.clone(), REST.clone()],
                length: sixteenth()
            }
        ))
    );
}

#[test]
fn every_note_value_is_read() {
    assert_eq!(length("1"), Ok(("", Length::plain(BasicLength::Whole))));
    assert_eq!(length("2"), Ok(("", Length::plain(BasicLength::Half))));
    assert_eq!(length("4"), Ok(("", Length::plain(BasicLength::Fourth))));
    assert_eq!(length("8"), Ok(("", Length::plain(BasicLength::Eighth))));
    assert_eq!(length("16"), Ok(("", Length::plain(BasicLength::Sixteenth))));
    assert_eq!(length("32"), Ok(("", Length::plain(BasicLength::ThirtySecond))));
    assert_eq!(length("64"), Ok(("", Length::plain(BasicLength::SixtyFourth))));
    assert_eq!(length("0016"), Ok(("", Length::plain(BasicLength::Sixteenth))));
}

#[test]
fn a_length_that_is_no_note_value_fails() {
    assert_eq!(length("3"), Err(failure("", Reason::UnknownLength)));
    assert_eq!(length("3x"), Err(failure("x", Reason::UnknownLength)));
    assert_eq!(length("0"), Err(failure("", Reason::UnknownLength)));
    assert_eq!(length("128x"), Err(failure("x", Reason::UnknownLength)));
    assert_eq!(
        length("99999999999999999999999999x"),
        Err(failure("x", Reason::UnknownLength))
    );
    assert_eq!(group("3x"), Err(failure("x", Reason::UnknownLength)));
    assert_eq!(group_or_delimited_group("(3x)"), Err(failure("(3x)", Reason::MissingNumber)));
    assert_eq!(groups("3x"), Err(failure("x", Reason::UnknownLength)));
    assert_eq!(groups("16x3x"), Err(failure("x", Reason::UnknownLength)));
}

#[test]
fn a_missing_number_fails() {
    assert_eq!(length(""), Err(failure("", Reason::MissingNumber)));
    assert_eq!(length("x"), Err(failure("x", Reason::MissingNumber)));
    assert_eq!(length("t8"), Err(failure("t8", Reason::MissingNumber)));
    assert_eq!(group("x-x"), Err(failure("x-x", Reason::MissingNumber)));
    assert_eq!(groups(""), Err(failure("", Reason::MissingNumber)));
}

#[test]
fn a_group_without_notes_fails() {
    assert_eq!(group("16"), Err(failure("", Reason::UnexpectedChar)));
    assert_eq!(group("16y"), Err(failure("y", Reason::UnexpectedChar)));
    assert_eq!(group("8+"), Err(failure("+", Reason::UnexpectedChar)));
    assert_eq!(group("3,16"), Err(failure(",16", Reason::UnknownLength)));
    assert_eq!(group("2,x"), Err(failure(",x", Reason::UnexpectedChar)));
}

#[test]
fn alternatives_are_tried_in_order() {
    assert_eq!(length("4.t"), Ok(("", Length::Triplet(ModdedLength::Dotted(BasicLength::Fourth)))));
    assert_eq!(length("4."), Ok(("", Length::Simple(ModdedLength::Dotted(BasicLength::Fourth)))));
    assert_eq!(
        length("4.+8.x"),
        Ok((
            "x",
            Length::Tied(
                ModdedLength::Dotted(BasicLength::Fourth),
                ModdedLength::Dotted(BasicLength::Eighth)
            )
        ))
    );
    assert_eq!(length("8+3x"), Ok(("+3x", Length::plain(BasicLength::Eighth))));
    assert_eq!(length("8+x"), Ok(("+x", Length::plain(BasicLength::Eighth))));
    assert_eq!(length("8t+4"), Ok(("+4", Length::triplet(BasicLength::Eighth))));
    assert_eq!(length("8tt"), Ok(("t", Length::triplet(BasicLength::Eighth))));
    assert_eq!(length("8.."), Ok((".", Length::Simple(ModdedLength::Dotted(BasicLength::Eighth)))));
}

#[test]
fn the_rest_of_the_text_is_handed_back() {
    assert_eq!(
        group("16x-(8x)"),
        Ok(("(8x)", Group { times: Times(1), notes: vec![HIT, REST], length: sixteenth() }))
    );
    assert_eq!(
        group("16x-é"),
        Ok(("é", Group { times: Times(1), notes: vec![HIT, REST], length: sixteenth() }))
    );
    assert_eq!(group("é16x"), Err(failure("é16x", Reason::MissingNumber)));
    assert_eq!(
        delimited_group("(8x)8x"),
        Ok((
            "8x",
            Group { times: Times(1), notes: vec![HIT], length: Length::plain(BasicLength::Eighth) }
        ))
    );
}

#[test]
fn repetitions_are_read_where_they_fit() {
    assert_eq!(
        group("16,4x"),
        Ok((
            "",
            Group { times: Times(16), notes: vec![HIT], length: Length::plain(BasicLength::Fourth) }
        ))
    );
    assert_eq!(
        group("65535,4x"),
        Ok((
            "",
            Group {
                times: Times(65535),
                notes: vec![HIT],
                length: Length::plain(BasicLength::Fourth)
            }
        ))
    );
    assert_eq!(
        group("0,4x"),
        Ok((
            "",
            Group { times: Times(0), notes: vec![HIT], length: Length::plain(BasicLength::Fourth) }
        ))
    );
    assert_eq!(group("65536,4x"), Err(failure(",4x", Reason::UnknownLength)));
    assert_eq!(group("4,4"), Err(failure(",4", Reason::UnexpectedChar)));
}

#[test]
fn delimiters_must_match() {
    assert_eq!(delimited_group("16x"), Err(failure("16x", Reason::UnexpectedChar)));
    assert_eq!(delimited_group("(16x"), Err(failure("", Reason::UnexpectedChar)));
    assert_eq!(delimited_group("(16x(8x)"), Err(failure("(8x)", Reason::UnexpectedChar)));
    assert_eq!(delimited_group("()"), Err(failure(")", Reason::MissingNumber)));
    assert_eq!(group_or_delimited_group("(16x"), Err(failure("(16x", Reason::MissingNumber)));
}

#[test]
fn groups_follow_one_another_to_the_end() {
    let read = groups("16x-xx-x-8txxx(3,16+32x-xx)4x-x-");
    let expected = vec![
        Group {
            times: Times(1),
            notes: vec![HIT, REST, HIT, HIT, REST, HIT, REST],
            length: sixteenth(),
        },
        Group {
            times: Times(1),
            notes: vec![HIT, HIT, HIT],
            length: Length::triplet(BasicLength::Eighth),
        },
        Group {
            times: Times(3),
            notes: vec![HIT, REST, HIT, HIT],
            length: Length::Tied(
                ModdedLength::Plain(BasicLength::Sixteenth),
                ModdedLength::Plain(BasicLength::ThirtySecond),
            ),
        },
        Group {
            times: Times(1),
            notes: vec![HIT, REST, HIT, REST],
            length: Length::plain(BasicLength::Fourth),
        },
    ];
    assert_eq!(read, Ok(("", expected)));
}

#[test]
fn text_behind_the_last_group_fails_the_pattern() {
    assert_eq!(groups("16x-z"), Err(failure("z", Reason::MissingNumber)));
    assert_eq!(groups("16x-)"), Err(failure(")", Reason::MissingNumber)));
    assert_eq!(groups("16x 8x"), Err(failure(" 8x", Reason::MissingNumber)));
    assert_eq!(groups("(16x)(8"), Err(failure("(8", Reason::MissingNumber)));
    assert_eq!(
        groups("(16x)8x"),
        Ok((
            "",
            vec![
                Group { times: Times(1), notes: vec![HIT], length: sixteenth() },
                Group {
                    times: Times(1),
                    notes: vec![HIT],
                    length: Length::plain(BasicLength::Eighth)
                },
            ]
        ))
    );
}

#[test]
fn a_triplet_group_lasts_its_notes() {
    let (rest, triplets) = group("8txxx").unwrap();
    assert_eq!(rest, "");
    assert_eq!(
        triplets.to_128th(),
        Length::Triplet(ModdedLength::Plain(BasicLength::Eighth)).to_128th() * 3
    );
    assert_eq!(triplets.to_128th(), 30);
}

#[test]
fn delimiters_do_not_change_the_group() {
    let (_, bare) = group_or_delimited_group("3,16x--x-").unwrap();
    let (_, delimited) = group_or_delimited_group("(3,16x--x-)").unwrap();
    assert_eq!(bare, delimited);
    assert_eq!(bare.times, Times(3));
}
