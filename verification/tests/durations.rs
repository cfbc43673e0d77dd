use polyrhythmix::dsl::dsl::{BasicLength, KnownLength, Length, ModdedLength};
use polyrhythmix::dsl::writing::push_number;
use std::str::FromStr;

const ALL: [BasicLength; 7] = [
    BasicLength::Whole,
    BasicLength::Half,
    BasicLength::Fourth,
    BasicLength::Eighth,
    BasicLength::Sixteenth,
    BasicLength::ThirtySecond,
    BasicLength::SixtyFourth,
];

fn tied(first: BasicLength, second: BasicLength) -> Length {
    Length::Tied(ModdedLength::Plain(first), ModdedLength::Plain(second))
}

#[test]
fn test_add_basic_length() {
    assert_eq!(
        BasicLength::Half + BasicLength::Half,
        Length::Simple(ModdedLength::Plain(BasicLength::Whole))
    );
    assert_eq!(
        BasicLength::Whole + BasicLength::Whole,
        Length::Tied(
            ModdedLength::Plain(BasicLength::Whole),
            ModdedLength::Plain(BasicLength::Whole)
        )
    );
    assert_eq!(
        BasicLength::Half + BasicLength::SixtyFourth,
        Length::Tied(
            ModdedLength::Plain(BasicLength::Half),
            ModdedLength::Plain(BasicLength::SixtyFourth)
        )
    );
}

#[test]
fn basic_lengths_follow_the_table() {
    let ticks: Vec<u32> = ALL.iter().map(|length| length.to_128th()).collect();
    assert_eq!(ticks, vec![128, 64, 32, 16, 8, 4, 2]);
}

#[test]
fn dotted_is_three_halves_of_plain() {
    let dotted: Vec<u32> = ALL.iter().map(|length| ModdedLength::Dotted(*length).to_128th()).collect();
    assert_eq!(dotted, vec![192, 96, 48, 24, 12, 6, 3]);
    for length in ALL {
        assert_eq!(
            ModdedLength::Dotted(length).to_128th(),
            ModdedLength::Plain(length).to_128th() * 3 / 2
        );
    }
}

#[test]
fn tied_is_the_sum_of_its_parts() {
    let length = Length::Tied(
        ModdedLength::Dotted(BasicLength::Fourth),
        ModdedLength::Plain(BasicLength::Sixteenth),
    );
    assert_eq!(length.to_128th(), 56);
    let longest = Length::Tied(
        ModdedLength::Dotted(BasicLength::Whole),
        ModdedLength::Dotted(BasicLength::Whole),
    );
    assert_eq!(longest.to_128th(), 384);
}

#[test]
fn triplet_is_two_thirds_rounded_down() {
    assert_eq!(Length::Triplet(ModdedLength::Plain(BasicLength::Eighth)).to_128th(), 10);
    assert_eq!(Length::Triplet(ModdedLength::Plain(BasicLength::Whole)).to_128th(), 85);
    assert_eq!(Length::Triplet(ModdedLength::Dotted(BasicLength::Fourth)).to_128th(), 32);
    assert_eq!(Length::Triplet(ModdedLength::Plain(BasicLength::SixtyFourth)).to_128th(), 1);
    assert_eq!(Length::Triplet(ModdedLength::Dotted(BasicLength::SixtyFourth)).to_128th(), 2);
}

#[test]
fn constructors_build_the_named_lengths() {
    assert_eq!(
        Length::plain(BasicLength::Sixteenth),
        Length::Simple(ModdedLength::Plain(BasicLength::Sixteenth))
    );
    assert_eq!(
        Length::triplet(BasicLength::Eighth),
        Length::Triplet(ModdedLength::Plain(BasicLength::Eighth))
    );
    assert_eq!(
        Length::dotted_triplet(BasicLength::Fourth),
        Length::Triplet(ModdedLength::Dotted(BasicLength::Fourth))
    );
}

#[test]
fn doubling_gives_the_next_longer_length() {
    assert_eq!(BasicLength::SixtyFourth + BasicLength::SixtyFourth, Length::plain(BasicLength::ThirtySecond));
    assert_eq!(BasicLength::ThirtySecond + BasicLength::ThirtySecond, Length::plain(BasicLength::Sixteenth));
    assert_eq!(BasicLength::Sixteenth + BasicLength::Sixteenth, Length::plain(BasicLength::Eighth));
    assert_eq!(BasicLength::Eighth + BasicLength::Eighth, Length::plain(BasicLength::Fourth));
    assert_eq!(BasicLength::Fourth + BasicLength::Fourth, Length::plain(BasicLength::Half));
}

#[test]
fn short_lengths_tie_to_the_longer_of_the_two() {
    assert_eq!(
        BasicLength::Sixteenth + BasicLength::ThirtySecond,
        tied(BasicLength::Sixteenth, BasicLength::ThirtySecond)
    );
    assert_eq!(
        BasicLength::SixtyFourth + BasicLength::Sixteenth,
        tied(BasicLength::Sixteenth, BasicLength::SixtyFourth)
    );
    assert_eq!(
        BasicLength::ThirtySecond + BasicLength::SixtyFourth,
        tied(BasicLength::ThirtySecond, BasicLength::SixtyFourth)
    );
    assert_eq!(
        BasicLength::Eighth + BasicLength::Whole,
        tied(BasicLength::Whole, BasicLength::Eighth)
    );
}

#[test]
fn adding_keeps_the_ticks_and_never_gives_a_triplet() {
    for a in ALL {
        for b in ALL {
            let sum = a + b;
            assert_eq!(sum.to_128th(), a.to_128th() + b.to_128th());
            assert_eq!(sum, b + a);
            assert!(!matches!(sum, Length::Triplet(_)));
        }
    }
}

#[test]
fn from_num_reads_64th_notes() {
    assert_eq!(BasicLength::from_num(1), Ok(BasicLength::SixtyFourth));
    assert_eq!(BasicLength::from_num(2), Ok(BasicLength::ThirtySecond));
    assert_eq!(BasicLength::from_num(4), Ok(BasicLength::Sixteenth));
    assert_eq!(BasicLength::from_num(8), Ok(BasicLength::Eighth));
    assert_eq!(BasicLength::from_num(16), Ok(BasicLength::Fourth));
    assert_eq!(BasicLength::from_num(32), Ok(BasicLength::Half));
    assert_eq!(BasicLength::from_num(64), Ok(BasicLength::Whole));
    assert_eq!(
        BasicLength::from_num(3),
        Err(String::from("3 is not a num BasicLength can be constructed from"))
    );
    assert!(BasicLength::from_num(0).is_err());
    assert!(BasicLength::from_num(128).is_err());
}

#[test]
fn from_str_reads_a_number_of_64th_notes() {
    assert_eq!(BasicLength::from_str("16"), Ok(BasicLength::Fourth));
    assert_eq!(BasicLength::from_str("+64"), Ok(BasicLength::Whole));
    assert_eq!(BasicLength::from_str("001"), Ok(BasicLength::SixtyFourth));
    assert_eq!("32".parse::<BasicLength>(), Ok(BasicLength::Half));
    assert!(BasicLength::from_str("3").is_err());
    assert!(BasicLength::from_str("70000").is_err());
    assert_eq!(
        BasicLength::from_str("x"),
        Err(String::from("x is not a number of 64th notes"))
    );
    assert!(BasicLength::from_str("").is_err());
    assert!(BasicLength::from_str("+").is_err());
    assert!(BasicLength::from_str("-4").is_err());
    assert!(BasicLength::from_str("4 ").is_err());
}

#[test]
fn basic_lengths_are_ordered_by_rank() {
    let ranks: Vec<u8> = ALL.iter().map(|length| length.rank()).collect();
    assert_eq!(ranks, vec![0, 1, 2, 3, 4, 5, 6]);
    assert!(BasicLength::Whole < BasicLength::Half);
    assert!(BasicLength::SixtyFourth > BasicLength::ThirtySecond);
    for a in ALL {
        for b in ALL {
            assert_eq!(a.partial_cmp(&b), Some(a.cmp(&b)));
            assert_eq!(a.cmp(&b), a.rank().cmp(&b.rank()));
        }
    }
}

#[test]
fn numbers_are_written_in_decimal() {
    let mut text = String::from("n=");
    push_number(&mut text, 0);
    text.push(' ');
    push_number(&mut text, 7);
    text.push(' ');
    push_number(&mut text, 10);
    text.push(' ');
    push_number(&mut text, 4096);
    text.push(' ');
    push_number(&mut text, 65535);
    assert_eq!(text, "n=0 7 10 4096 65535");
    assert_eq!(
        BasicLength::from_num(12345),
        Err(String::from("12345 is not a num BasicLength can be constructed from"))
    );
}
