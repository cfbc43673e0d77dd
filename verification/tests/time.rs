use polyrhythmix::dsl::dsl::{BasicLength, Group, GroupOrNote, KnownLength, Length, Note, Times};
use polyrhythmix::midi::lcm::greatest_common_divisor;
use polyrhythmix::midi::time::{lowest_common_divisor, TimeSignature, CONVERGENCE_LIMIT};
use std::cmp::Ordering;
use std::str::FromStr;

#[test]
fn test_cmp_time_signature() {
    let three_sixteenth = TimeSignature { numerator: 3, denominator: BasicLength::Sixteenth };
    let four_fourth = TimeSignature { numerator: 4, denominator: BasicLength::Fourth };
    let two_secondth = TimeSignature { numerator: 2, denominator: BasicLength::Half };
    assert_eq!(three_sixteenth.cmp(&four_fourth), Ordering::Less);
    assert_eq!(four_fourth.cmp(&two_secondth), Ordering::Greater);
}

#[test]
fn test_lcm() {
    assert_eq!(lowest_common_divisor(128, 96), 384);
    assert_eq!(lowest_common_divisor(96, 128), 384);
}

#[test]
fn test_converges() {
    let four_fourth = TimeSignature { numerator: 4, denominator: BasicLength::Fourth };
    let six_fourth = TimeSignature { numerator: 6, denominator: BasicLength::Fourth };
    let three_fourth = TimeSignature { numerator: 3, denominator: BasicLength::Fourth };
    let thirteen_eights = Group {
        notes: vec![GroupOrNote::SingleNote(Note::Hit)],
        length: Length::plain(BasicLength::Fourth).clone(),
        times: Times(12),
    };
    let in_shards_poly = Group {
        notes: vec![
            GroupOrNote::SingleNote(Note::Hit),
            GroupOrNote::SingleNote(Note::Rest),
            GroupOrNote::SingleGroup(thirteen_eights),
        ],
        length: Length::plain(BasicLength::Eighth).clone(),
        times: Times(1),
    };
    assert_eq!(three_fourth.converges(vec![four_fourth]), Ok(4));
    assert_eq!(four_fourth.converges(vec![three_fourth]), Ok(3));
    assert_eq!(four_fourth.converges(vec![three_fourth, four_fourth]), Ok(3));
    assert_eq!(four_fourth.converges(vec![three_fourth, six_fourth, four_fourth]), Ok(3));
    assert_eq!(four_fourth.converges(vec![in_shards_poly]), Ok(13));
}

#[test]
fn time_signatures_are_ordered_by_numerator_then_rank() {
    let three_sixteenth = TimeSignature::new(3, BasicLength::Sixteenth);
    let four_fourth = TimeSignature::new(4, BasicLength::Fourth);
    let two_half = TimeSignature::new(2, BasicLength::Half);
    let four_eighth = TimeSignature::new(4, BasicLength::Eighth);
    assert!(three_sixteenth < four_fourth);
    assert!(four_fourth > two_half);
    assert!(four_fourth < four_eighth);
    assert_eq!(four_fourth.partial_cmp(&four_fourth), Some(Ordering::Equal));
    assert_eq!(four_eighth.partial_cmp(&four_fourth), Some(Ordering::Greater));
    assert_eq!(four_fourth.to_128th(), two_half.to_128th());
    assert_eq!(four_fourth.partial_cmp(&two_half), Some(four_fourth.cmp(&two_half)));
}

#[test]
fn a_bar_lasts_its_notes() {
    assert_eq!(TimeSignature::new(4, BasicLength::Fourth).to_128th(), 128);
    assert_eq!(TimeSignature::new(3, BasicLength::Fourth).to_128th(), 96);
    assert_eq!(TimeSignature::new(7, BasicLength::Eighth).to_128th(), 112);
    assert_eq!(TimeSignature::new(255, BasicLength::Whole).to_128th(), 32640);
    assert_eq!(
        TimeSignature::new(3, BasicLength::Fourth),
        TimeSignature { numerator: 3, denominator: BasicLength::Fourth }
    );
}

#[test]
fn a_time_signature_is_multiplied_by_its_numerator() {
    let bar = TimeSignature::new(3, BasicLength::Fourth) * 4;
    assert_eq!(bar, TimeSignature::new(12, BasicLength::Fourth));
    assert_eq!(bar.to_128th(), 384);
}

#[test]
fn the_greatest_common_divisor_is_found() {
    assert_eq!(greatest_common_divisor(128, 96), 32);
    assert_eq!(greatest_common_divisor(96, 128), 32);
    assert_eq!(greatest_common_divisor(17, 5), 1);
    assert_eq!(greatest_common_divisor(12, 0), 12);
    assert_eq!(greatest_common_divisor(0, 12), 12);
}

#[test]
fn the_least_common_multiple_is_found() {
    assert_eq!(lowest_common_divisor(1, 1), 1);
    assert_eq!(lowest_common_divisor(7, 7), 7);
    assert_eq!(lowest_common_divisor(4, 6), 12);
    assert_eq!(lowest_common_divisor(10, 128), 640);
    assert_eq!(lowest_common_divisor(65535, 65536), 4294901760);
    assert_eq!(lowest_common_divisor(4294967295, 1), 4294967295);
}

#[test]
fn patterns_that_meet_too_late_do_not_converge() {
    let four_fourth = TimeSignature::new(4, BasicLength::Fourth);
    let long = Group {
        notes: vec![GroupOrNote::SingleNote(Note::Hit)],
        length: Length::triplet(BasicLength::SixtyFourth),
        times: Times(1009),
    };
    assert_eq!(long.to_128th(), 1009);
    assert_eq!(four_fourth.converges(vec![long.clone()]), Err(String::from("Does not converge")));
    assert_eq!(four_fourth.converges_within(vec![long.clone()], 1009), None);
    assert_eq!(four_fourth.converges_within(vec![long], 1010), Some(1009));
    let exact = Group {
        notes: vec![GroupOrNote::SingleNote(Note::Hit)],
        length: Length::plain(BasicLength::Whole),
        times: Times(1000),
    };
    assert_eq!(four_fourth.converges(vec![exact.clone()]), Err(String::from("Does not converge")));
    assert_eq!(four_fourth.converges_within(vec![exact], 1001), Some(1000));
    let almost = Group {
        notes: vec![GroupOrNote::SingleNote(Note::Hit)],
        length: Length::plain(BasicLength::Whole),
        times: Times(999),
    };
    assert_eq!(four_fourth.converges(vec![almost]), Ok(999));
    assert_eq!(CONVERGENCE_LIMIT, 1000);
}

#[test]
fn large_patterns_are_told_apart_without_overflow() {
    let four_fourth = TimeSignature::new(4, BasicLength::Fourth);
    let first = Group {
        notes: vec![GroupOrNote::SingleNote(Note::Hit)],
        length: Length::triplet(BasicLength::SixtyFourth),
        times: Times(65521),
    };
    let second = Group {
        notes: vec![GroupOrNote::SingleNote(Note::Hit)],
        length: Length::triplet(BasicLength::SixtyFourth),
        times: Times(65519),
    };
    let third = Group {
        notes: vec![GroupOrNote::SingleNote(Note::Hit)],
        length: Length::triplet(BasicLength::SixtyFourth),
        times: Times(65497),
    };
    assert_eq!(
        four_fourth.converges(vec![first.clone(), second.clone()]),
        Err(String::from("Does not converge"))
    );
    assert_eq!(
        four_fourth.converges_within(vec![first.clone(), second.clone()], u32::MAX),
        Some(4292870399)
    );
    assert_eq!(
        four_fourth.converges_within(vec![first.clone(), second.clone()], 4292870399),
        None
    );
    assert_eq!(four_fourth.converges_within(vec![first, second, third], u32::MAX), None);
}

#[test]
fn no_pattern_converges_at_once() {
    let three_fourth = TimeSignature::new(3, BasicLength::Fourth);
    let nothing: Vec<TimeSignature> = Vec::new();
    assert_eq!(three_fourth.converges(nothing.clone()), Ok(1));
    assert_eq!(three_fourth.converges_within(nothing.clone(), 2), Some(1));
    assert_eq!(three_fourth.converges_within(nothing.clone(), 1), None);
    assert_eq!(three_fourth.converges_within(nothing, 0), None);
}

#[test]
fn duplicates_and_order_do_not_change_the_bars() {
    let four_fourth = TimeSignature::new(4, BasicLength::Fourth);
    let three_fourth = TimeSignature::new(3, BasicLength::Fourth);
    let five_eighth = TimeSignature::new(5, BasicLength::Eighth);
    assert_eq!(four_fourth.converges(vec![three_fourth, five_eighth]), Ok(15));
    assert_eq!(four_fourth.converges(vec![five_eighth, three_fourth]), Ok(15));
    assert_eq!(four_fourth.converges(vec![three_fourth, five_eighth, three_fourth]), Ok(15));
    assert_eq!(
        four_fourth.converges(vec![five_eighth, five_eighth, three_fourth, four_fourth]),
        Ok(15)
    );
}

#[test]
fn nested_groups_add_up() {
    let inner = Group {
        notes: vec![GroupOrNote::SingleNote(Note::Hit)],
        length: Length::plain(BasicLength::Fourth),
        times: Times(12),
    };
    assert_eq!(inner.to_128th(), 384);
    let outer = Group {
        notes: vec![
            GroupOrNote::SingleNote(Note::Hit),
            GroupOrNote::SingleNote(Note::Rest),
            GroupOrNote::SingleGroup(inner.clone()),
        ],
        length: Length::plain(BasicLength::Eighth),
        times: Times(2),
    };
    assert_eq!(outer.to_128th(), 832);
    assert_eq!(outer.checked_to_128th(), Some(832));
    assert_eq!(outer.deep_copy(), outer);
    assert_eq!(outer.len(), 3);
    assert_eq!(outer[2], GroupOrNote::SingleGroup(inner));
}

#[test]
fn an_overlong_group_is_not_measured() {
    let long = Group {
        notes: vec![GroupOrNote::SingleNote(Note::Hit); 600],
        length: Length::plain(BasicLength::Whole),
        times: Times(65535),
    };
    assert_eq!(long.checked_to_128th(), None);
    let nested = Group {
        notes: vec![GroupOrNote::SingleGroup(long), GroupOrNote::SingleNote(Note::Hit)],
        length: Length::plain(BasicLength::Whole),
        times: Times(0),
    };
    assert_eq!(nested.checked_to_128th(), None);
    let silent = Group {
        notes: vec![GroupOrNote::SingleNote(Note::Hit)],
        length: Length::plain(BasicLength::Whole),
        times: Times(0),
    };
    assert_eq!(silent.checked_to_128th(), Some(0));
    let largest = Group {
        notes: vec![GroupOrNote::SingleNote(Note::Hit); 512],
        length: Length::plain(BasicLength::Whole),
        times: Times(65535),
    };
    assert_eq!(largest.checked_to_128th(), Some(4294901760));
    assert_eq!(largest.to_128th(), 4294901760);
}

#[test]
fn a_time_signature_is_read_from_text() {
    assert_eq!(TimeSignature::from_str("4/4"), Ok(TimeSignature::new(4, BasicLength::Fourth)));
    assert_eq!(TimeSignature::from_str("7/8"), Ok(TimeSignature::new(7, BasicLength::Eighth)));
    assert_eq!(TimeSignature::from_str("3/16"), Ok(TimeSignature::new(3, BasicLength::Sixteenth)));
    assert_eq!(TimeSignature::from_str("255/1"), Ok(TimeSignature::new(255, BasicLength::Whole)));
    assert_eq!("12/64".parse::<TimeSignature>(), Ok(TimeSignature::new(12, BasicLength::SixtyFourth)));
    assert_eq!(
        TimeSignature::from_str("4/3"),
        Err(String::from("4/3 is not a time signature"))
    );
    assert!(TimeSignature::from_str("0/4").is_err());
    assert!(TimeSignature::from_str("256/4").is_err());
    assert!(TimeSignature::from_str("4/4 ").is_err());
    assert!(TimeSignature::from_str("4").is_err());
    assert!(TimeSignature::from_str("4/").is_err());
    assert!(TimeSignature::from_str("/4").is_err());
    assert!(TimeSignature::from_str("").is_err());
    assert!(TimeSignature::from_str("4/4.").is_err());
}
