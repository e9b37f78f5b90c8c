use dice_roll::{Dice, ParseError, ParseErrorKind};

fn fault(notation: &str) -> ParseError {
    match Dice::parse(notation) {
        Ok(dice) => panic!("{:?} was read as {:?}", notation, dice),
        Err(error) => error,
    }
}

fn kind(notation: &str) -> ParseErrorKind {
    fault(notation).kind
}

fn dice(count: u8, sides: u8, modifier: i32) -> Dice {
    Dice { sides, count, modifier }
}

#[test]
fn test_parse_simple_dice() {
    let dice = Dice::parse("1d6").unwrap();
    assert_eq!(dice.count, 1);
    assert_eq!(dice.sides, 6);
    assert_eq!(dice.modifier, 0);
}

#[test]
fn test_parse_multiple_dice() {
    let dice = Dice::parse("3d8").unwrap();
    assert_eq!(dice.count, 3);
    assert_eq!(dice.sides, 8);
    assert_eq!(dice.modifier, 0);
}

#[test]
fn test_parse_dice_with_positive_modifier() {
    let dice = Dice::parse("2d10+5").unwrap();
    assert_eq!(dice.count, 2);
    assert_eq!(dice.sides, 10);
    assert_eq!(dice.modifier, 5);
}

#[test]
fn test_parse_dice_with_negative_modifier() {
    let dice = Dice::parse("1d20-3").unwrap();
    assert_eq!(dice.count, 1);
    assert_eq!(dice.sides, 20);
    assert_eq!(dice.modifier, -3);
}

#[test]
fn test_parse_whitespace_handling() {
    let dice = Dice::parse("  2D6+1  ").unwrap();
    assert_eq!(dice.count, 2);
    assert_eq!(dice.sides, 6);
    assert_eq!(dice.modifier, 1);
}

#[test]
fn test_parse_invalid_format() {
    assert!(Dice::parse("invalid").is_err());
    assert!(Dice::parse("2x6").is_err());
    assert!(Dice::parse("d6").is_err());
    assert!(Dice::parse("2d").is_err());
}

#[test]
fn test_parse_invalid_numbers() {
    assert!(Dice::parse("abc d6").is_err());
    assert!(Dice::parse("2d abc").is_err());
    assert!(Dice::parse("2d6+ abc").is_err());
}

#[test]
fn test_parse_zero_values() {
    assert!(Dice::parse("0d6").is_err());
    assert!(Dice::parse("2d0").is_err());
}

#[test]
fn every_count_and_sides_is_read_back() {
    for count in 1..=255u8 {
        for sides in 1..=255u8 {
            let notation = format!("{}d{}", count, sides);
            assert_eq!(Dice::parse(&notation), Ok(dice(count, sides, 0)));
        }
    }
}

#[test]
fn modifiers_are_read_back_with_their_sign() {
    let modifiers = [0, 1, 5, 9, 10, 99, 100, 65535, 1_000_000, i32::MAX - 1, i32::MAX];
    for count in [1u8, 2, 10, 255] {
        for sides in [1u8, 6, 20, 100, 255] {
            for m in modifiers {
                let plus = format!("{}d{}+{}", count, sides, m);
                assert_eq!(Dice::parse(&plus), Ok(dice(count, sides, m)));
                let minus = format!("{}D{}-{}", count, sides, m);
                assert_eq!(Dice::parse(&minus), Ok(dice(count, sides, -m)));
            }
        }
    }
}

#[test]
fn case_and_padding_do_not_count() {
    assert_eq!(Dice::parse("  2D6+1  "), Dice::parse("2d6+1"));
    assert_eq!(Dice::parse("2D6+1"), Ok(dice(2, 6, 1)));
    assert_eq!(Dice::parse("\t3d8\n"), Ok(dice(3, 8, 0)));
    assert_eq!(Dice::parse("\u{3000}4d4-2\u{a0}\u{2003}"), Ok(dice(4, 4, -2)));
    assert_eq!(kind("  2X6  "), kind("2x6"));
    assert_eq!(fault(" ABC D6 ").kind, fault("abc d6").kind);
}

#[test]
fn rejected_notations_name_the_field() {
    assert_eq!(kind("invalid"), ParseErrorKind::MalformedSpec);
    assert_eq!(kind("2x6"), ParseErrorKind::MalformedSpec);
    assert_eq!(kind("d6"), ParseErrorKind::MalformedSpec);
    assert_eq!(kind("2d"), ParseErrorKind::MalformedSpec);
    assert_eq!(kind("abc d6"), ParseErrorKind::InvalidCount);
    assert_eq!(kind("2d abc"), ParseErrorKind::InvalidSides);
    assert_eq!(kind("2d6+ abc"), ParseErrorKind::InvalidModifier);
    assert_eq!(kind("0d6"), ParseErrorKind::ZeroCount);
    assert_eq!(kind("2d0"), ParseErrorKind::ZeroSides);
}

#[test]
fn malformed_notations() {
    for notation in ["", "   ", "d", "D", "6", "2dd6", "2d6d", "2d6d4", "dd", "2Dd6", " d6 ", " 2d "] {
        let error = fault(notation);
        assert_eq!(error.kind, ParseErrorKind::MalformedSpec, "{:?}", notation);
        assert_eq!(error.input, notation);
        assert_eq!(error.part, notation.trim());
    }
}

#[test]
fn errors_carry_the_notation_and_the_piece_at_fault() {
    let error = fault("  abc d6 ");
    assert_eq!(error.kind, ParseErrorKind::InvalidCount);
    assert_eq!(error.input, "  abc d6 ");
    assert_eq!(error.part, "abc ");

    let error = fault("2d abc");
    assert_eq!(error.kind, ParseErrorKind::InvalidSides);
    assert_eq!(error.input, "2d abc");
    assert_eq!(error.part, " abc");

    let error = fault("2D6+ abc");
    assert_eq!(error.kind, ParseErrorKind::InvalidModifier);
    assert_eq!(error.input, "2D6+ abc");
    assert_eq!(error.part, " abc");

    let error = fault("00d6");
    assert_eq!(error.kind, ParseErrorKind::ZeroCount);
    assert_eq!(error.part, "00");

    let error = fault("2d0+7");
    assert_eq!(error.kind, ParseErrorKind::ZeroSides);
    assert_eq!(error.part, "0");

    let error = fault("\u{e9}d6");
    assert_eq!(error.kind, ParseErrorKind::InvalidCount);
    assert_eq!(error.part, "\u{e9}");
}

#[test]
fn fields_are_read_in_order() {
    assert_eq!(kind("xd0+y"), ParseErrorKind::InvalidCount);
    assert_eq!(kind("0dx+y"), ParseErrorKind::ZeroCount);
    assert_eq!(kind("2dx+y"), ParseErrorKind::InvalidSides);
    assert_eq!(kind("2d0+y"), ParseErrorKind::ZeroSides);
    assert_eq!(kind("2d6+y"), ParseErrorKind::InvalidModifier);
}

#[test]
fn a_missing_modifier_is_zero() {
    assert_eq!(Dice::parse("2d6+"), Ok(dice(2, 6, 0)));
    assert_eq!(Dice::parse("2d6-"), Ok(dice(2, 6, 0)));
}

#[test]
fn the_first_sign_splits_and_plus_goes_first() {
    assert_eq!(Dice::parse("2d6+-3"), Ok(dice(2, 6, -3)));
    assert_eq!(Dice::parse("2d6++3"), Ok(dice(2, 6, 3)));
    assert_eq!(Dice::parse("2d6--3"), Ok(dice(2, 6, 3)));

    let error = fault("2d6+1+2");
    assert_eq!(error.kind, ParseErrorKind::InvalidModifier);
    assert_eq!(error.part, "1+2");

    let error = fault("2d6-1-2");
    assert_eq!(error.kind, ParseErrorKind::InvalidModifier);
    assert_eq!(error.part, "1-2");

    let error = fault("2d6-1+2");
    assert_eq!(error.kind, ParseErrorKind::InvalidSides);
    assert_eq!(error.part, "6-1");

    let error = fault("2d+6");
    assert_eq!(error.kind, ParseErrorKind::InvalidSides);
    assert_eq!(error.part, "");
}

#[test]
fn signs_in_the_count_are_not_special() {
    assert_eq!(Dice::parse("+2d6"), Ok(dice(2, 6, 0)));
    assert_eq!(kind("-2d6"), ParseErrorKind::InvalidCount);
    assert_eq!(kind("+d6"), ParseErrorKind::InvalidCount);
    assert_eq!(kind("2+1d6"), ParseErrorKind::InvalidCount);
    assert_eq!(kind("+0d6"), ParseErrorKind::ZeroCount);
}

#[test]
fn numbers_must_fit() {
    assert_eq!(Dice::parse("255d255"), Ok(dice(255, 255, 0)));
    assert_eq!(Dice::parse("000255d0000000000000000000000255"), Ok(dice(255, 255, 0)));
    assert_eq!(kind("256d6"), ParseErrorKind::InvalidCount);
    assert_eq!(kind("99999999999999999999999999d6"), ParseErrorKind::InvalidCount);
    assert_eq!(kind("2d256"), ParseErrorKind::InvalidSides);
    assert_eq!(Dice::parse("2d6+2147483647"), Ok(dice(2, 6, i32::MAX)));
    assert_eq!(kind("2d6+2147483648"), ParseErrorKind::InvalidModifier);
    assert_eq!(Dice::parse("2d6-2147483647"), Ok(dice(2, 6, -i32::MAX)));
    assert_eq!(kind("2d6-2147483648"), ParseErrorKind::InvalidModifier);
    assert_eq!(Dice::parse("2d6+-2147483648"), Ok(dice(2, 6, i32::MIN)));
    assert_eq!(kind("2d6--2147483648"), ParseErrorKind::InvalidModifier);
    assert_eq!(kind("2d6+99999999999999999999999999"), ParseErrorKind::InvalidModifier);
    assert_eq!(Dice::parse("2d6+0000000000000000000000007"), Ok(dice(2, 6, 7)));
}

#[test]
fn only_ascii_digits_are_digits() {
    assert_eq!(kind("\u{ff12}d6"), ParseErrorKind::InvalidCount);
    assert_eq!(kind("2d\u{0666}"), ParseErrorKind::InvalidSides);
    assert_eq!(kind("2d6+\u{0663}"), ParseErrorKind::InvalidModifier);
    assert_eq!(kind("2d6 +1"), ParseErrorKind::InvalidSides);
    assert_eq!(kind("2 d6"), ParseErrorKind::InvalidCount);
    assert_eq!(kind("2_0d6"), ParseErrorKind::InvalidCount);
}

#[test]
fn messages_name_field_notation_and_piece() {
    assert_eq!(
        fault("2x6").message(),
        "Invalid dice specification '2x6': must be in format 'NdS' (e.g., '2d6')"
    );
    assert_eq!(fault("abc d6").message(), "Invalid count in 'abc d6': 'abc ' is not a valid number");
    assert_eq!(fault("0d6").message(), "Invalid count in '0d6': cannot use 0 dice");
    assert_eq!(fault("2d abc").message(), "Invalid sides in '2d abc': ' abc' is not a valid number");
    assert_eq!(fault("2d0").message(), "Invalid sides in '2d0': cannot use 0 sides");
    assert_eq!(
        fault("2d6+ abc").message(),
        "Invalid modifier in '2d6+ abc': ' abc' is not a valid number"
    );
}

#[test]
fn parse_all_reads_every_notation_in_order() {
    let notations = vec!["1d6".to_string(), " 2D8+1 ".to_string(), "3d4-2".to_string()];
    assert_eq!(
        Dice::parse_all(&notations),
        Ok(vec![dice(1, 6, 0), dice(2, 8, 1), dice(3, 4, -2)])
    );
    assert_eq!(Dice::parse_all(&Vec::new()), Ok(Vec::new()));
}

#[test]
fn parse_all_stops_at_the_first_fault() {
    let notations = vec!["1d6".to_string(), "2x6".to_string(), "0d6".to_string()];
    let error = Dice::parse_all(&notations).unwrap_err();
    assert_eq!(error.kind, ParseErrorKind::MalformedSpec);
    assert_eq!(error.input, "2x6");
    assert!(error.message().contains("2x6"));
}

#[test]
fn one_notation_is_read_and_rolled() {
    let dice = Dice::parse_all(&vec!["1d6".to_string()]).unwrap();
    assert_eq!(dice.len(), 1);
    let total = dice[0].roll();
    assert!(1 <= total && total <= 6);
}

#[test]
fn a_bad_notation_after_a_good_one_is_named() {
    let error = Dice::parse_all(&vec!["1d6".to_string(), "2x6".to_string()]).unwrap_err();
    assert_eq!(error.input, "2x6");
    assert_eq!(error.part, "2x6");
    assert!(error.message().contains("'2x6'"));
}
