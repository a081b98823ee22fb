use solo_ttrpg_helper::dice::{Dice, DiceError};

#[test]
fn test_parse_plain_die() {
    let d = Dice::parse("d8").unwrap();
    assert_eq!(d, Dice::new(&[(8, 1)], None));
}

#[test]
fn test_parse_multi_die() {
    let d = Dice::parse("d8 + d4").unwrap();
    assert_eq!(d, Dice::new(&[(8, 1), (4, 1)], None));
}

#[test]
fn test_parse_with_coeff() {
    let d = Dice::parse("2d4").unwrap();
    assert_eq!(d, Dice::new(&[(4, 2)], None));
}

#[test]
fn test_parse_multi_die_with_coeff() {
    let d = Dice::parse("d8 + 2d4").unwrap();
    assert_eq!(d, Dice::new(&[(8, 1), (4, 2)], None));
}

#[test]
fn test_parse_multi_die_with_modifier() {
    let d = Dice::parse("d8 + 2d4 + -7").unwrap();
    assert_eq!(d, Dice::new(&[(8, 1), (4, 2)], Some(-7)));
}

#[test]
fn test_parse_multi_die_with_modifiers() {
    let d = Dice::parse("d8 + 3 + 2d4 + -7").unwrap();
    assert_eq!(d, Dice::new(&[(8, 1), (4, 2)], Some(-4)));
}

#[test]
fn test_modifier_only() {
    let d = Dice::parse("9").unwrap();
    assert_eq!(d, Dice::new(&[], Some(9)));
}

#[test]
fn parse_keeps_group_encounter_order() {
    let d = Dice::parse("d4 + d8 + d4").unwrap();
    assert_eq!(d.counts(), &[(4, 1), (8, 1), (4, 1)]);
    assert_eq!(d.modifier(), None);
}

#[test]
fn parse_does_not_merge_equal_sides() {
    let d = Dice::parse("d6 + d6").unwrap();
    assert_eq!(d.counts(), &[(6, 1), (6, 1)]);
}

#[test]
fn parse_explicit_zero_modifier_is_kept() {
    let d = Dice::parse("d6 + 0").unwrap();
    assert_eq!(d.modifier(), Some(0));
    let bare = Dice::parse("d6").unwrap();
    assert_eq!(bare.modifier(), None);
}

#[test]
fn parse_zero_sides_is_accepted() {
    let d = Dice::parse("d0").unwrap();
    assert_eq!(d.counts(), &[(0, 1)]);
}

#[test]
fn parse_accepts_surrounding_whitespace() {
    let d = Dice::parse("  2d4  ").unwrap();
    assert_eq!(d, Dice::new(&[(4, 2)], None));
}

#[test]
fn parse_rejects_double_d() {
    assert!(matches!(Dice::parse("3dd"), Err(DiceError::Unparseable(_))));
}

#[test]
fn parse_rejects_empty_and_bad_segments() {
    assert!(Dice::parse("").is_err());
    assert!(Dice::parse("d").is_err());
    assert!(Dice::parse("+").is_err());
    assert!(Dice::parse("2d6 + ").is_err());
    assert!(Dice::parse("x7").is_err());
    assert!(Dice::parse("- 7").is_err());
    assert!(Dice::parse("2 d6").is_err());
}

#[test]
fn parse_rejects_signed_counts_and_sides() {
    assert!(Dice::parse("+2d6").is_err());
    assert!(Dice::parse("d+6").is_err());
    assert!(Dice::parse("-2d6").is_err());
}

#[test]
fn parse_modifier_at_i32_bounds() {
    let low = Dice::parse("-2147483648").unwrap();
    assert_eq!(low.modifier(), Some(i32::MIN));
    let high = Dice::parse("2147483647").unwrap();
    assert_eq!(high.modifier(), Some(i32::MAX));
    assert!(Dice::parse("2147483648").is_err());
    assert!(Dice::parse("-2147483649").is_err());
}

#[test]
fn parse_rejects_modifier_sum_outside_i32() {
    assert!(Dice::parse("2000000000 + 2000000000").is_err());
    let ok = Dice::parse("2000000000 + -2000000000").unwrap();
    assert_eq!(ok.modifier(), Some(0));
}

#[test]
fn error_message_names_the_offending_text() {
    match Dice::parse("3dd") {
        Err(e) => assert_eq!(e.message(), "Could not understand roll: 3dd"),
        Ok(_) => panic!("expected a parse failure"),
    }
}

#[test]
fn parse_trims_unicode_whitespace() {
    let d = Dice::parse("\u{00A0}2d4\u{3000}").unwrap();
    assert_eq!(d, Dice::new(&[(4, 2)], None));
    let two = Dice::parse("2d6\u{2009} + \u{1680}3").unwrap();
    assert_eq!(two, Dice::new(&[(6, 2)], Some(3)));
}

#[test]
fn error_carries_first_bad_segment() {
    match Dice::parse("2d6 + x + 3dd") {
        Err(e) => assert_eq!(e.message(), "Could not understand roll: x"),
        Ok(_) => panic!("expected a parse failure"),
    }
}

#[test]
fn modifier_sum_error_carries_whole_text() {
    match Dice::parse("2000000000 + 2000000000") {
        Err(e) => assert_eq!(
            e.message(),
            "Could not understand roll: 2000000000 + 2000000000"
        ),
        Ok(_) => panic!("expected a parse failure"),
    }
}
