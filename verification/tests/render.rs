use solo_ttrpg_helper::dice::{Dice, Die};

#[test]
fn die_renders_canonically() {
    assert_eq!(Die { sides: 8 }.render(), "d8");
    assert_eq!(Die { sides: 20 }.render(), "d20");
    assert_eq!(Die { sides: 0 }.render(), "d0");
}

#[test]
fn die_parses_canonical_form() {
    assert_eq!(Die::parse("d8").unwrap(), Die { sides: 8 });
    assert_eq!(Die::parse(" d20 ").unwrap(), Die { sides: 20 });
    assert!(Die::parse("8").is_err());
    assert!(Die::parse("dd6").is_err());
    assert!(Die::parse("d+5").is_err());
    assert!(Die::parse("d65536").is_err());
}

#[test]
fn dice_render_writes_counts_and_modifier() {
    let d = Dice::parse("d8 + 2d4 + -7").unwrap();
    assert_eq!(d.render(), "1d8 + 2d4 + -7");
    let plain = Dice::parse("d6").unwrap();
    assert_eq!(plain.render(), "1d6");
    let only = Dice::parse("9").unwrap();
    assert_eq!(only.render(), "9");
    let zero = Dice::parse("d6 + 0").unwrap();
    assert_eq!(zero.render(), "1d6 + 0");
}

#[test]
fn render_parses_back_to_the_same_structure() {
    for text in ["d8", "2d4", "d8 + 2d4 + -7", "9", "d6 + 0", "3 + d6 + 4", "0d6 + d0"] {
        let d = Dice::parse(text).unwrap();
        let again = Dice::parse(&d.render()).unwrap();
        assert_eq!(d, again);
        assert_eq!(again.render(), d.render());
    }
}

#[test]
fn sorted_construction_renders_in_falling_side_order() {
    let d = Dice::new(&[(4, 2), (8, 1), (4, 3)], None);
    assert_eq!(d.counts(), &[(8, 1), (4, 2), (4, 3)]);
    assert_eq!(d.render(), "1d8 + 2d4 + 3d4");
}

#[test]
fn die_error_carries_the_given_text() {
    match Die::parse("x8") {
        Err(e) => assert_eq!(e.message(), "Could not understand roll: x8"),
        Ok(_) => panic!("expected a parse failure"),
    }
    let spaced = Die::parse("\u{2028}d12\u{0085}").unwrap();
    assert_eq!(spaced, Die { sides: 12 });
}
