use solo_ttrpg_helper::dice::{Dice, Die};

#[test]
fn single_die_total_in_range() {
    for sides in [1u16, 2, 6, 20, 100] {
        let d = Dice::parse(&format!("d{}", sides)).unwrap();
        let t = d.roll().total();
        assert!(1 <= t && t <= sides as i32);
    }
}

#[test]
fn coefficient_total_in_range() {
    let d = Dice::parse("7d6").unwrap();
    for _ in 0..20 {
        let t = d.roll().total();
        assert!(7 <= t && t <= 42);
    }
}

#[test]
fn multi_group_total_in_range() {
    let d = Dice::parse("3d6 + d4").unwrap();
    for _ in 0..20 {
        let t = d.roll().total();
        assert!(4 <= t && t <= 22);
    }
}

#[test]
fn modifier_shifts_the_total() {
    let d = Dice::parse("3d6 + d4 + -2").unwrap();
    for _ in 0..20 {
        let t = d.roll().total();
        assert!(2 <= t && t <= 20);
    }
}

#[test]
fn one_sided_dice_are_deterministic() {
    let d = Dice::parse("4d1 + 10").unwrap();
    let outcome = d.roll();
    assert_eq!(outcome.total(), 14);
    assert_eq!(outcome.render(), "(d1 -> 1) + (d1 -> 1) + (d1 -> 1) + (d1 -> 1) + (modifier -> 10) = 14");
}

#[test]
fn die_roll_stays_in_range() {
    let die = Die { sides: 6 };
    for _ in 0..50 {
        let v = die.roll();
        assert!(1 <= v && v <= 6);
    }
}

#[test]
fn rolls_follow_group_order() {
    let d = Dice::parse("2d8 + d4").unwrap();
    let outcome = d.roll();
    let rolls = outcome.rolls();
    assert_eq!(rolls.len(), 3);
    assert_eq!(rolls[0].0, Die { sides: 8 });
    assert_eq!(rolls[1].0, Die { sides: 8 });
    assert_eq!(rolls[2].0, Die { sides: 4 });
    for &(die, v) in rolls {
        assert!(1 <= v && v <= die.sides);
    }
    assert_eq!(outcome.modifier(), 0);
}

#[test]
fn modifier_only_outcome_has_no_dice() {
    let d = Dice::parse("9").unwrap();
    let outcome = d.roll();
    assert_eq!(outcome.rolls().len(), 0);
    assert_eq!(outcome.total(), 9);
    assert_eq!(outcome.render(), "(no dice) + (modifier -> 9) = 9");
}

#[test]
fn num_dice_counts_every_group() {
    assert_eq!(Dice::parse("2d4 + d6").unwrap().num_dice(), 3);
    assert_eq!(Dice::parse("9").unwrap().num_dice(), 0);
    assert_eq!(Dice::parse("0d6").unwrap().num_dice(), 0);
}
