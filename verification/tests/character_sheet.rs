use castlemaker::character::Char;
use castlemaker::character::Size;

#[test]
fn size_modifiers_match_the_table() {
    assert_eq!(Size::Fine.modifier(), 8);
    assert_eq!(Size::Diminutive.modifier(), 4);
    assert_eq!(Size::Tiny.modifier(), 2);
    assert_eq!(Size::Small.modifier(), 1);
    assert_eq!(Size::Medium.modifier(), 0);
    assert_eq!(Size::Large.modifier(), -1);
    assert_eq!(Size::Huge.modifier(), -2);
    assert_eq!(Size::Gargantuan.modifier(), -4);
    assert_eq!(Size::Colossal.modifier(), -8);
}

#[test]
fn stock_character_armor_values() {
    let c = Char::new();
    // dexterity 12 gives a bonus of 1; medium size adds 0; natural armor 2
    assert_eq!(c.armor_class(), 13);
    assert_eq!(c.flat_footed(), 12);
    assert_eq!(c.touch(), 11);
    // strength 16 gives a damage bonus of 3
    assert_eq!(c.damage_bonus(), 3);
}

#[test]
fn saving_throws_with_fixed_rolls_are_exact() {
    let c = Char::new();
    // fortitude 4, constitution 18 -> bonus 4: 4 + 4 + roll + 1 + other
    assert_eq!(c.fortitude_with_roll(0, 0), 9);
    assert_eq!(c.fortitude_with_roll(19, 0), 28);
    assert_eq!(c.fortitude_with_roll(10, -3), 16);
    assert_eq!(c.fortitude_with_roll(0, -128), 0);
    // reflex 1, dexterity 12 -> bonus 1
    assert_eq!(c.reflex_with_roll(5, 0), 8);
    // will 4, wisdom 10 -> bonus 0
    assert_eq!(c.will_with_roll(5, 2), 12);
}

#[test]
fn rolled_saving_throws_stay_in_range() {
    let c = Char::new();
    for _ in 0..50 {
        let f = c.saving_throw_fortitude(0);
        assert!((9..=28).contains(&f));
        let r = c.saving_throw_reflex(0);
        assert!((3..=22).contains(&r));
        let w = c.saving_throw_will(0);
        assert!((5..=24).contains(&w));
    }
}

#[test]
fn damage_from_fixed_rolls_is_exact() {
    let c = Char::new();
    // two dice showing 1 and 6, plus the strength bonus of 3
    assert_eq!(c.damage_from_rolls(&vec![1, 6]), 10);
    assert_eq!(c.damage_from_rolls(&vec![1, 1]), 5);
    assert_eq!(c.damage_from_rolls(&vec![6, 6]), 15);
}

#[test]
fn rolled_damage_stays_in_range() {
    let c = Char::new();
    for _ in 0..50 {
        let d = c.damage();
        assert!((5..=15).contains(&d));
    }
}
