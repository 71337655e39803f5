//! The character-sheet subsystem: ability scores, armor values, saving
//! throws and damage rolls. It is consumed as an opaque numeric
//! computation; nothing on the movement or session path depends on it.

use vstd::prelude::*;

verus! {

/// How many dice a damage roll throws, and how many sides each die has.
#[derive(Clone, Copy, Debug, PartialEq, Eq)]
pub struct DamageRoll(u8, u8);

/// A creature's size category.
#[derive(Clone, Copy, Debug, PartialEq, Eq)]
pub enum Size {
    Fine,
    Diminutive,
    Tiny,
    Small,
    Medium,
    Large,
    Huge,
    Gargantuan,
    Colossal,
}

/// The armor modifier of a size category: the smaller, the higher.
pub open spec fn size_modifier(s: Size) -> i8 {
    match s {
        Size::Fine => 8i8,
        Size::Diminutive => 4i8,
        Size::Tiny => 2i8,
        Size::Small => 1i8,
        Size::Medium => 0i8,
        Size::Large => -1i8,
        Size::Huge => -2i8,
        Size::Gargantuan => -4i8,
        Size::Colossal => -8i8,
    }
}

impl Size {
    /// The armor modifier of this size category.
    pub fn modifier(&self) -> (r: i8)
        ensures
            r == size_modifier(*self),
    {
        match self {
            Size::Fine => 8,
            Size::Diminutive => 4,
            Size::Tiny => 2,
            Size::Small => 1,
            Size::Medium => 0,
            Size::Large => -1,
            Size::Huge => -2,
            Size::Gargantuan => -4,
            Size::Colossal => -8,
        }
    }
}

/// The six ability scores.
#[derive(Clone, Copy, Debug, PartialEq, Eq)]
pub struct Attributes {
    strength: u8,
    dexterity: u8,
    constitution: u8,
    intelligence: u8,
    wisdom: u8,
    charisma: u8,
}

/// The three base saving throws.
#[derive(Clone, Copy, Debug, PartialEq, Eq)]
pub struct SavingThrows {
    fortitude: u8,
    reflex: u8,
    will: u8,
}

/// A character sheet as a mathematical value.
pub struct CharModel {
    pub strength: u8,
    pub dexterity: u8,
    pub constitution: u8,
    pub intelligence: u8,
    pub wisdom: u8,
    pub charisma: u8,
    pub level: u8,
    pub experience: u16,
    pub attack: u8,
    pub dice_count: u8,
    pub dice_sides: u8,
    pub size: Size,
    pub natural_armor: u8,
    pub fortitude: u8,
    pub reflex: u8,
    pub will: u8,
}

/// The bounds every sheet this module builds satisfies; they keep every
/// derived value inside its machine type.
pub open spec fn char_model_wf(c: CharModel) -> bool {
    &&& c.strength <= 30
    &&& c.dexterity <= 30
    &&& c.constitution <= 30
    &&& c.intelligence <= 30
    &&& c.wisdom <= 30
    &&& c.charisma <= 30
    &&& c.natural_armor <= 10
    &&& c.fortitude <= 20
    &&& c.reflex <= 20
    &&& c.will <= 20
    &&& c.dice_count <= 10
    &&& 1 <= c.dice_sides <= 20
}

/// The bonus an ability score grants: half the score less five, never
/// below zero.
pub open spec fn ability_bonus(score: u8) -> int {
    if score / 2 >= 5 {
        score / 2 - 5
    } else {
        0
    }
}

/// An armor value: ten plus the given modifiers, and never below one.
pub open spec fn armor_value(parts: int) -> int {
    if 10 + parts < 1 {
        1
    } else {
        10 + parts
    }
}

/// A saving throw: base plus ability bonus plus the rolled die (one to
/// twenty) plus the situation modifier, and never below zero.
pub open spec fn saving_throw_value(base: u8, bonus: int, roll: u8, other: i8) -> int {
    let t = base + bonus + roll + 1 + other;
    if t < 0 {
        0
    } else {
        t
    }
}

/// The pips of a run of damage dice, added up.
pub open spec fn roll_sum(rolls: Seq<u8>) -> int
    decreases rolls.len(),
{
    if rolls.len() == 0 {
        0
    } else {
        rolls[0] + roll_sum(rolls.drop_first())
    }
}

/// One more die adds its pips.
pub proof fn lemma_roll_sum_push(rolls: Seq<u8>, x: u8)
    ensures
        roll_sum(rolls.push(x)) == roll_sum(rolls) + x,
    decreases rolls.len(),
{
    if rolls.len() == 0 {
        assert(rolls.push(x)[0] == x);
        assert(rolls.push(x).drop_first() =~= Seq::<u8>::empty());
        assert(roll_sum(Seq::<u8>::empty()) == 0);
    } else {
        assert(rolls.push(x)[0] == rolls[0]);
        assert(rolls.push(x).drop_first() =~= rolls.drop_first().push(x));
        lemma_roll_sum_push(rolls.drop_first(), x);
    }
}

/// Whether a run of dice results can come from this sheet's damage
/// roll: one result per die, each between one and the die's sides.
pub open spec fn rolls_valid(c: CharModel, rolls: Seq<u8>) -> bool {
    &&& rolls.len() == c.dice_count
    &&& forall|i: int| 0 <= i < rolls.len() ==> 1 <= #[trigger] rolls[i] <= c.dice_sides
}

/// A damage total: the pips plus the strength bonus, and never below
/// one.
pub open spec fn damage_value(c: CharModel, rolls: Seq<u8>) -> int {
    let t = roll_sum(rolls) + ability_bonus(c.strength);
    if t < 1 {
        1
    } else {
        t
    }
}

/// Relies on rand::random_range over a half-open, nonempty range of
/// bytes: the result lies in the range. Which value comes back is
/// chance; nothing further is assumed of it.
#[verifier::external_body]
fn random_in(low: u8, high: u8) -> (r: u8)
    requires
        low < high,
    ensures
        low <= r < high,
{
    rand::random_range(low..high)
}

/// A playable character: abilities, progress, and combat numbers.
#[derive(Clone, Copy, Debug, PartialEq, Eq)]
pub struct Char {
    attributes: Attributes,
    level: u8,
    experience_actual: u16,
    attack: u8,
    damage_roll: DamageRoll,
    size: Size,
    natural_armor: u8,
    base_saving_throws: SavingThrows,
}

impl Char {
    /// The sheet as a mathematical value.
    pub closed spec fn model(&self) -> CharModel {
        CharModel {
            strength: self.attributes.strength,
            dexterity: self.attributes.dexterity,
            constitution: self.attributes.constitution,
            intelligence: self.attributes.intelligence,
            wisdom: self.attributes.wisdom,
            charisma: self.attributes.charisma,
            level: self.level,
            experience: self.experience_actual,
            attack: self.attack,
            dice_count: self.damage_roll.0,
            dice_sides: self.damage_roll.1,
            size: self.size,
            natural_armor: self.natural_armor,
            fortitude: self.base_saving_throws.fortitude,
            reflex: self.base_saving_throws.reflex,
            will: self.base_saving_throws.will,
        }
    }

    /// The sheet's values stay inside the bounds of `char_model_wf`.
    pub open spec fn wf(&self) -> bool {
        char_model_wf(self.model())
    }

    /// The one stock character: a level-four fighter with fixed scores,
    /// two six-sided damage dice, and natural armor of two.
    pub fn new() -> (r: Self)
        ensures
            r.wf(),
            r.model() == (CharModel {
                strength: 16,
                dexterity: 12,
                constitution: 18,
                intelligence: 14,
                wisdom: 10,
                charisma: 21,
                level: 4,
                experience: 1000,
                attack: 4,
                dice_count: 2,
                dice_sides: 6,
                size: Size::Medium,
                natural_armor: 2,
                fortitude: 4,
                reflex: 1,
                will: 4,
            }),
    {
        Char {
            attributes: Attributes {
                strength: 16,
                dexterity: 12,
                constitution: 18,
                intelligence: 14,
                wisdom: 10,
                charisma: 21,
            },
            level: 4,
            experience_actual: 1000,
            attack: 4,
            damage_roll: DamageRoll(2, 6),
            size: Size::Medium,
            natural_armor: 2,
            base_saving_throws: SavingThrows { fortitude: 4, reflex: 1, will: 4 },
        }
    }

    /// The melee damage bonus: the strength bonus.
    pub fn damage_bonus(&self) -> (r: i8)
        requires
            self.wf(),
        ensures
            r as int == ability_bonus(self.model().strength),
    {
        let b = self.attributes.strength / 2;
        let b = if b >= 5 {
            b - 5
        } else {
            0
        };
        b as i8
    }

    /// Full armor class: dexterity, size and natural armor together.
    pub fn armor_class(&self) -> (r: u8)
        requires
            self.wf(),
        ensures
            r as int == armor_value(
                ability_bonus(self.model().dexterity) + size_modifier(self.model().size)
                    + self.model().natural_armor,
            ),
    {
        let dex = self.attributes.dexterity / 2;
        let dex: i32 = if dex >= 5 {
            (dex - 5) as i32
        } else {
            0
        };
        let t: i32 = 10 + dex + (self.size.modifier() as i32) + (self.natural_armor as i32);
        let t = if t < 1 {
            1i32
        } else {
            t
        };
        t as u8
    }

    /// Armor class caught flat-footed: no dexterity bonus.
    pub fn flat_footed(&self) -> (r: u8)
        requires
            self.wf(),
        ensures
            r as int == armor_value(
                size_modifier(self.model().size) + self.model().natural_armor as int,
            ),
    {
        let t: i32 = 10 + (self.size.modifier() as i32) + (self.natural_armor as i32);
        let t = if t < 1 {
            1i32
        } else {
            t
        };
        t as u8
    }

    /// Armor class against a touch: no natural armor.
    pub fn touch(&self) -> (r: u8)
        requires
            self.wf(),
        ensures
            r as int == armor_value(
                ability_bonus(self.model().dexterity) + size_modifier(self.model().size),
            ),
    {
        let dex = self.attributes.dexterity / 2;
        let dex: i32 = if dex >= 5 {
            (dex - 5) as i32
        } else {
            0
        };
        let t: i32 = 10 + dex + (self.size.modifier() as i32);
        let t = if t < 1 {
            1i32
        } else {
            t
        };
        t as u8
    }

    /// A fortitude saving throw with the given rolled die.
    pub fn fortitude_with_roll(&self, roll: u8, other: i8) -> (r: u8)
        requires
            self.wf(),
            roll < 20,
        ensures
            r as int == saving_throw_value(
                self.model().fortitude,
                ability_bonus(self.model().constitution),
                roll,
                other,
            ),
    {
        let b = self.attributes.constitution / 2;
        let b: i32 = if b >= 5 {
            (b - 5) as i32
        } else {
            0
        };
        let t: i32 = (self.base_saving_throws.fortitude as i32) + b + (roll as i32) + 1 + (
        other as i32);
        let t = if t < 0 {
            0i32
        } else {
            t
        };
        t as u8
    }

    /// A reflex saving throw with the given rolled die.
    pub fn reflex_with_roll(&self, roll: u8, other: i8) -> (r: u8)
        requires
            self.wf(),
            roll < 20,
        ensures
            r as int == saving_throw_value(
                self.model().reflex,
                ability_bonus(self.model().dexterity),
                roll,
                other,
            ),
    {
        let b = self.attributes.dexterity / 2;
        let b: i32 = if b >= 5 {
            (b - 5) as i32
        } else {
            0
        };
        let t: i32 = (self.base_saving_throws.reflex as i32) + b + (roll as i32) + 1 + (
        other as i32);
        let t = if t < 0 {
            0i32
        } else {
            t
        };
        t as u8
    }

    /// A will saving throw with the given rolled die.
    pub fn will_with_roll(&self, roll: u8, other: i8) -> (r: u8)
        requires
            self.wf(),
            roll < 20,
        ensures
            r as int == saving_throw_value(
                self.model().will,
                ability_bonus(self.model().wisdom),
                roll,
                other,
            ),
    {
        let b = self.attributes.wisdom / 2;
        let b: i32 = if b >= 5 {
            (b - 5) as i32
        } else {
            0
        };
        let t: i32 = (self.base_saving_throws.will as i32) + b + (roll as i32) + 1 + (
        other as i32);
        let t = if t < 0 {
            0i32
        } else {
            t
        };
        t as u8
    }

    /// A fortitude saving throw with a fresh twenty-sided die.
    pub fn saving_throw_fortitude(&self, other: i8) -> (r: u8)
        requires
            self.wf(),
        ensures
            exists|roll: u8|
                roll < 20 && r as int == saving_throw_value(
                    self.model().fortitude,
                    ability_bonus(self.model().constitution),
                    roll,
                    other,
                ),
    {
        let roll = random_in(0, 20);
        let v = self.fortitude_with_roll(roll, other);
        proof {
            assert(roll < 20 && v as int == saving_throw_value(
                self.model().fortitude,
                ability_bonus(self.model().constitution),
                roll,
                other,
            ));
        }
        v
    }

    /// A reflex saving throw with a fresh twenty-sided die.
    pub fn saving_throw_reflex(&self, other: i8) -> (r: u8)
        requires
            self.wf(),
        ensures
            exists|roll: u8|
                roll < 20 && r as int == saving_throw_value(
                    self.model().reflex,
                    ability_bonus(self.model().dexterity),
                    roll,
                    other,
                ),
    {
        let roll = random_in(0, 20);
        let v = self.reflex_with_roll(roll, other);
        proof {
            assert(roll < 20 && v as int == saving_throw_value(
                self.model().reflex,
                ability_bonus(self.model().dexterity),
                roll,
                other,
            ));
        }
        v
    }

    /// A will saving throw with a fresh twenty-sided die.
    pub fn saving_throw_will(&self, other: i8) -> (r: u8)
        requires
            self.wf(),
        ensures
            exists|roll: u8|
                roll < 20 && r as int == saving_throw_value(
                    self.model().will,
                    ability_bonus(self.model().wisdom),
                    roll,
                    other,
                ),
    {
        let roll = random_in(0, 20);
        let v = self.will_with_roll(roll, other);
        proof {
            assert(roll < 20 && v as int == saving_throw_value(
                self.model().will,
                ability_bonus(self.model().wisdom),
                roll,
                other,
            ));
        }
        v
    }

    /// The damage dealt by the given dice results.
    pub fn damage_from_rolls(&self, rolls: &Vec<u8>) -> (r: u8)
        requires
            self.wf(),
            rolls_valid(self.model(), rolls@),
        ensures
            r as int == damage_value(self.model(), rolls@),
    {
        let mut acc: u32 = 0;
        let n = rolls.len();
        let mut i: usize = 0;
        while i < n
            invariant
                self.wf(),
                rolls_valid(self.model(), rolls@),
                n == rolls@.len(),
                i <= n,
                acc as int == roll_sum(rolls@.subrange(0, i as int)),
                acc <= 20 * i,
            decreases n - i,
        {
            proof {
                lemma_roll_sum_push(rolls@.subrange(0, i as int), rolls@[i as int]);
                assert(rolls@.subrange(0, i as int).push(rolls@[i as int]) =~= rolls@.subrange(
                    0,
                    i + 1 as int,
                ));
            }
            acc = acc + (rolls[i] as u32);
            i = i + 1;
        }
        proof {
            assert(rolls@.subrange(0, n as int) =~= rolls@);
        }
        let b = self.attributes.strength / 2;
        let b: u32 = if b >= 5 {
            (b - 5) as u32
        } else {
            0
        };
        let t: u32 = acc + b;
        let t = if t < 1 {
            1u32
        } else {
            t
        };
        t as u8
    }

    /// Rolls this sheet's damage dice and adds the strength bonus. The
    /// dice are chance; the total is the dealt damage of some valid run
    /// of them, and never below one.
    pub fn damage(&self) -> (r: u8)
        requires
            self.wf(),
        ensures
            r >= 1,
            exists|rolls: Seq<u8>|
                rolls_valid(self.model(), rolls) && r as int == damage_value(self.model(), rolls),
    {
        let mut rolls: Vec<u8> = Vec::new();
        let count = self.damage_roll.0;
        let sides = self.damage_roll.1;
        let mut i: u8 = 0;
        while i < count
            invariant
                self.wf(),
                count == self.model().dice_count,
                sides == self.model().dice_sides,
                i <= count,
                rolls@.len() == i,
                forall|k: int| 0 <= k < i ==> 1 <= #[trigger] rolls@[k] <= sides,
            decreases count - i,
        {
            let d = random_in(0, sides);
            rolls.push(d + 1);
            i = i + 1;
        }
        let v = self.damage_from_rolls(&rolls);
        proof {
            assert(rolls_valid(self.model(), rolls@) && v as int == damage_value(
                self.model(),
                rolls@,
            ));
        }
        v
    }
}

/// The attribute a skill or ability keys on.
#[derive(Clone, Debug, PartialEq, Eq, Hash)]
pub enum Attribute {
    Strength,
    Dexterity,
    Constitution,
    Intelligence,
    Wisdom,
    Charisma,
}

/// A named ability: its key attribute and its usage flags.
#[derive(Clone, Debug, PartialEq, Eq, Hash)]
pub struct Ability {
    name: String,
    key_attribute: Attribute,
    untrained: bool,
    armor_check_penalty: bool,
}

/// A learnable skill: a name and the attributes it draws on.
#[derive(Clone, Debug)]
pub struct Skill {
    name: String,
    properties: Vec<Attribute>,
}

/// A character class: its name, hit die and class skills.
#[derive(Clone, Debug)]
pub struct Class {
    name: String,
    hit_die: u8,
    skills: Vec<Skill>,
}

} // verus!
