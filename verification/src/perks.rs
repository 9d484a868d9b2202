//! The perks of the share economy: their catalogue and the pure decisions
//! of the perk-shop interactions.

use vstd::prelude::*;

verus! {

/// One purchasable perk: a name and what it does.
pub struct Perk<'a> {
    name: &'a str,
    description: &'a str,
}

impl<'a> Perk<'a> {
    /// The perk's name, for contracts.
    pub closed spec fn name_spec(&self) -> Seq<char> {
        self.name@
    }

    /// The perk's description, for contracts.
    pub closed spec fn description_spec(&self) -> Seq<char> {
        self.description@
    }

    /// A perk with the given name and description.
    pub fn new(name: &'a str, description: &'a str) -> (p: Perk<'a>)
        ensures
            p.name_spec() == name@,
            p.description_spec() == description@,
    {
        Perk { name, description }
    }

    /// The perk's name.
    pub fn name(&self) -> (r: &'a str)
        ensures
            r@ == self.name_spec(),
    {
        self.name
    }

    /// The perk's description.
    pub fn description(&self) -> (r: &'a str)
        ensures
            r@ == self.description_spec(),
    {
        self.description
    }
}

/// The position of each perk in the catalogue, by name.
pub trait FromName {
    fn electric_love(&self) -> (r: usize)
        ensures
            r == 0,
    ;

    fn prism_cube(&self) -> (r: usize)
        ensures
            r == 1,
    ;

    fn spiral(&self) -> (r: usize)
        ensures
            r == 2,
    ;

    fn dance_robot_dance(&self) -> (r: usize)
        ensures
            r == 3,
    ;

    fn world_is_mine(&self) -> (r: usize)
        ensures
            r == 4,
    ;
}

impl FromName for [Perk<'_>] {
    fn electric_love(&self) -> (r: usize) {
        0
    }

    fn prism_cube(&self) -> (r: usize) {
        1
    }

    fn spiral(&self) -> (r: usize) {
        2
    }

    fn dance_robot_dance(&self) -> (r: usize) {
        3
    }

    fn world_is_mine(&self) -> (r: usize) {
        4
    }
}

/// How many perks the catalogue holds.
pub const PERK_COUNT: usize = 5;

/// The perk catalogue, in shop order.
pub fn perks() -> (r: Vec<Perk<'static>>)
    ensures
        r@.len() == PERK_COUNT,
        r@[0].name_spec() == "Electric Love"@,
        r@[1].name_spec() == "Prism Cube"@,
        r@[2].name_spec() == "Spiral"@,
        r@[3].name_spec() == "Dance Robot Dance"@,
        r@[4].name_spec() == "World is Mine"@,
{
    let mut r: Vec<Perk<'static>> = Vec::new();
    r.push(
        Perk::new("Electric Love", "Manual collection now gives (10 * 🏭generators) 🩸shares."),
    );
    r.push(Perk::new("Prism Cube", "🏭Generators are boosted by (log10 of 🩸shares)."));
    r.push(Perk::new("Spiral", "🏭Generators boost 🏭generators by 10% each."));
    r.push(Perk::new("Dance Robot Dance", "🏭Generators are 4x stronger."));
    r.push(Perk::new("World is Mine", "🏭Generators now cost (1.6 ^ 🏭generators) instead."));
    r
}

/// The perk shown left of the one at `index`, wrapping at the front.
pub fn previous_perk_index(index: usize) -> (r: usize)
    requires
        index < PERK_COUNT,
    ensures
        r == if index == 0 {
            (PERK_COUNT - 1) as int
        } else {
            index - 1
        },
{
    if index == 0 {
        PERK_COUNT - 1
    } else {
        index - 1
    }
}

/// The perk shown right of the one at `index`, wrapping at the end.
pub fn next_perk_index(index: usize) -> (r: usize)
    requires
        index < PERK_COUNT,
    ensures
        r == (index + 1) % (PERK_COUNT as int),
{
    (index + 1) % PERK_COUNT
}

/// Whether the buy button of the perk shop is disabled: the perk is already
/// owned, or no prestige point is there to spend.
pub fn buy_button_disabled(owned: bool, prestige_points: i32) -> (r: bool)
    ensures
        r == (owned || prestige_points < 1),
{
    owned || prestige_points < 1
}

/// The one decision of buying a perk: a perk costs one prestige point, so
/// the purchase goes through exactly when a point is there, leaving one
/// less.
pub fn perk_purchase(prestige_points: i32) -> (r: Option<i32>)
    ensures
        prestige_points > 0 ==> r == Some((prestige_points - 1) as i32),
        prestige_points <= 0 ==> r is None,
{
    if prestige_points > 0 {
        Some(prestige_points - 1)
    } else {
        None
    }
}

} // verus!
