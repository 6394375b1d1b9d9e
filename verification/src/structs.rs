//! Plain data shared by every part of the simulation: grid positions,
//! teams, unit types with their capability table, and tiles.

use vstd::prelude::*;

verus! {

/// One second of simulated time, in the microseconds all timers count.
pub const SECOND: u64 = 1_000_000;

/// An axial coordinate of one hexagonal cell.
#[derive(Clone, Copy, Debug, PartialEq, Eq, Hash, Structural)]
pub struct Hex {
    pub x: i32,
    pub y: i32,
}

/// The way from one hex to another, as a difference of coordinates.
#[derive(Clone, Copy, Debug, PartialEq, Eq, Hash, Structural)]
pub struct Offset {
    pub dx: i64,
    pub dy: i64,
}

/// The two sides.
#[derive(Clone, Copy, Debug, PartialEq, Eq, Hash, Structural)]
pub enum Team {
    Player,
    Computer,
}

/// The types of units.
#[derive(Clone, Copy, Debug, PartialEq, Eq, Hash, Structural)]
pub enum UnitType {
    Engineer,
    Infantry,
    Turret,
    Scout,
    Medic,
    Sniper,
}

/// How hard the opponent plays.
#[derive(Clone, Copy, Debug, PartialEq, Eq, Hash, Structural)]
pub enum Difficulty {
    Normal,
    Hard,
}

/// What stands on a hex. A hex without a tile is open ground.
#[derive(Clone, Copy, Debug, PartialEq, Eq, Hash, Structural)]
pub enum TileType {
    Control(Option<Team>),
    Mountain,
    Water,
    Wall,
}

/// A named entry of the renderer's palette. The simulation only chooses
/// which entry a tile is drawn with; the colour values live with the renderer.
#[derive(Clone, Copy, Debug, PartialEq, Eq, Hash, Structural)]
pub enum Paint {
    Wall,
    WallBorder,
    HillLow,
    HillLowBorder,
    HillMedium,
    HillMediumBorder,
    HillHigh,
    HillHighBorder,
    Water,
    WaterAlt1,
    WaterAlt2,
    WaterBorder,
    CaptureUnoccupied,
    CaptureUnoccupiedBorder,
    Player,
    PlayerBorder,
    Enemy,
    EnemyBorder,
}

/// A tile: what stands on a hex, and how it is drawn.
#[derive(Clone, Copy, Debug, PartialEq, Eq, Hash, Structural)]
pub struct Tile {
    pub kind: TileType,
    pub fill_color: Paint,
    pub border_color: Paint,
}

/// The team opposing `team`.
pub open spec fn opponent(team: Team) -> Team {
    match team {
        Team::Player => Team::Computer,
        Team::Computer => Team::Player,
    }
}

/// The team opposing `team`.
pub fn invert_team(team: &Team) -> (other: Team)
    ensures
        other == opponent(*team),
{
    if *team == Team::Player {
        Team::Computer
    } else {
        Team::Player
    }
}

/// The capability table: what a unit of each type starts with and can do.
impl UnitType {
    /// Health a fresh unit of this type has, which is also its ceiling.
    pub open spec fn spec_max_health(self) -> i16 {
        match self {
            UnitType::Infantry => 100,
            UnitType::Engineer => 120,
            UnitType::Turret => 50,
            UnitType::Scout => 75,
            UnitType::Medic => 90,
            UnitType::Sniper => 80,
        }
    }

    /// Health a fresh unit of this type has.
    #[verifier::when_used_as_spec(spec_max_health)]
    pub fn max_health(self) -> (health: i16)
        ensures
            health == self.spec_max_health(),
    {
        match self {
            UnitType::Infantry => 100,
            UnitType::Engineer => 120,
            UnitType::Turret => 50,
            UnitType::Scout => 75,
            UnitType::Medic => 90,
            UnitType::Sniper => 80,
        }
    }

    /// Time between two shots, in microseconds.
    pub open spec fn spec_cooldown(self) -> u64 {
        match self {
            UnitType::Infantry => 1_000_000,
            UnitType::Engineer => 1_200_000,
            UnitType::Scout => 900_000,
            UnitType::Turret => 900_000,
            UnitType::Medic => 1_500_000,
            UnitType::Sniper => 3_000_000,
        }
    }

    /// Time between two shots, in microseconds.
    #[verifier::when_used_as_spec(spec_cooldown)]
    pub fn cooldown(self) -> (time: u64)
        ensures
            time == self.spec_cooldown(),
    {
        match self {
            UnitType::Infantry => 1_000_000,
            UnitType::Engineer => 1_200_000,
            UnitType::Scout => 900_000,
            UnitType::Turret => 900_000,
            UnitType::Medic => 1_500_000,
            UnitType::Sniper => 3_000_000,
        }
    }

    /// Health one shot of this type takes from its target.
    pub open spec fn spec_damage(self) -> i16 {
        match self {
            UnitType::Infantry => 15,
            UnitType::Engineer => 10,
            UnitType::Scout => 12,
            UnitType::Medic => 8,
            UnitType::Turret => 8,
            UnitType::Sniper => 50,
        }
    }

    /// Health one shot of this type takes from its target.
    #[verifier::when_used_as_spec(spec_damage)]
    pub fn damage(self) -> (points: i16)
        ensures
            points == self.spec_damage(),
    {
        match self {
            UnitType::Infantry => 15,
            UnitType::Engineer => 10,
            UnitType::Scout => 12,
            UnitType::Medic => 8,
            UnitType::Turret => 8,
            UnitType::Sniper => 50,
        }
    }

    /// Time a walking unit of this type needs from one hex to the next, in
    /// microseconds. A scout is 1.2 times as fast as the others: it has
    /// arrived once 1.2 times the elapsed time reaches a tenth of a second,
    /// which in whole microseconds is at 83 334.
    pub open spec fn spec_pace(self) -> u32 {
        match self {
            UnitType::Scout => 83_334,
            _ => 100_000,
        }
    }

    /// Time a walking unit of this type needs from one hex to the next.
    #[verifier::when_used_as_spec(spec_pace)]
    pub fn pace(self) -> (time: u32)
        ensures
            time == self.spec_pace(),
    {
        match self {
            UnitType::Scout => 83_334,
            _ => 100_000,
        }
    }

    /// How far a shot of this type reaches: targets strictly nearer than
    /// this many steps can be hit. A sniper reaches twice as far.
    pub open spec fn spec_reach(self) -> u64 {
        match self {
            UnitType::Sniper => 30,
            _ => 15,
        }
    }

    /// How far a shot of this type reaches.
    #[verifier::when_used_as_spec(spec_reach)]
    pub fn reach(self) -> (steps: u64)
        ensures
            steps == self.spec_reach(),
    {
        match self {
            UnitType::Sniper => 30,
            _ => 15,
        }
    }
}

} // verus!
