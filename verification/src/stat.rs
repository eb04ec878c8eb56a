//! The player's stat vector: the names of its slots and the range that each
//! slot is held in.

use vstd::prelude::*;

verus! {

/// Largest value of a counter such as the score or a stock.
pub const COUNT_LIMIT: i32 = 1_000_000_000;

/// Largest tick the simulation runs to.
pub const TICK_LIMIT: i32 = 1_000_000_000;

/// Largest cooldown, fuse or other span of ticks.
pub const SPAN_LIMIT: i32 = 100_000_000;

/// Largest tick stamp: a tick plus one span.
pub const STAMP_LIMIT: i32 = 1_100_000_000;

/// Largest blast or pulse radius.
pub const RADIUS_LIMIT: i32 = 10_000;

/// Number of slots in the stat vector (not all are named).
pub const STAT_SLOTS: usize = 64;

/// The named slots of the player's stat vector.
#[derive(Clone, Copy, Debug, PartialEq, Eq, Structural)]
pub enum Stat {
    Score,
    ScoreAmmo,
    ScoreBomb,
    ScoreTurret,
    ScoreEmp,
    Food,
    Ammo,
    Bomb,
    Turret,
    Emp,
    MaxFood,
    MaxAmmo,
    MaxBomb,
    MaxTurret,
    MaxEmp,
    LastShot,
    CdShot,
    DmgAmmo,
    NotConsumeAmmo,
    PierceAmmo,
    ForkAmmo,
    LastBomb,
    CdBomb,
    RadBomb,
    DmgBomb,
    FuseTimeBomb,
    LastTurret,
    CdTurret,
    CdTurretShot,
    DmgTurret,
    DurTurret,
    LastEmp,
    CdEmp,
    RadEmp,
    DmgEmp,
    DurEmp,
    StunEmp,
    SlowEmp,
    LastMove,
    CdMove,
    Luck,
    Character,
}

impl Stat {
    /// Position of the slot in the stat vector.
    pub open spec fn slot(self) -> int {
        match self {
            Stat::Score => 0,
            Stat::ScoreAmmo => 1,
            Stat::ScoreBomb => 2,
            Stat::ScoreTurret => 3,
            Stat::ScoreEmp => 4,
            Stat::Food => 5,
            Stat::Ammo => 6,
            Stat::Bomb => 7,
            Stat::Turret => 8,
            Stat::Emp => 9,
            Stat::MaxFood => 10,
            Stat::MaxAmmo => 11,
            Stat::MaxBomb => 12,
            Stat::MaxTurret => 13,
            Stat::MaxEmp => 14,
            Stat::LastShot => 15,
            Stat::CdShot => 16,
            Stat::DmgAmmo => 17,
            Stat::NotConsumeAmmo => 18,
            Stat::PierceAmmo => 19,
            Stat::ForkAmmo => 20,
            Stat::LastBomb => 21,
            Stat::CdBomb => 22,
            Stat::RadBomb => 23,
            Stat::DmgBomb => 24,
            Stat::FuseTimeBomb => 25,
            Stat::LastTurret => 26,
            Stat::CdTurret => 27,
            Stat::CdTurretShot => 28,
            Stat::DmgTurret => 29,
            Stat::DurTurret => 30,
            Stat::LastEmp => 31,
            Stat::CdEmp => 32,
            Stat::RadEmp => 33,
            Stat::DmgEmp => 34,
            Stat::DurEmp => 35,
            Stat::StunEmp => 36,
            Stat::SlowEmp => 37,
            Stat::LastMove => 38,
            Stat::CdMove => 39,
            Stat::Luck => 40,
            Stat::Character => 41,
        }
    }

    /// Whether the slot holds the tick of a last use.
    pub open spec fn is_stamp(self) -> bool {
        self == Stat::LastShot || self == Stat::LastBomb || self == Stat::LastTurret
            || self == Stat::LastEmp || self == Stat::LastMove
    }

    /// Whether the slot holds a value that is later stored in one signed byte.
    pub open spec fn is_byte(self) -> bool {
        self == Stat::DmgAmmo || self == Stat::PierceAmmo || self == Stat::ForkAmmo
            || self == Stat::DmgBomb || self == Stat::DmgTurret || self == Stat::DmgEmp
    }

    /// Whether the slot counts something without a natural end: the score,
    /// the food and the stocks with their capacities.
    pub open spec fn is_count(self) -> bool {
        self == Stat::Score || self == Stat::Food || self == Stat::Ammo || self == Stat::Bomb
            || self == Stat::Turret || self == Stat::Emp || self == Stat::MaxFood || self
            == Stat::MaxAmmo || self == Stat::MaxBomb || self == Stat::MaxTurret || self
            == Stat::MaxEmp
    }

    /// Smallest value the slot may hold.
    pub open spec fn least(self) -> int {
        if self == Stat::Food {
            -COUNT_LIMIT
        } else if self.is_stamp() {
            -SPAN_LIMIT
        } else {
            0
        }
    }

    /// Largest value the slot may hold.
    pub open spec fn most(self) -> int {
        if self.is_count() {
            COUNT_LIMIT as int
        } else if self.is_stamp() {
            STAMP_LIMIT as int
        } else if self.is_byte() {
            127
        } else if self == Stat::RadBomb || self == Stat::RadEmp {
            RADIUS_LIMIT as int
        } else if self == Stat::StunEmp {
            1
        } else if self == Stat::Character {
            5
        } else {
            SPAN_LIMIT as int
        }
    }

    /// Position of the slot in the stat vector.
    pub fn index(self) -> (i: usize)
        ensures
            i == self.slot(),
            i < 42,
    {
        match self {
            Stat::Score => 0,
            Stat::ScoreAmmo => 1,
            Stat::ScoreBomb => 2,
            Stat::ScoreTurret => 3,
            Stat::ScoreEmp => 4,
            Stat::Food => 5,
            Stat::Ammo => 6,
            Stat::Bomb => 7,
            Stat::Turret => 8,
            Stat::Emp => 9,
            Stat::MaxFood => 10,
            Stat::MaxAmmo => 11,
            Stat::MaxBomb => 12,
            Stat::MaxTurret => 13,
            Stat::MaxEmp => 14,
            Stat::LastShot => 15,
            Stat::CdShot => 16,
            Stat::DmgAmmo => 17,
            Stat::NotConsumeAmmo => 18,
            Stat::PierceAmmo => 19,
            Stat::ForkAmmo => 20,
            Stat::LastBomb => 21,
            Stat::CdBomb => 22,
            Stat::RadBomb => 23,
            Stat::DmgBomb => 24,
            Stat::FuseTimeBomb => 25,
            Stat::LastTurret => 26,
            Stat::CdTurret => 27,
            Stat::CdTurretShot => 28,
            Stat::DmgTurret => 29,
            Stat::DurTurret => 30,
            Stat::LastEmp => 31,
            Stat::CdEmp => 32,
            Stat::RadEmp => 33,
            Stat::DmgEmp => 34,
            Stat::DurEmp => 35,
            Stat::StunEmp => 36,
            Stat::SlowEmp => 37,
            Stat::LastMove => 38,
            Stat::CdMove => 39,
            Stat::Luck => 40,
            Stat::Character => 41,
        }
    }

    /// Smallest value the slot may hold.
    pub fn lo(self) -> (v: i32)
        ensures
            v == self.least(),
    {
        match self {
            Stat::Food => -COUNT_LIMIT,
            Stat::LastShot | Stat::LastBomb | Stat::LastTurret | Stat::LastEmp | Stat::LastMove => {
                -SPAN_LIMIT
            },
            _ => 0,
        }
    }

    /// Largest value the slot may hold.
    pub fn hi(self) -> (v: i32)
        ensures
            v == self.most(),
    {
        match self {
            Stat::Score | Stat::Food | Stat::Ammo | Stat::Bomb | Stat::Turret | Stat::Emp
            | Stat::MaxFood | Stat::MaxAmmo | Stat::MaxBomb | Stat::MaxTurret | Stat::MaxEmp => {
                COUNT_LIMIT
            },
            Stat::LastShot | Stat::LastBomb | Stat::LastTurret | Stat::LastEmp | Stat::LastMove => {
                STAMP_LIMIT
            },
            Stat::DmgAmmo | Stat::PierceAmmo | Stat::ForkAmmo | Stat::DmgBomb | Stat::DmgTurret
            | Stat::DmgEmp => 127,
            Stat::RadBomb | Stat::RadEmp => RADIUS_LIMIT,
            Stat::StunEmp => 1,
            Stat::Character => 5,
            _ => SPAN_LIMIT,
        }
    }
}

/// Two different stats never share a slot.
pub proof fn lemma_slots_differ(a: Stat, b: Stat)
    ensures
        a.slot() == b.slot() <==> a == b,
        0 <= a.slot() < 42,
        a.least() <= a.most(),
{
}

} // verus!
