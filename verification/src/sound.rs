//! Sound cues. The simulation only names the cues it wants played; playing
//! them is left to the caller.

use vstd::prelude::*;

verus! {

/// Every sound the game knows, in the order of the sound bank.
#[derive(Clone, Copy, Debug, PartialEq, Eq, Structural)]
pub enum Sound {
    Intro,
    Ambient,
    UiSwitch,
    LowFood,
    UseAmmo,
    UseBomb,
    UseTurret,
    UseEmp,
    PickChest,
    BombExplosion,
    BombTick,
    TurretShoot,
    ZombieHit,
    ZombieDeath,
    BossAppear,
    Upgrade,
    Defeat,
    Walking,
    Running,
}

/// A request to play `sound`.
///
/// The volume is `level / 100` when `near` is zero, and otherwise
/// `level / 100 * near / (near + dist * dist)`: the cue fades with the
/// Manhattan distance `dist` between listener and source.
#[derive(Clone, Copy, Debug, PartialEq, Eq, Structural)]
pub struct Cue {
    pub sound: Sound,
    pub level: i32,
    pub near: i32,
    pub dist: i32,
}

impl Cue {
    /// A cue played at a fixed volume of `level` percent.
    pub open spec fn flat(sound: Sound, level: int) -> Cue {
        Cue { sound, level: level as i32, near: 0, dist: 0 }
    }

    /// A cue of `level` percent that fades with the distance `dist`.
    pub open spec fn faded(sound: Sound, level: int, near: int, dist: int) -> Cue {
        Cue { sound, level: level as i32, near: near as i32, dist: dist as i32 }
    }
}

} // verus!
