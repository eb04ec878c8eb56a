//! What the player did during one run: kills, and uses of each weapon.

use crate::stat::COUNT_LIMIT;
use crate::util::clamp;
use vstd::prelude::*;

verus! {

/// The four weapon systems.
#[derive(Clone, Copy, Debug, PartialEq, Eq, Structural)]
pub enum Weapon {
    Ammo,
    Bomb,
    Turret,
    Emp,
}

impl Weapon {
    /// Position of the weapon in the usage counts.
    pub open spec fn slot(self) -> int {
        match self {
            Weapon::Ammo => 0,
            Weapon::Bomb => 1,
            Weapon::Turret => 2,
            Weapon::Emp => 3,
        }
    }
}

/// Kill count and per-weapon usage counts of one run.
#[derive(Clone, Copy, Debug)]
pub struct Progress {
    pub killed: i32,
    pub used: [i32; 4],
}

impl Progress {
    /// Every count lies in `0..=COUNT_LIMIT`.
    pub open spec fn wf(&self) -> bool {
        &&& 0 <= self.killed <= COUNT_LIMIT
        &&& forall|i: int| 0 <= i < 4 ==> 0 <= #[trigger] self.used@[i] <= COUNT_LIMIT
    }

    /// A record with nothing killed and nothing used.
    pub fn new() -> (p: Progress)
        ensures
            p.killed == 0,
            p.used@ == seq![0i32, 0i32, 0i32, 0i32],
            p.wf(),
    {
        let p = Progress { killed: 0, used: [0, 0, 0, 0] };
        assert(p.used@ =~= seq![0i32, 0i32, 0i32, 0i32]);
        p
    }

    /// Counts one use of `weapon`; the count stops at `COUNT_LIMIT`.
    pub fn record_use(&mut self, weapon: Weapon)
        requires
            old(self).wf(),
        ensures
            final(self).wf(),
            final(self).killed == old(self).killed,
            final(self).used@ == old(self).used@.update(
                weapon.slot(),
                clamp(old(self).used@[weapon.slot()] + 1, 0, COUNT_LIMIT as int) as i32,
            ),
    {
        let u = self.used;
        let bump = |v: i32| -> (r: i32)
            requires 0 <= v <= COUNT_LIMIT,
            ensures r == clamp(v + 1, 0, COUNT_LIMIT as int),
            { if v < COUNT_LIMIT { v + 1 } else { v } };
        let next: [i32; 4] = match weapon {
            Weapon::Ammo => [bump(u[0]), u[1], u[2], u[3]],
            Weapon::Bomb => [u[0], bump(u[1]), u[2], u[3]],
            Weapon::Turret => [u[0], u[1], bump(u[2]), u[3]],
            Weapon::Emp => [u[0], u[1], u[2], bump(u[3])],
        };
        assert(next@ =~= u@.update(
            weapon.slot(),
            clamp(u@[weapon.slot()] + 1, 0, COUNT_LIMIT as int) as i32,
        ));
        self.used = next;
    }

    /// Counts one kill; the count stops at `COUNT_LIMIT`.
    pub fn record_kill(&mut self)
        requires
            old(self).wf(),
        ensures
            final(self).wf(),
            final(self).used == old(self).used,
            final(self).killed == clamp(old(self).killed + 1, 0, COUNT_LIMIT as int),
    {
        if self.killed < COUNT_LIMIT {
            self.killed = self.killed + 1;
        }
    }
}

} // verus!
