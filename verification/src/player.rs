//! The player: position, stats, progress and the flags of the run.

use crate::progress::Progress;
use crate::stat::{lemma_slots_differ, Stat, COUNT_LIMIT, STAT_SLOTS};
use crate::upgrading::{Upgrading, UPGRADE_COUNT};
use crate::util::{bounded_add, clamp};
use vstd::prelude::*;

verus! {

/// The playable characters.
#[derive(Clone, Copy, Debug, PartialEq, Eq, Structural)]
pub enum Character {
    Joshua,
    Anne,
    Andrew,
    Matthew,
    Megan,
    LiShen,
}

/// The player.
#[derive(Debug)]
pub struct Player {
    pub x: i32,
    pub y: i32,
    pub stats: Vec<i32>,
    pub progress: Progress,
    pub running: bool,
    pub dead: bool,
    pub paused: bool,
    pub upgrading: Option<Upgrading>,
    pub upgrades: Vec<i32>,
}

impl Character {
    /// The number stored for the character in the stat vector.
    pub open spec fn id(self) -> int {
        match self {
            Character::Joshua => 0,
            Character::Anne => 1,
            Character::Andrew => 2,
            Character::Matthew => 3,
            Character::Megan => 4,
            Character::LiShen => 5,
        }
    }

    /// The number stored for the character in the stat vector.
    pub fn number(self) -> (n: i32)
        ensures
            n == self.id(),
    {
        match self {
            Character::Joshua => 0,
            Character::Anne => 1,
            Character::Andrew => 2,
            Character::Matthew => 3,
            Character::Megan => 4,
            Character::LiShen => 5,
        }
    }
}


/// The value that the stat `s` has at the start of a run with the character
/// `ch`: the common starting value, changed by the character's perks.
pub open spec fn starting(ch: Character, s: Stat) -> int {
    match s {
        Stat::Score => 0,
        Stat::ScoreAmmo | Stat::ScoreBomb | Stat::ScoreTurret | Stat::ScoreEmp => 3,
        Stat::Food | Stat::MaxFood => if ch == Character::LiShen {
            1_500_000
        } else {
            1_000_000
        },
        Stat::Ammo | Stat::MaxAmmo => if ch == Character::Anne {
            1
        } else {
            10
        },
        Stat::Bomb | Stat::MaxBomb => if ch == Character::Anne {
            6
        } else {
            3
        },
        Stat::Turret | Stat::MaxTurret => 3,
        Stat::Emp | Stat::MaxEmp => 3,
        Stat::LastShot | Stat::LastBomb | Stat::LastTurret | Stat::LastEmp | Stat::LastMove => 0,
        Stat::CdShot => 10,
        Stat::DmgAmmo => if ch == Character::Andrew {
            2
        } else {
            1
        },
        Stat::NotConsumeAmmo => if ch == Character::Andrew {
            20
        } else {
            0
        },
        Stat::PierceAmmo | Stat::ForkAmmo => 0,
        Stat::CdBomb => 60,
        Stat::RadBomb => if ch == Character::Anne {
            6
        } else {
            5
        },
        Stat::DmgBomb => 3,
        Stat::FuseTimeBomb => if ch == Character::Anne {
            140
        } else {
            200
        },
        Stat::CdTurret => 60,
        Stat::CdTurretShot => 300,
        Stat::DmgTurret => 1,
        Stat::DurTurret => if ch == Character::Matthew {
            1800
        } else {
            900
        },
        Stat::CdEmp => 60,
        Stat::RadEmp => if ch == Character::Megan {
            11
        } else {
            8
        },
        Stat::DmgEmp => 0,
        Stat::DurEmp => 60,
        Stat::StunEmp => if ch == Character::Megan {
            1
        } else {
            0
        },
        Stat::SlowEmp => 300,
        Stat::CdMove => if ch == Character::Joshua {
            8
        } else {
            9
        },
        Stat::Luck => if ch == Character::LiShen {
            5
        } else {
            0
        },
        Stat::Character => ch.id(),
    }
}

/// A player whose stats and tallies are those of a well-formed player is
/// well formed, if its progress and its level-up session are.
pub proof fn lemma_wf_carries(was: &Player, now: &Player)
    requires
        was.wf(),
        now.stats == was.stats,
        now.upgrades == was.upgrades,
        now.progress.wf(),
        now.upgrading matches Some(u) ==> u.wf(),
    ensures
        now.wf(),
{
    assert forall|s: Stat| s.least() <= #[trigger] now.stat(s) <= s.most() by {
        assert(now.stat(s) == was.stat(s));
    }
}

/// A vector of `n` zeros.
fn zeros(n: usize) -> (v: Vec<i32>)
    ensures
        v.len() == n,
        forall|i: int| 0 <= i < n ==> v@[i] == 0,
{
    let mut v: Vec<i32> = Vec::new();
    let mut i: usize = 0;
    while i < n
        invariant
            i <= n,
            v.len() == i,
            forall|k: int| 0 <= k < i ==> v@[k] == 0,
        decreases n - i,
    {
        v.push(0);
        i = i + 1;
    }
    v
}

/// Writes `v` to the slot of `s`.
fn put(stats: &mut Vec<i32>, s: Stat, v: i32)
    requires
        old(stats).len() == STAT_SLOTS,
    ensures
        final(stats)@ == old(stats)@.update(s.slot(), v),
{
    let i: usize = s.index();
    stats[i] = v;
}

impl Player {
    /// The value of the stat `s`.
    pub open spec fn stat(&self, s: Stat) -> int {
        self.stats@[s.slot()] as int
    }

    /// How often the upgrade at pool position `i` was taken.
    pub open spec fn tally(&self, i: int) -> int {
        self.upgrades@[i] as int
    }

    /// The vectors have their fixed lengths, every stat lies in its range,
    /// every tally and count in `0..=COUNT_LIMIT`, and an open level-up
    /// session is well formed.
    pub open spec fn wf(&self) -> bool {
        &&& self.stats.len() == STAT_SLOTS
        &&& self.upgrades.len() == UPGRADE_COUNT
        &&& forall|s: Stat| s.least() <= #[trigger] self.stat(s) <= s.most()
        &&& forall|i: int|
            0 <= i < UPGRADE_COUNT ==> 0 <= #[trigger] self.upgrades@[i] <= COUNT_LIMIT
        &&& self.progress.wf()
        &&& self.upgrading matches Some(u) ==> u.wf()
    }

    /// Whether `other` differs from `self` in the stat vector at most.
    pub open spec fn same_but_stats(&self, other: &Player) -> bool {
        &&& self.x == other.x
        &&& self.y == other.y
        &&& self.progress == other.progress
        &&& self.running == other.running
        &&& self.dead == other.dead
        &&& self.paused == other.paused
        &&& self.upgrading == other.upgrading
        &&& self.upgrades == other.upgrades
    }

    /// The player at the start of a run: at `(x, y)`, with the starting stats
    /// of the character `ch`, nothing killed, used or upgraded, and no flag
    /// raised.
    pub fn new(ch: Character, x: i32, y: i32) -> (p: Player)
        ensures
            p.wf(),
            p.x == x,
            p.y == y,
            forall|s: Stat| #[trigger] p.stat(s) == starting(ch, s),
            forall|i: int| 42 <= i < STAT_SLOTS ==> p.stats@[i] == 0,
            forall|i: int| 0 <= i < UPGRADE_COUNT ==> p.upgrades@[i] == 0,
            p.progress.killed == 0,
            p.progress.used@ == seq![0i32, 0i32, 0i32, 0i32],
            !p.running,
            !p.dead,
            !p.paused,
            p.upgrading is None,
    {
        let mut stats: Vec<i32> = zeros(STAT_SLOTS);
        put(&mut stats, Stat::Score, 0);
        put(&mut stats, Stat::ScoreAmmo, 3);
        put(&mut stats, Stat::ScoreBomb, 3);
        put(&mut stats, Stat::ScoreTurret, 3);
        put(&mut stats, Stat::ScoreEmp, 3);
        put(&mut stats, Stat::Food, 1_000_000);
        put(&mut stats, Stat::MaxFood, 1_000_000);
        put(&mut stats, Stat::Ammo, 10);
        put(&mut stats, Stat::MaxAmmo, 10);
        put(&mut stats, Stat::DmgAmmo, 1);
        put(&mut stats, Stat::CdShot, 10);
        put(&mut stats, Stat::NotConsumeAmmo, 0);
        put(&mut stats, Stat::PierceAmmo, 0);
        put(&mut stats, Stat::ForkAmmo, 0);
        put(&mut stats, Stat::CdBomb, 60);
        put(&mut stats, Stat::Bomb, 3);
        put(&mut stats, Stat::MaxBomb, 3);
        put(&mut stats, Stat::RadBomb, 5);
        put(&mut stats, Stat::DmgBomb, 3);
        put(&mut stats, Stat::FuseTimeBomb, 200);
        put(&mut stats, Stat::Turret, 3);
        put(&mut stats, Stat::MaxTurret, 3);
        put(&mut stats, Stat::CdTurret, 60);
        put(&mut stats, Stat::CdTurretShot, 300);
        put(&mut stats, Stat::DmgTurret, 1);
        put(&mut stats, Stat::DurTurret, 900);
        put(&mut stats, Stat::CdEmp, 60);
        put(&mut stats, Stat::Emp, 3);
        put(&mut stats, Stat::MaxEmp, 3);
        put(&mut stats, Stat::RadEmp, 8);
        put(&mut stats, Stat::DmgEmp, 0);
        put(&mut stats, Stat::DurEmp, 60);
        put(&mut stats, Stat::StunEmp, 0);
        put(&mut stats, Stat::SlowEmp, 300);
        put(&mut stats, Stat::CdMove, 9);
        put(&mut stats, Stat::Luck, 0);
        put(&mut stats, Stat::Character, ch.number());
        match ch {
            Character::Joshua => {
                put(&mut stats, Stat::CdMove, 8);
            },
            Character::Anne => {
                put(&mut stats, Stat::Ammo, 1);
                put(&mut stats, Stat::MaxAmmo, 1);
                put(&mut stats, Stat::Bomb, 6);
                put(&mut stats, Stat::MaxBomb, 6);
                put(&mut stats, Stat::RadBomb, 6);
                put(&mut stats, Stat::FuseTimeBomb, 140);
            },
            Character::Andrew => {
                put(&mut stats, Stat::DmgAmmo, 2);
                put(&mut stats, Stat::NotConsumeAmmo, 20);
            },
            Character::Matthew => {
                put(&mut stats, Stat::DurTurret, 1800);
            },
            Character::Megan => {
                put(&mut stats, Stat::RadEmp, 11);
                put(&mut stats, Stat::StunEmp, 1);
            },
            Character::LiShen => {
                put(&mut stats, Stat::Food, 1_500_000);
                put(&mut stats, Stat::MaxFood, 1_500_000);
                put(&mut stats, Stat::Luck, 5);
            },
        }
        let p = Player {
            x,
            y,
            stats,
            progress: Progress::new(),
            running: false,
            dead: false,
            paused: false,
            upgrading: None,
            upgrades: zeros(UPGRADE_COUNT),
        };
        assert forall|s: Stat| #[trigger] p.stat(s) == starting(ch, s) by {
            lemma_slots_differ(s, s);
        }
        p
    }

    /// Reads the stat `s`.
    pub fn get(&self, s: Stat) -> (v: i32)
        requires
            self.stats.len() == STAT_SLOTS,
        ensures
            v == self.stat(s),
    {
        self.stats[s.index()]
    }

    /// Writes `v` to the stat `s`; `v` has to lie in the range of `s`.
    pub fn set(&mut self, s: Stat, v: i32)
        requires
            old(self).wf(),
            s.least() <= v <= s.most(),
        ensures
            final(self).wf(),
            final(self).stats@ == old(self).stats@.update(s.slot(), v),
            final(self).same_but_stats(old(self)),
    {
        let i: usize = s.index();
        proof {
            assert forall|t: Stat| t.slot() == s.slot() <==> t == s by {
                lemma_slots_differ(t, s);
            }
        }
        self.stats[i] = v;
        assert forall|t: Stat| t.least() <= #[trigger] self.stat(t) <= t.most() by {
            if t != s {
                assert(self.stat(t) == old(self).stat(t));
            }
        }
    }

    /// Adds `delta` to the stat `s` and holds the sum inside the range of `s`.
    pub fn gain(&mut self, s: Stat, delta: i32)
        requires
            old(self).wf(),
        ensures
            final(self).wf(),
            final(self).stats@ == old(self).stats@.update(
                s.slot(),
                clamp(old(self).stat(s) + delta, s.least(), s.most()) as i32,
            ),
            final(self).same_but_stats(old(self)),
    {
        proof {
            lemma_slots_differ(s, s);
        }
        let v: i32 = bounded_add(self.get(s), delta, s.lo(), s.hi());
        self.set(s, v);
    }

    /// Counts one kill, up to `COUNT_LIMIT`.
    pub fn note_kill(&mut self)
        requires
            old(self).wf(),
        ensures
            final(self).wf(),
            final(self).stats == old(self).stats,
            final(self).progress.killed == clamp(
                old(self).progress.killed + 1,
                0,
                COUNT_LIMIT as int,
            ),
            final(self).progress.used == old(self).progress.used,
            final(self).x == old(self).x,
            final(self).y == old(self).y,
            final(self).running == old(self).running,
            final(self).dead == old(self).dead,
            final(self).paused == old(self).paused,
            final(self).upgrading == old(self).upgrading,
            final(self).upgrades == old(self).upgrades,
    {
        self.progress.record_kill();
        assert forall|s: Stat| s.least() <= #[trigger] self.stat(s) <= s.most() by {
            assert(self.stat(s) == old(self).stat(s));
        }
    }

    /// Counts one use of `weapon`, up to `COUNT_LIMIT`.
    pub fn note_use(&mut self, weapon: crate::progress::Weapon)
        requires
            old(self).wf(),
        ensures
            final(self).wf(),
            final(self).stats == old(self).stats,
            final(self).progress.killed == old(self).progress.killed,
            final(self).progress.used@ == old(self).progress.used@.update(
                weapon.slot(),
                clamp(old(self).progress.used@[weapon.slot()] + 1, 0, COUNT_LIMIT as int) as i32,
            ),
            final(self).x == old(self).x,
            final(self).y == old(self).y,
            final(self).running == old(self).running,
            final(self).dead == old(self).dead,
            final(self).paused == old(self).paused,
            final(self).upgrading == old(self).upgrading,
            final(self).upgrades == old(self).upgrades,
    {
        self.progress.record_use(weapon);
        assert forall|s: Stat| s.least() <= #[trigger] self.stat(s) <= s.most() by {
            assert(self.stat(s) == old(self).stat(s));
        }
    }
}

} // verus!
