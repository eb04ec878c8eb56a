//! Level-ups: the pool of upgrades, the offer made to the player, and what
//! each upgrade does to the stats.

use crate::dice::roll;
use crate::input::Nav;
use crate::player::Player;
use crate::sound::{Cue, Sound};
use crate::stat::{lemma_slots_differ, Stat, COUNT_LIMIT, TICK_LIMIT};
use crate::util::clamp;
use rand::rngs::StdRng;
use vstd::prelude::*;

verus! {

/// Number of upgrades in the pool.
pub const UPGRADE_COUNT: usize = 15;

/// Number of upgrades offered at one level-up.
pub const OFFER_SIZE: usize = 5;

/// How often a stacking upgrade may be taken.
pub const STACK_CAP: i32 = 3;

/// The upgrades, in pool order.
#[derive(Clone, Copy, Debug, PartialEq, Eq, Structural)]
pub enum Upgrade {
    MaxAmmo,
    MaxBomb,
    MaxTurret,
    MaxEmp,
    NotConsumeAmmo,
    PierceAmmo,
    ForkAmmo,
    Sniper,
    DmgBomb,
    RadAndFuseBomb,
    ScoreBomb,
    CdTurret,
    DmgTurret,
    MovSpd,
    DurEmp,
}

/// The choice offered at a level-up: `upgrades` are on offer, `ups` is the
/// highlighted one, and `ret` the one taken, once it is.
#[derive(Debug)]
pub struct Upgrading {
    pub frame: i32,
    pub ups: usize,
    pub upgrades: Vec<Upgrade>,
    pub ret: Option<Upgrade>,
}

/// One gain on the stat `s1` is what an upgrade does whose only delta is
/// `d1` on `s1`.
proof fn lemma_one_stat(before: Player, after: Player, u: Upgrade, s1: Stat, d1: int)
    requires
        before.wf(),
        after.stats@ == before.stats@.update(
            s1.slot(),
            clamp(before.stat(s1) + d1, s1.least(), s1.most()) as i32,
        ),
        forall|s: Stat| #[trigger] u.delta(s) == if s == s1 { d1 } else { 0 },
    ensures
        forall|s: Stat| #[trigger]
            after.stat(s) == clamp(before.stat(s) + u.delta(s), s.least(), s.most()),
        forall|i: int| 42 <= i < 64 ==> #[trigger] after.stats@[i] == before.stats@[i],
{
    assert forall|s: Stat| #[trigger]
        after.stat(s) == clamp(before.stat(s) + u.delta(s), s.least(), s.most()) by {
        lemma_slots_differ(s, s1);
        assert(s.least() <= before.stat(s) <= s.most());
    }
    lemma_slots_differ(s1, s1);
}

/// Two gains, on `s1` and then on another stat `s2`, are what an upgrade
/// does whose only deltas are `d1` on `s1` and `d2` on `s2`.
proof fn lemma_two_stats(
    before: Player,
    mid: Player,
    after: Player,
    u: Upgrade,
    s1: Stat,
    d1: int,
    s2: Stat,
    d2: int,
)
    requires
        before.wf(),
        s1 != s2,
        mid.stats@ == before.stats@.update(
            s1.slot(),
            clamp(before.stat(s1) + d1, s1.least(), s1.most()) as i32,
        ),
        after.stats@ == mid.stats@.update(
            s2.slot(),
            clamp(mid.stat(s2) + d2, s2.least(), s2.most()) as i32,
        ),
        forall|s: Stat| #[trigger] u.delta(s) == if s == s1 { d1 } else if s == s2 { d2 } else { 0 },
    ensures
        forall|s: Stat| #[trigger]
            after.stat(s) == clamp(before.stat(s) + u.delta(s), s.least(), s.most()),
        forall|i: int| 42 <= i < 64 ==> #[trigger] after.stats@[i] == before.stats@[i],
{
    assert forall|s: Stat| #[trigger]
        after.stat(s) == clamp(before.stat(s) + u.delta(s), s.least(), s.most()) by {
        lemma_slots_differ(s, s1);
        lemma_slots_differ(s, s2);
        lemma_slots_differ(s1, s2);
        assert(s.least() <= before.stat(s) <= s.most());
    }
    lemma_slots_differ(s1, s1);
    lemma_slots_differ(s2, s2);
}

impl Upgrade {
    /// Position of the upgrade in the pool.
    pub open spec fn slot(self) -> int {
        match self {
            Upgrade::MaxAmmo => 0,
            Upgrade::MaxBomb => 1,
            Upgrade::MaxTurret => 2,
            Upgrade::MaxEmp => 3,
            Upgrade::NotConsumeAmmo => 4,
            Upgrade::PierceAmmo => 5,
            Upgrade::ForkAmmo => 6,
            Upgrade::Sniper => 7,
            Upgrade::DmgBomb => 8,
            Upgrade::RadAndFuseBomb => 9,
            Upgrade::ScoreBomb => 10,
            Upgrade::CdTurret => 11,
            Upgrade::DmgTurret => 12,
            Upgrade::MovSpd => 13,
            Upgrade::DurEmp => 14,
        }
    }

    /// The upgrade at position `value` of the pool.
    pub open spec fn of(value: int) -> Upgrade {
        if value == 0 {
            Upgrade::MaxAmmo
        } else if value == 1 {
            Upgrade::MaxBomb
        } else if value == 2 {
            Upgrade::MaxTurret
        } else if value == 3 {
            Upgrade::MaxEmp
        } else if value == 4 {
            Upgrade::NotConsumeAmmo
        } else if value == 5 {
            Upgrade::PierceAmmo
        } else if value == 6 {
            Upgrade::ForkAmmo
        } else if value == 7 {
            Upgrade::Sniper
        } else if value == 8 {
            Upgrade::DmgBomb
        } else if value == 9 {
            Upgrade::RadAndFuseBomb
        } else if value == 10 {
            Upgrade::ScoreBomb
        } else if value == 11 {
            Upgrade::CdTurret
        } else if value == 12 {
            Upgrade::DmgTurret
        } else if value == 13 {
            Upgrade::MovSpd
        } else {
            Upgrade::DurEmp
        }
    }

    /// Whether the upgrade stacks, and so stops being offered once it was
    /// taken `STACK_CAP` times.
    pub open spec fn stacks(self) -> bool {
        self == Upgrade::NotConsumeAmmo || self == Upgrade::CdTurret || self == Upgrade::MovSpd
            || self == Upgrade::DmgTurret
    }

    /// Position of the upgrade in the pool.
    pub fn index(self) -> (i: usize)
        ensures
            i == self.slot(),
            i < UPGRADE_COUNT,
    {
        match self {
            Upgrade::MaxAmmo => 0,
            Upgrade::MaxBomb => 1,
            Upgrade::MaxTurret => 2,
            Upgrade::MaxEmp => 3,
            Upgrade::NotConsumeAmmo => 4,
            Upgrade::PierceAmmo => 5,
            Upgrade::ForkAmmo => 6,
            Upgrade::Sniper => 7,
            Upgrade::DmgBomb => 8,
            Upgrade::RadAndFuseBomb => 9,
            Upgrade::ScoreBomb => 10,
            Upgrade::CdTurret => 11,
            Upgrade::DmgTurret => 12,
            Upgrade::MovSpd => 13,
            Upgrade::DurEmp => 14,
        }
    }

    /// The upgrade at position `value` of the pool.
    pub fn from(value: i32) -> (u: Upgrade)
        requires
            0 <= value < UPGRADE_COUNT,
        ensures
            u == Upgrade::of(value as int),
            u.slot() == value,
    {
        match value {
            0 => Upgrade::MaxAmmo,
            1 => Upgrade::MaxBomb,
            2 => Upgrade::MaxTurret,
            3 => Upgrade::MaxEmp,
            4 => Upgrade::NotConsumeAmmo,
            5 => Upgrade::PierceAmmo,
            6 => Upgrade::ForkAmmo,
            7 => Upgrade::Sniper,
            8 => Upgrade::DmgBomb,
            9 => Upgrade::RadAndFuseBomb,
            10 => Upgrade::ScoreBomb,
            11 => Upgrade::CdTurret,
            12 => Upgrade::DmgTurret,
            13 => Upgrade::MovSpd,
            _ => Upgrade::DurEmp,
        }
    }


    /// The stat the upgrade is about, and what it adds to it.
    pub open spec fn chief(self) -> (Stat, int) {
        match self {
            Upgrade::MaxAmmo => (Stat::MaxAmmo, 3),
            Upgrade::MaxBomb => (Stat::MaxBomb, 1),
            Upgrade::MaxTurret => (Stat::MaxTurret, 1),
            Upgrade::MaxEmp => (Stat::MaxEmp, 1),
            Upgrade::NotConsumeAmmo => (Stat::NotConsumeAmmo, 20),
            Upgrade::PierceAmmo => (Stat::PierceAmmo, 1),
            Upgrade::ForkAmmo => (Stat::ForkAmmo, 1),
            Upgrade::Sniper => (Stat::CdShot, 10),
            Upgrade::DmgBomb => (Stat::DmgBomb, 1),
            Upgrade::RadAndFuseBomb => (Stat::RadBomb, 1),
            Upgrade::ScoreBomb => (Stat::ScoreBomb, 3),
            Upgrade::CdTurret => (Stat::CdTurretShot, -75),
            Upgrade::DmgTurret => (Stat::DmgTurret, 1),
            Upgrade::MovSpd => (Stat::CdMove, -1),
            Upgrade::DurEmp => (Stat::SlowEmp, 300),
        }
    }

    /// The second stat the upgrade moves, where it moves two, and what it
    /// adds to it.
    pub open spec fn side(self) -> Option<(Stat, int)> {
        match self {
            Upgrade::Sniper => Some((Stat::DmgAmmo, 1)),
            Upgrade::RadAndFuseBomb => Some((Stat::FuseTimeBomb, 1)),
            _ => None,
        }
    }

    /// What the upgrade adds to the stat `s`.
    pub open spec fn delta(self, s: Stat) -> int {
        if s == self.chief().0 {
            self.chief().1
        } else {
            match self.side() {
                Some(e) => if s == e.0 {
                    e.1
                } else {
                    0
                },
                None => 0,
            }
        }
    }

    /// The stat the upgrade is about, and what it adds to it.
    pub fn primary(self) -> (e: (Stat, i32))
        ensures
            e.0 == self.chief().0,
            e.1 == self.chief().1,
    {
        match self {
            Upgrade::MaxAmmo => (Stat::MaxAmmo, 3),
            Upgrade::MaxBomb => (Stat::MaxBomb, 1),
            Upgrade::MaxTurret => (Stat::MaxTurret, 1),
            Upgrade::MaxEmp => (Stat::MaxEmp, 1),
            Upgrade::NotConsumeAmmo => (Stat::NotConsumeAmmo, 20),
            Upgrade::PierceAmmo => (Stat::PierceAmmo, 1),
            Upgrade::ForkAmmo => (Stat::ForkAmmo, 1),
            Upgrade::Sniper => (Stat::CdShot, 10),
            Upgrade::DmgBomb => (Stat::DmgBomb, 1),
            Upgrade::RadAndFuseBomb => (Stat::RadBomb, 1),
            Upgrade::ScoreBomb => (Stat::ScoreBomb, 3),
            Upgrade::CdTurret => (Stat::CdTurretShot, -75),
            Upgrade::DmgTurret => (Stat::DmgTurret, 1),
            Upgrade::MovSpd => (Stat::CdMove, -1),
            Upgrade::DurEmp => (Stat::SlowEmp, 300),
        }
    }

    /// The second stat the upgrade moves, where it moves two, and what it
    /// adds to it.
    pub fn secondary(self) -> (e: Option<(Stat, i32)>)
        ensures
            e is None ==> self.side() is None,
            e matches Some(v) ==> self.side() == Some((v.0, v.1 as int)) && v.0 != self.chief().0,
    {
        match self {
            Upgrade::Sniper => Some((Stat::DmgAmmo, 1)),
            Upgrade::RadAndFuseBomb => Some((Stat::FuseTimeBomb, 1)),
            _ => None,
        }
    }

    /// The line shown for the upgrade.
    pub open spec fn label(self) -> Seq<char> {
        match self {
            Upgrade::MaxAmmo => "+3 max ammo"@,
            Upgrade::MaxBomb => "+1 max bomb"@,
            Upgrade::MaxTurret => "+1 max turret"@,
            Upgrade::MaxEmp => "+1 max EMP"@,
            Upgrade::NotConsumeAmmo => "+20% chance to not consume ammo"@,
            Upgrade::PierceAmmo => "+1 bullet pierce"@,
            Upgrade::ForkAmmo => "+1 bullet fork"@,
            Upgrade::Sniper => "slower reload and +1 bullet damage"@,
            Upgrade::DmgBomb => "+3 bomb damage"@,
            Upgrade::RadAndFuseBomb => "+1 bomb radius, +1s bomb fuse time"@,
            Upgrade::ScoreBomb => "+3 score on kill with bomb"@,
            Upgrade::CdTurret => "faster reload for turrets"@,
            Upgrade::DmgTurret => "+1 turret damage"@,
            Upgrade::MovSpd => "increased movement speed"@,
            Upgrade::DurEmp => "+5s EMP duration"@,
        }
    }

    /// Whether the player `p` took the upgrade as often as it stacks, so
    /// that it is no longer offered.
    pub open spec fn capped(self, p: &Player) -> bool {
        self.stacks() && p.tally(self.slot()) >= STACK_CAP
    }

    /// The whole pool, in order.
    pub fn pool() -> (pool: Vec<Upgrade>)
        ensures
            pool.len() == UPGRADE_COUNT,
            forall|i: int| 0 <= i < UPGRADE_COUNT ==> pool@[i] == Upgrade::of(i),
    {
        let mut pool: Vec<Upgrade> = Vec::new();
        let mut n: i32 = 0;
        while n < 15
            invariant
                0 <= n <= 15,
                pool.len() == n,
                forall|i: int| 0 <= i < n ==> pool@[i] == Upgrade::of(i),
            decreases 15 - n,
        {
            pool.push(Upgrade::from(n));
            n = n + 1;
        }
        pool
    }

    /// The line shown for the upgrade.
    pub fn text(self) -> (t: &'static str)
        ensures
            t@ == self.label(),
    {
        match self {
            Upgrade::MaxAmmo => "+3 max ammo",
            Upgrade::MaxBomb => "+1 max bomb",
            Upgrade::MaxTurret => "+1 max turret",
            Upgrade::MaxEmp => "+1 max EMP",
            Upgrade::NotConsumeAmmo => "+20% chance to not consume ammo",
            Upgrade::PierceAmmo => "+1 bullet pierce",
            Upgrade::ForkAmmo => "+1 bullet fork",
            Upgrade::Sniper => "slower reload and +1 bullet damage",
            Upgrade::DmgBomb => "+3 bomb damage",
            Upgrade::RadAndFuseBomb => "+1 bomb radius, +1s bomb fuse time",
            Upgrade::ScoreBomb => "+3 score on kill with bomb",
            Upgrade::CdTurret => "faster reload for turrets",
            Upgrade::DmgTurret => "+1 turret damage",
            Upgrade::MovSpd => "increased movement speed",
            Upgrade::DurEmp => "+5s EMP duration",
        }
    }

    /// Applies the upgrade to the player: every stat moves by the upgrade's
    /// delta, held inside the stat's range, and the upgrade's tally counts
    /// one more.
    pub fn apply(self, player: &mut Player)
        requires
            old(player).wf(),
        ensures
            final(player).wf(),
            forall|s: Stat| #[trigger]
                final(player).stat(s) == clamp(
                    old(player).stat(s) + self.delta(s),
                    s.least(),
                    s.most(),
                ),
            forall|i: int|
                42 <= i < 64 ==> #[trigger] final(player).stats@[i] == old(player).stats@[i],
            final(player).upgrades@ == old(player).upgrades@.update(
                self.slot(),
                clamp(old(player).tally(self.slot()) + 1, 0, COUNT_LIMIT as int) as i32,
            ),
            final(player).x == old(player).x,
            final(player).y == old(player).y,
            final(player).progress == old(player).progress,
            final(player).running == old(player).running,
            final(player).dead == old(player).dead,
            final(player).paused == old(player).paused,
            final(player).upgrading == old(player).upgrading,
    {
        let (s1, d1) = self.primary();
        player.gain(s1, d1);
        let ghost mid = *player;
        match self.secondary() {
            Some((s2, d2)) => {
                player.gain(s2, d2);
                proof {
                    lemma_two_stats(*old(player), mid, *player, self, s1, d1 as int, s2, d2 as int);
                }
            },
            None => {
                proof {
                    lemma_one_stat(*old(player), *player, self, s1, d1 as int);
                }
            },
        }
        let i: usize = self.index();
        let t: i32 = player.upgrades[i];
        let ghost mid2 = *player;
        if t < COUNT_LIMIT {
            player.upgrades[i] = t + 1;
        }
        assert forall|k: int| 0 <= k < UPGRADE_COUNT implies 0 <= #[trigger] player.upgrades@[k]
            <= COUNT_LIMIT by {
            assert(0 <= mid2.upgrades@[k] <= COUNT_LIMIT);
        }
        assert forall|s: Stat| s.least() <= #[trigger] player.stat(s) <= s.most() by {
            assert(player.stat(s) == mid2.stat(s));
        }
        assert(player.upgrades@ =~= old(player).upgrades@.update(
            self.slot(),
            clamp(old(player).tally(self.slot()) + 1, 0, COUNT_LIMIT as int) as i32,
        ));
    }

    /// Draws the offer of a level-up from the pool: `OFFER_SIZE` different
    /// upgrades, none of which the player has capped. Which ones, and in
    /// which order, is up to `rng`.
    pub fn random(player: &Player, rng: &mut StdRng) -> (res: Vec<Upgrade>)
        requires
            player.wf(),
        ensures
            res.len() == OFFER_SIZE,
            forall|i: int, j: int| 0 <= i < j < res.len() ==> res@[i] != res@[j],
            forall|i: int| 0 <= i < res.len() ==> !(#[trigger] res@[i]).capped(player),
    {
        let mut pool: Vec<Upgrade> = Upgrade::pool();
        let mut res: Vec<Upgrade> = Vec::new();
        proof {
            lemma_pool_order();
            assert forall|u: Upgrade| pool@.contains(u) by {
                assert(pool@[u.slot()] == u);
            }
            assert forall|i: int, j: int| 0 <= i < j < pool.len() implies pool@[i] != pool@[j] by {
                assert(Upgrade::of(i).slot() == i);
                assert(Upgrade::of(j).slot() == j);
            }
        }
        while res.len() < OFFER_SIZE
            invariant
                player.wf(),
                pool.len() <= UPGRADE_COUNT,
                res.len() <= OFFER_SIZE,
                forall|i: int, j: int| 0 <= i < j < pool.len() ==> pool@[i] != pool@[j],
                forall|i: int, j: int| 0 <= i < j < res.len() ==> res@[i] != res@[j],
                forall|i: int, j: int|
                    0 <= i < pool.len() && 0 <= j < res.len() ==> pool@[i] != res@[j],
                forall|i: int| 0 <= i < res.len() ==> !(#[trigger] res@[i]).capped(player),
                forall|u: Upgrade| !(#[trigger] u.stacks()) ==> pool@.contains(u) || res@.contains(u),
            decreases pool.len(),
        {
            proof {
                lemma_room_left(pool@, res@);
            }
            let k: usize = roll(rng, 0, pool.len() as i32) as usize;
            let ghost before = pool@;
            let upgrade: Upgrade = pool.remove(k);
            proof {
                assert forall|u: Upgrade| u != upgrade && before.contains(u) implies pool@.contains(
                    u,
                ) by {
                    let i = choose|i: int| 0 <= i < before.len() && before[i] == u;
                    if i < k {
                        assert(pool@[i] == u);
                    } else {
                        assert(pool@[i - 1] == u);
                    }
                }
                assert forall|i: int| 0 <= i < pool.len() implies #[trigger] pool@[i] != upgrade by {
                    if i < k {
                        assert(pool@[i] == before[i]);
                    } else {
                        assert(pool@[i] == before[i + 1]);
                    }
                }
            }
            if upgrade.is_stacking() && player.upgrades[upgrade.index()] >= STACK_CAP {
                continue ;
            }
            let ghost earlier = res@;
            res.push(upgrade);
            proof {
                assert forall|u: Upgrade| earlier.contains(u) implies res@.contains(u) by {
                    let i = choose|i: int| 0 <= i < earlier.len() && earlier[i] == u;
                    assert(res@[i] == u);
                }
                assert(res@[res.len() - 1] == upgrade);
            }
        }
        res
    }

    /// Whether the upgrade stacks.
    pub fn is_stacking(self) -> (b: bool)
        ensures
            b == self.stacks(),
    {
        match self {
            Upgrade::NotConsumeAmmo | Upgrade::CdTurret | Upgrade::MovSpd | Upgrade::DmgTurret => {
                true
            },
            _ => false,
        }
    }
}

/// The pool holds every upgrade at its own position.
pub proof fn lemma_pool_order()
    ensures
        forall|i: int| 0 <= i < UPGRADE_COUNT ==> (#[trigger] Upgrade::of(i)).slot() == i,
        forall|u: Upgrade| 0 <= #[trigger] u.slot() < UPGRADE_COUNT && Upgrade::of(u.slot()) == u,
{
}

/// While fewer than `OFFER_SIZE` upgrades are drawn and every upgrade that
/// does not stack is still in the pool or drawn, the pool is not empty.
proof fn lemma_room_left(pool: Seq<Upgrade>, res: Seq<Upgrade>)
    requires
        res.len() < OFFER_SIZE,
        forall|u: Upgrade| !(#[trigger] u.stacks()) ==> pool.contains(u) || res.contains(u),
    ensures
        pool.len() > 0,
{
    if pool.len() == 0 {
        assert(!Upgrade::MaxAmmo.stacks() && !Upgrade::MaxBomb.stacks()
            && !Upgrade::MaxTurret.stacks() && !Upgrade::MaxEmp.stacks()
            && !Upgrade::PierceAmmo.stacks());
        assert(res.contains(Upgrade::MaxAmmo));
        assert(res.contains(Upgrade::MaxBomb));
        assert(res.contains(Upgrade::MaxTurret));
        assert(res.contains(Upgrade::MaxEmp));
        assert(res.contains(Upgrade::PierceAmmo));
        let a = choose|i: int| 0 <= i < res.len() && res[i] == Upgrade::MaxAmmo;
        let b = choose|i: int| 0 <= i < res.len() && res[i] == Upgrade::MaxBomb;
        let c = choose|i: int| 0 <= i < res.len() && res[i] == Upgrade::MaxTurret;
        let d = choose|i: int| 0 <= i < res.len() && res[i] == Upgrade::MaxEmp;
        let e = choose|i: int| 0 <= i < res.len() && res[i] == Upgrade::PierceAmmo;
        assert(a != b && a != c && a != d && a != e && b != c && b != d && b != e && c != d && c
            != e && d != e);
        assert(false);
    }
}

impl Upgrading {
    /// Opens a level-up session for `player`: asks for the level-up sound and
    /// draws the offer. The third line is highlighted and nothing is taken
    /// yet.
    pub fn new(player: &Player, cues: &mut Vec<Cue>, rng: &mut StdRng) -> (u: Upgrading)
        requires
            player.wf(),
        ensures
            u.wf(),
            u.frame == 0,
            u.ups == 2,
            u.ret is None,
            u.upgrades.len() == OFFER_SIZE,
            forall|i: int, j: int| 0 <= i < j < u.upgrades.len() ==> u.upgrades@[i] != u.upgrades@[j],
            forall|i: int| 0 <= i < u.upgrades.len() ==> !(#[trigger] u.upgrades@[i]).capped(player),
            final(cues)@ == old(cues)@.push(Cue::flat(Sound::Upgrade, 100)),
    {
        cues.push(Cue { sound: Sound::Upgrade, level: 100, near: 0, dist: 0 });
        Upgrading { frame: 0, ups: 2, upgrades: Upgrade::random(player, rng), ret: None }
    }

    /// Lets one tick pass in the session. The clock stops at `TICK_LIMIT`.
    pub fn update(&mut self)
        requires
            old(self).wf(),
        ensures
            final(self).wf(),
            final(self).frame == clamp(old(self).frame + 1, 0, TICK_LIMIT as int),
            final(self).ups == old(self).ups,
            final(self).upgrades == old(self).upgrades,
            final(self).ret == old(self).ret,
    {
        if self.frame < TICK_LIMIT {
            self.frame = self.frame + 1;
        }
    }

    /// Handles a key: `Up` and `Down` move the highlight inside the offer,
    /// `Select` takes the highlighted upgrade. Each of them that does
    /// something asks for the switch sound; any other key does nothing.
    pub fn pressed(&mut self, nav: Nav, cues: &mut Vec<Cue>)
        requires
            old(self).wf(),
        ensures
            final(self).wf(),
            final(self).frame == old(self).frame,
            final(self).upgrades == old(self).upgrades,
            final(self).ups == (if nav == Nav::Up && old(self).ups > 0 {
                old(self).ups - 1
            } else if nav == Nav::Down && old(self).ups + 1 < old(self).upgrades.len() {
                old(self).ups + 1
            } else {
                old(self).ups as int
            }),
            final(self).ret == (if nav == Nav::Select {
                Some(old(self).upgrades@[old(self).ups as int])
            } else {
                old(self).ret
            }),
            final(cues)@ == (if (nav == Nav::Up && old(self).ups > 0) || (nav == Nav::Down && old(
                self,
            ).ups + 1 < old(self).upgrades.len()) || nav == Nav::Select {
                old(cues)@.push(Cue::flat(Sound::UiSwitch, 75))
            } else {
                old(cues)@
            }),
    {
        match nav {
            Nav::Up => {
                if self.ups > 0 {
                    cues.push(Cue { sound: Sound::UiSwitch, level: 75, near: 0, dist: 0 });
                    self.ups = self.ups - 1;
                }
            },
            Nav::Down => {
                if self.ups < self.upgrades.len() - 1 {
                    cues.push(Cue { sound: Sound::UiSwitch, level: 75, near: 0, dist: 0 });
                    self.ups = self.ups + 1;
                }
            },
            Nav::Select => {
                cues.push(Cue { sound: Sound::UiSwitch, level: 75, near: 0, dist: 0 });
                self.ret = Some(self.upgrades[self.ups]);
            },
            _ => {},
        }
    }

    /// There is something on offer, the highlight points at it, and the
    /// session's clock is in range.
    pub open spec fn wf(&self) -> bool {
        &&& 0 <= self.frame <= TICK_LIMIT
        &&& 1 <= self.upgrades.len()
        &&& self.ups < self.upgrades.len()
    }
}

} // verus!
