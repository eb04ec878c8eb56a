//! The EMP: one pulse that hurts and slows every enemy around the player.

use crate::arena::Arena;
use crate::combat::{sweep, swept, Shock};
use crate::player::Player;
use crate::progress::Weapon;
use crate::sound::{Cue, Sound};
use crate::stat::{lemma_slots_differ, Stat, COUNT_LIMIT, RADIUS_LIMIT, SPAN_LIMIT, STAMP_LIMIT, TICK_LIMIT};
use crate::util::clamp;
use rand::rngs::StdRng;
use vstd::prelude::*;

verus! {

/// The trace of a pulse. Its effect happened when it was cast; the record
/// stays for `duration` ticks to be drawn.
#[derive(Clone, Copy, Debug, PartialEq, Eq, Structural)]
pub struct Emp {
    pub x: i32,
    pub y: i32,
    pub start: i32,
    pub duration: i32,
    pub slow: i32,
    pub radius: i32,
    pub damage: i32,
    pub immobilize: bool,
}

impl Emp {
    /// Radius, damage and clocks are in range.
    pub open spec fn wf(&self) -> bool {
        &&& -SPAN_LIMIT <= self.start <= STAMP_LIMIT
        &&& 0 <= self.duration <= SPAN_LIMIT
        &&& 0 <= self.slow <= SPAN_LIMIT
        &&& 0 <= self.radius <= RADIUS_LIMIT
        &&& 0 <= self.damage <= 127
    }
}

/// Whether the player `p` can cast a pulse at `frame`: the cooldown since
/// the last pulse has passed and a charge is left.
pub open spec fn emp_ready(p: &Player, frame: int) -> bool {
    frame - p.stat(Stat::CdEmp) >= p.stat(Stat::LastEmp) && p.stat(Stat::Emp) != 0
}

/// The record of the pulse that the player `p` casts at `frame`.
pub open spec fn emp_of(p: &Player, frame: int) -> Emp {
    Emp {
        x: p.x,
        y: p.y,
        start: frame as i32,
        duration: p.stat(Stat::DurEmp) as i32,
        slow: p.stat(Stat::SlowEmp) as i32,
        radius: p.stat(Stat::RadEmp) as i32,
        damage: p.stat(Stat::DmgEmp) as i32,
        immobilize: p.stat(Stat::StunEmp) == 1,
    }
}

/// What the pulse `emp` does to each enemy it reaches.
pub open spec fn shock_of(emp: Emp) -> Shock {
    Shock { dmg: emp.damage, slows: true, slow: emp.slow, immobilize: emp.immobilize }
}

/// Whether `(primed, charged)` is the state `(before, was)` with the pulse
/// of `frame` booked and not yet felt: its record is appended, one charge is
/// spent, one use counted and the tick noted.
pub open spec fn emp_booked(
    before: &Arena,
    primed: &Arena,
    was: &Player,
    charged: &Player,
    frame: int,
) -> bool {
    &&& primed.emps@ == before.emps@.push(emp_of(was, frame))
    &&& primed.tiles == before.tiles
    &&& primed.pass == before.pass
    &&& primed.enemies == before.enemies
    &&& primed.bullets == before.bullets
    &&& primed.bombs == before.bombs
    &&& primed.turrets == before.turrets
    &&& primed.chests == before.chests
    &&& primed.boss == before.boss
    &&& primed.spawned == before.spawned
    &&& primed.w == before.w
    &&& primed.h == before.h
    &&& charged.stats@ == was.stats@.update(Stat::LastEmp.slot(), frame as i32).update(
        Stat::Emp.slot(),
        (was.stat(Stat::Emp) - 1) as i32,
    )
    &&& charged.progress.killed == was.progress.killed
    &&& charged.progress.used@ == was.progress.used@.update(
        Weapon::Emp.slot(),
        clamp(was.progress.used@[Weapon::Emp.slot()] + 1, 0, COUNT_LIMIT as int) as i32,
    )
    &&& charged.x == was.x
    &&& charged.y == was.y
    &&& charged.running == was.running
    &&& charged.dead == was.dead
    &&& charged.paused == was.paused
    &&& charged.upgrading == was.upgrading
    &&& charged.upgrades == was.upgrades
}

/// Whether the state after is the state before with the casting of a pulse
/// at `frame` checked, and `fired` tells whether one was cast. A player that
/// can cast a pulse (see `emp_ready`) notes the tick, spends one pulse,
/// counts one use and leaves a record of the pulse (see `emp_of`); the pulse
/// strikes every enemy within its radius (see `shock_of` and `swept`).
/// Otherwise nothing changes.
pub open spec fn emp_checked(
    was: &Player,
    before: &Arena,
    heard: Seq<Cue>,
    frame: i32,
    now: &Player,
    after: &Arena,
    heard_after: Seq<Cue>,
    fired: bool,
) -> bool {
    &&& after.wf()
    &&& now.wf()
    &&& fired == emp_ready(was, frame as int)
    &&& !fired ==> *after == *before && *now == *was && heard_after
        == heard
    &&& fired ==> exists|primed: Arena, charged: Player|
        {
            &&& #[trigger] emp_booked(before, &primed, was, &charged, frame as int)
            &&& swept(
                &primed,
                after,
                &charged,
                now,
                heard.push(Cue::flat(Sound::UseEmp, 100)),
                heard_after,
                was.x as int,
                was.y as int,
                was.stat(Stat::RadEmp),
                frame as int,
                shock_of(emp_of(was, frame as int)),
                Stat::ScoreEmp,
                before.w as int,
                0,
            )
        }
}

/// Casts a pulse at `frame` if the player can: asks for its sound, books
/// it, and does its shock to every enemy within its radius of the player,
/// with the score bonus of the pulse. Otherwise nothing happens. Returns
/// whether a pulse was cast.
pub fn check_emp(
    player: &mut Player,
    map: &mut Arena,
    cues: &mut Vec<Cue>,
    frame: i32,
    rng: &mut StdRng,
) -> (fired: bool)
    requires
        old(map).wf(),
        old(player).wf(),
        old(map).inside(old(player).x as int, old(player).y as int),
        0 <= frame <= TICK_LIMIT,
    ensures
        emp_checked(
            old(player),
            old(map),
            old(cues)@,
            frame,
            final(player),
            final(map),
            final(cues)@,
            fired,
        ),
{
    proof {
        assert(Stat::CdEmp.least() <= player.stat(Stat::CdEmp) <= Stat::CdEmp.most());
        assert(Stat::LastEmp.least() <= player.stat(Stat::LastEmp) <= Stat::LastEmp.most());
        assert(Stat::Emp.least() <= player.stat(Stat::Emp) <= Stat::Emp.most());
        assert(Stat::DurEmp.least() <= player.stat(Stat::DurEmp) <= Stat::DurEmp.most());
        assert(Stat::SlowEmp.least() <= player.stat(Stat::SlowEmp) <= Stat::SlowEmp.most());
        assert(Stat::RadEmp.least() <= player.stat(Stat::RadEmp) <= Stat::RadEmp.most());
        assert(Stat::DmgEmp.least() <= player.stat(Stat::DmgEmp) <= Stat::DmgEmp.most());
    }
    if frame - player.get(Stat::CdEmp) < player.get(Stat::LastEmp) || player.get(Stat::Emp) == 0 {
        return false;
    }
    cues.push(Cue { sound: Sound::UseEmp, level: 100, near: 0, dist: 0 });
    let emp = Emp {
        x: player.x,
        y: player.y,
        start: frame,
        duration: player.get(Stat::DurEmp),
        slow: player.get(Stat::SlowEmp),
        radius: player.get(Stat::RadEmp),
        damage: player.get(Stat::DmgEmp),
        immobilize: player.get(Stat::StunEmp) == 1,
    };
    let charges: i32 = player.get(Stat::Emp);
    player.set(Stat::LastEmp, frame);
    proof {
        lemma_slots_differ(Stat::LastEmp, Stat::Emp);
    }
    player.set(Stat::Emp, charges - 1);
    player.note_use(Weapon::Emp);
    map.emps.push(emp);
    let ghost primed = *map;
    let ghost charged = *player;
    assert(emp_booked(old(map), &primed, old(player), &charged, frame as int));
    let shock = Shock { dmg: emp.damage, slows: true, slow: emp.slow, immobilize: emp.immobilize };
    sweep(map, player, cues, emp.x, emp.y, emp.radius, frame, shock, Stat::ScoreEmp, rng);
    true
}

/// The records `s` after those from position `i` on that are no longer to
/// be drawn at `frame` were taken out, each with the last record put in its
/// place.
pub open spec fn lasting_left(s: Seq<Emp>, i: int, frame: int) -> Seq<Emp>
    decreases s.len() - i,
{
    if i < 0 || i >= s.len() {
        s
    } else if frame >= s[i].start + s[i].duration {
        lasting_left(s.update(i, s.last()).drop_last(), i, frame)
    } else {
        lasting_left(s, i + 1, frame)
    }
}

/// Drops the pulse records whose time to be drawn is over at `frame`. A
/// record removed is replaced by the last one, as `Vec::swap_remove` does.
pub fn expire_emps(map: &mut Arena, frame: i32)
    requires
        old(map).wf(),
        0 <= frame <= TICK_LIMIT,
    ensures
        final(map).wf(),
        final(map).tiles == old(map).tiles,
        final(map).pass == old(map).pass,
        final(map).enemies == old(map).enemies,
        final(map).same_but_emps(old(map)),
        final(map).emps@ == lasting_left(old(map).emps@, 0, frame as int),
        forall|i: int|
            0 <= i < final(map).emps.len() ==> frame < (#[trigger] final(map).emps@[i]).start
                + final(map).emps@[i].duration && old(map).emps@.contains(final(map).emps@[i]),
        forall|i: int|
            0 <= i < old(map).emps.len() && frame < (#[trigger] old(map).emps@[i]).start + old(map).emps@[i].duration ==> final(map).emps@.contains(old(map).emps@[i]),
{
    let mut i: usize = 0;
    while i < map.emps.len()
        invariant
            map.wf(),
            0 <= frame <= TICK_LIMIT,
            i <= map.emps.len(),
            map.tiles == old(map).tiles,
            map.pass == old(map).pass,
            map.enemies == old(map).enemies,
            map.same_but_emps(old(map)),
            lasting_left(map.emps@, i as int, frame as int) == lasting_left(
                old(map).emps@,
                0,
                frame as int,
            ),
            forall|k: int|
                0 <= k < i ==> frame < (#[trigger] map.emps@[k]).start + map.emps@[k].duration,
            forall|k: int| 0 <= k < map.emps.len() ==> old(map).emps@.contains(#[trigger] map.emps@[k]),
            forall|k: int|
                0 <= k < old(map).emps.len() && frame < (#[trigger] old(map).emps@[k]).start + old(map).emps@[k].duration ==> map.emps@.contains(old(map).emps@[k]),
        decreases map.emps.len() - i,
    {
        let emp: Emp = map.emps[i];
        let ghost cur = map.emps@;
        if frame >= emp.start + emp.duration {
            map.emps.swap_remove(i);
            proof {
                assert forall|k: int| 0 <= k < map.emps.len() implies old(map).emps@.contains(
                    #[trigger] map.emps@[k],
                ) by {
                    if k == i {
                        assert(map.emps@[k] == cur[cur.len() - 1]);
                    } else {
                        assert(map.emps@[k] == cur[k]);
                    }
                }
                assert forall|k: int|
                    0 <= k < old(map).emps.len() && frame < (#[trigger] old(map).emps@[k]).start
                        + old(map).emps@[k].duration implies map.emps@.contains(
                    old(map).emps@[k],
                ) by {
                    let e = old(map).emps@[k];
                    let j = choose|j: int| 0 <= j < cur.len() && cur[j] == e;
                    if j == cur.len() - 1 {
                        assert(map.emps@[i as int] == e);
                    } else {
                        assert(map.emps@[j] == e);
                    }
                }
            }
        } else {
            i = i + 1;
        }
    }
}

/// Whether the pulse record `emp` is still to be drawn at `frame`.
pub open spec fn lasting(emp: Emp, frame: int) -> bool {
    frame < emp.start + emp.duration
}

/// Whether the records `after` are those of the records `before` that are
/// still to be drawn at `frame`: each of them is one of these, and each of
/// these is among them.
pub open spec fn records_kept(before: Seq<Emp>, after: Seq<Emp>, frame: int) -> bool {
    &&& forall|i: int|
        0 <= i < after.len() ==> lasting(#[trigger] after[i], frame) && before.contains(after[i])
    &&& forall|i: int|
        0 <= i < before.len() && lasting(#[trigger] before[i], frame) ==> after.contains(before[i])
}

} // verus!
