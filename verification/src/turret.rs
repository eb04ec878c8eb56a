//! Turrets: placing them and letting them fire.

use crate::arena::Arena;
use crate::bullet::{Bullet, BULLET_COOLDOWN};
use crate::dice::roll;
use crate::input::{aim, aim_of, step, step_of};
use crate::player::Player;
use crate::progress::Weapon;
use crate::sound::{Cue, Sound};
use crate::stat::{lemma_slots_differ, Stat, COUNT_LIMIT, SPAN_LIMIT, STAMP_LIMIT, TICK_LIMIT};
use crate::storage::Storage;
use crate::tile::Tile;
use crate::util::{clamp, dist};
use rand::rngs::StdRng;
use vstd::prelude::*;

verus! {

/// A placed turret. `direction` picks one of the four axis steps.
#[derive(Clone, Copy, Debug, PartialEq, Eq, Structural)]
pub struct Turret {
    pub x: i32,
    pub y: i32,
    pub dmg: i8,
    pub direction: usize,
    pub start: i32,
    pub duration: i32,
    pub cd: i32,
    pub last: i32,
}

impl Turret {
    /// Direction, damage and clocks are in range.
    pub open spec fn wf(&self) -> bool {
        &&& self.direction < 4
        &&& 0 <= self.dmg
        &&& -SPAN_LIMIT <= self.start <= STAMP_LIMIT
        &&& 0 <= self.duration <= SPAN_LIMIT
        &&& 0 <= self.cd <= SPAN_LIMIT
        &&& -SPAN_LIMIT <= self.last <= STAMP_LIMIT
    }
}

/// Whether the player `p` standing on `map` can place a turret at `frame`:
/// the cooldown since the last turret has passed, a turret is left, and
/// neither a turret nor a bomb is on the player's cell.
pub open spec fn turret_ready(p: &Player, map: &Arena, frame: int) -> bool {
    &&& frame - p.stat(Stat::CdTurret) >= p.stat(Stat::LastTurret)
    &&& p.stat(Stat::Turret) != 0
    &&& !map.has_turret(p.x as int, p.y as int)
    &&& !map.has_bomb(p.x as int, p.y as int)
}

/// The turret that the player `p` places at `frame`, facing the turret
/// direction `d`. It is ready to shoot at once.
pub open spec fn turret_of(p: &Player, d: int, frame: int) -> Turret {
    Turret {
        x: p.x,
        y: p.y,
        dmg: p.stat(Stat::DmgTurret) as i8,
        direction: d as usize,
        start: frame as i32,
        duration: p.stat(Stat::DurTurret) as i32,
        cd: p.stat(Stat::CdTurretShot) as i32,
        last: (frame - p.stat(Stat::CdTurretShot)) as i32,
    }
}

/// Whether the state after is the state before with the placing of a turret
/// at `frame` checked, and `fired` tells whether one was placed. A player
/// that can place a turret (see `turret_ready`) places it on its cell (see
/// `turret_of`), facing the direction aimed at or any if none is; the turret
/// blocks its cell, its sound is asked for, the tick noted, one turret spent
/// and one use counted. Otherwise nothing changes.
pub open spec fn turret_checked(
    keys: &Vec<u32>,
    was: &Player,
    before: &Arena,
    storage: &Storage,
    heard: Seq<Cue>,
    frame: i32,
    now: &Player,
    after: &Arena,
    heard_after: Seq<Cue>,
    fired: bool,
) -> bool {
    &&& after.wf()
    &&& now.wf()
    &&& fired == turret_ready(was, before, frame as int)
    &&& !fired ==> *after == *before && *now == *was && heard_after
        == heard
    &&& fired ==> {
        &&& heard_after == heard.push(Cue::flat(Sound::UseTurret, 30))
        &&& exists|d: int|
            {
                &&& 0 <= d < 4
                &&& aim_of(keys@, storage.hotkeys@) is Some ==> aim_of(keys@, storage.hotkeys@)
                    == Some(d)
                &&& after.turrets@ == before.turrets@.push(
                    #[trigger] turret_of(was, d, frame as int),
                )
            }
        &&& !after.pass_at(was.x as int, was.y as int)
        &&& after.pass_but(before, was.x as int, was.y as int)
        &&& after.tiles == before.tiles
        &&& after.enemies == before.enemies
        &&& after.bullets == before.bullets
        &&& after.bombs == before.bombs
        &&& after.emps == before.emps
        &&& after.chests == before.chests
        &&& after.boss == before.boss
        &&& after.spawned == before.spawned
        &&& after.w == before.w
        &&& after.h == before.h
        &&& now.stats@ == was.stats@.update(
            Stat::LastTurret.slot(),
            frame,
        ).update(Stat::Turret.slot(), (was.stat(Stat::Turret) - 1) as i32)
        &&& now.progress.killed == was.progress.killed
        &&& now.progress.used@ == was.progress.used@.update(
            Weapon::Turret.slot(),
            clamp(was.progress.used@[Weapon::Turret.slot()] + 1, 0, COUNT_LIMIT as int) as i32,
        )
        &&& now.x == was.x
        &&& now.y == was.y
        &&& now.running == was.running
        &&& now.dead == was.dead
        &&& now.paused == was.paused
        &&& now.upgrading == was.upgrading
        &&& now.upgrades == was.upgrades
    }
}

/// Places a turret on the player's cell at `frame` if the player can. It
/// faces the direction aimed at, or one picked by `rng` if none is. The
/// turret blocks its cell; its sound is asked for, the tick noted, one
/// turret spent and one use counted. Otherwise nothing happens. Returns
/// whether a turret was placed.
pub fn check_turret(
    keys: &Vec<u32>,
    player: &mut Player,
    map: &mut Arena,
    storage: &Storage,
    cues: &mut Vec<Cue>,
    frame: i32,
    rng: &mut StdRng,
) -> (fired: bool)
    requires
        old(map).wf(),
        old(player).wf(),
        old(map).hosts(old(player)),
        storage.wf(),
        0 <= frame <= TICK_LIMIT,
    ensures
        turret_checked(
            keys,
            old(player),
            old(map),
            storage,
            old(cues)@,
            frame,
            final(player),
            final(map),
            final(cues)@,
            fired,
        ),
{
    proof {
        assert(Stat::CdTurret.least() <= player.stat(Stat::CdTurret) <= Stat::CdTurret.most());
        assert(Stat::LastTurret.least() <= player.stat(Stat::LastTurret) <= Stat::LastTurret.most());
        assert(Stat::Turret.least() <= player.stat(Stat::Turret) <= Stat::Turret.most());
        assert(Stat::DmgTurret.least() <= player.stat(Stat::DmgTurret) <= Stat::DmgTurret.most());
        assert(Stat::DurTurret.least() <= player.stat(Stat::DurTurret) <= Stat::DurTurret.most());
        assert(Stat::CdTurretShot.least() <= player.stat(Stat::CdTurretShot)
            <= Stat::CdTurretShot.most());
        lemma_slots_differ(Stat::LastTurret, Stat::Turret);
    }
    if frame - player.get(Stat::CdTurret) < player.get(Stat::LastTurret) || player.get(Stat::Turret)
        == 0 || map.turret_at(player.x, player.y) || map.bomb_at(player.x, player.y) {
        return false;
    }
    let direction: usize = match aim(keys, &storage.hotkeys) {
        Some(d) => d,
        None => roll(rng, 0, 4) as usize,
    };
    cues.push(Cue { sound: Sound::UseTurret, level: 30, near: 0, dist: 0 });
    let shot_cd: i32 = player.get(Stat::CdTurretShot);
    let turret = Turret {
        x: player.x,
        y: player.y,
        dmg: player.get(Stat::DmgTurret) as i8,
        direction,
        start: frame,
        duration: player.get(Stat::DurTurret),
        cd: shot_cd,
        last: frame - shot_cd,
    };
    assert(turret == turret_of(old(player), direction as int, frame as int));
    let left: i32 = player.get(Stat::Turret);
    player.set(Stat::LastTurret, frame);
    player.set(Stat::Turret, left - 1);
    player.note_use(Weapon::Turret);
    map.set_pass(player.x, player.y, false);
    let ghost cur = map.turrets@;
    map.turrets.push(turret);
    proof {
        assert forall|j: int| 0 <= j < map.turrets.len() implies (#[trigger] map.turrets@[j]).wf()
            && map.interior(map.turrets@[j].x as int, map.turrets@[j].y as int) && !map.pass_at(
            map.turrets@[j].x as int,
            map.turrets@[j].y as int,
        ) by {
            if j < cur.len() {
                assert(map.turrets@[j] == cur[j]);
                assert(!old(map).pass_at(cur[j].x as int, cur[j].y as int));
            }
        }
    }
    true
}

/// Whether the turret `t` shoots at `frame`.
pub open spec fn shoots(t: Turret, frame: int) -> bool {
    frame >= t.last + t.cd
}

/// Whether the turret `t` is taken down at `frame`.
pub open spec fn spent(t: Turret, frame: int) -> bool {
    frame >= t.start + t.duration
}

/// The turret `t` after the tick `frame`: it has shot if it was time to.
pub open spec fn spun(t: Turret, frame: int) -> Turret {
    if shoots(t, frame) {
        Turret { last: frame as i32, ..t }
    } else {
        t
    }
}

/// The bullet that the turret `t` shoots at `frame`.
pub open spec fn turret_shot(t: Turret, frame: int) -> Bullet {
    Bullet {
        x: t.x,
        y: t.y,
        dx: step_of(t.direction as int).0 as i32,
        dy: step_of(t.direction as int).1 as i32,
        dmg: t.dmg,
        pierce: 0,
        fork: 0,
        last: 0,
        cd: BULLET_COOLDOWN,
        start: frame as i32,
        hit: None,
    }
}

/// Whether one of the turrets `before` that is taken down at `frame` stands
/// on the cell `(x, y)`.
pub open spec fn vacated(before: Seq<Turret>, frame: int, x: int, y: int) -> bool {
    exists|k: int|
        0 <= k < before.len() && spent(#[trigger] before[k], frame) && before[k].x == x
            && before[k].y == y
}

/// Whether `t` is what one of the turrets `before` is after the tick
/// `frame`, and is not taken down at it.
pub open spec fn spun_from(t: Turret, before: Seq<Turret>, frame: int) -> bool {
    exists|k: int|
        0 <= k < before.len() && t == spun(#[trigger] before[k], frame) && !spent(before[k], frame)
}

/// Whether `b` is the shot at `frame` of one of the turrets `before`.
pub open spec fn shot_from(b: Bullet, before: Seq<Turret>, frame: int) -> bool {
    exists|k: int|
        0 <= k < before.len() && shoots(#[trigger] before[k], frame) && b == turret_shot(
            before[k],
            frame,
        )
}

/// The positions of the turrets among `before` that shoot at `frame`.
pub open spec fn shooters(before: Seq<Turret>, frame: int) -> Set<int> {
    Set::new(|k: int| 0 <= k < before.len() && shoots(before[k], frame))
}

/// Whether the turret at position `k` of those from before still waits for
/// its turn: `origin` holds, for each turret of now, its position before.
pub open spec fn waits_in(origin: Seq<int>, i: int, k: int) -> bool {
    exists|j: int| i <= j < origin.len() && #[trigger] origin[j] == k
}

/// Whether `shot` holds the positions of the turrets among `before` that
/// shoot at `frame` and had their turn, when the turrets of now from
/// position `i` on still wait for theirs.
pub open spec fn tallied(before: Seq<Turret>, frame: int, shot: Set<int>, origin: Seq<int>, i: int) -> bool {
    &&& shot.finite()
    &&& forall|k: int| shot.contains(k) ==> 0 <= k < before.len() && shoots(before[k], frame)
    &&& forall|k: int|
        0 <= k < before.len() && shoots(#[trigger] before[k], frame) ==> shot.contains(k)
            || waits_in(origin, i, k)
    &&& forall|j: int| i <= j < origin.len() ==> !shot.contains(#[trigger] origin[j])
}

/// One more turret had its turn: the tally takes it in if it shoots.
/// `removed` tells whether the turret was taken down, so that the last one
/// took its place.
proof fn lemma_tally_step(
    before: Seq<Turret>,
    frame: int,
    shot0: Set<int>,
    shot: Set<int>,
    cur_origin: Seq<int>,
    origin: Seq<int>,
    i: int,
    removed: bool,
)
    requires
        0 <= i < cur_origin.len(),
        0 <= cur_origin[i] < before.len(),
        forall|a: int, b: int| 0 <= a < b < cur_origin.len() ==> cur_origin[a] != cur_origin[b],
        tallied(before, frame, shot0, cur_origin, i),
        shot == (if shoots(before[cur_origin[i]], frame) {
            shot0.insert(cur_origin[i])
        } else {
            shot0
        }),
        origin == (if removed {
            cur_origin.update(i, cur_origin.last()).drop_last()
        } else {
            cur_origin
        }),
    ensures
        tallied(before, frame, shot, origin, if removed { i } else { i + 1 }),
        shot.len() == shot0.len() + (if shoots(before[cur_origin[i]], frame) {
            1int
        } else {
            0int
        }),
{
    let k0 = cur_origin[i];
    let last = cur_origin.len() - 1;
    let next = if removed { i } else { i + 1 };
    assert(!shot0.contains(cur_origin[i]));
    assert forall|k: int|
        0 <= k < before.len() && shoots(#[trigger] before[k], frame) implies shot.contains(k)
        || waits_in(origin, next, k) by {
        if k != k0 && !shot0.contains(k) {
            assert(waits_in(cur_origin, i, k));
            let n = choose|n: int| i <= n < cur_origin.len() && #[trigger] cur_origin[n] == k;
            assert(n != i);
            if removed && n == last {
                assert(origin[i] == k);
            } else {
                assert(origin[n] == k);
            }
        }
    }
    assert forall|j: int| next <= j < origin.len() implies !shot.contains(#[trigger] origin[j]) by {
        let j0 = if removed && j == i { last } else { j };
        assert(origin[j] == cur_origin[j0]);
        assert(!shot0.contains(cur_origin[j0]));
        assert(j0 != i);
        if j0 < i {
            assert(cur_origin[j0] != cur_origin[i]);
        } else {
            assert(cur_origin[i] != cur_origin[j0]);
        }
    }
}

/// Whether the state after is the state before with one tick passed for
/// the turrets, at `frame`: the turrets are those from before that are not
/// taken down, each as it is after the tick; the bullets are those from
/// before and then the shots of the turrets, one for each turret that
/// shoots; a cell that a turret left can be entered if it is empty and
/// neither an enemy nor another turret stands on it; and a cue is asked for
/// each shot.
pub open spec fn turrets_updated(
    before: &Arena,
    player: &Player,
    heard: Seq<Cue>,
    frame: i32,
    after: &Arena,
    heard_after: Seq<Cue>,
) -> bool {
    &&& after.wf()
    &&& before.bullets_settled() ==> after.bullets_settled()
    &&& after.tiles == before.tiles
    &&& after.enemies == before.enemies
    &&& after.bombs == before.bombs
    &&& after.emps == before.emps
    &&& after.chests == before.chests
    &&& after.boss == before.boss
    &&& after.spawned == before.spawned
    &&& after.w == before.w
    &&& after.h == before.h
    &&& forall|j: int|
        0 <= j < after.turrets.len() ==> spun_from(
            #[trigger] after.turrets@[j],
            before.turrets@,
            frame as int,
        )
    &&& forall|k: int|
        0 <= k < before.turrets.len() && !spent(#[trigger] before.turrets@[k], frame as int)
            ==> after.turrets@.contains(spun(before.turrets@[k], frame as int))
    &&& after.bullets@.len() == before.bullets@.len() + shooters(
        before.turrets@,
        frame as int,
    ).len()
    &&& after.bullets@.subrange(0, before.bullets@.len() as int) == before.bullets@
    &&& forall|j: int|
        before.bullets@.len() <= j < after.bullets@.len() ==> shot_from(
            #[trigger] after.bullets@[j],
            before.turrets@,
            frame as int,
        )
    &&& forall|k: int|
        0 <= k < before.turrets.len() && shoots(#[trigger] before.turrets@[k], frame as int)
            ==> exists|j: int|
            before.bullets@.len() <= j < after.bullets@.len() && #[trigger] after.bullets@[j] == turret_shot(before.turrets@[k], frame as int)
    &&& forall|x: int, y: int|
        before.inside(x, y) ==> #[trigger] after.pass_at(x, y) == (if vacated(
            before.turrets@,
            frame as int,
            x,
            y,
        ) {
            before.tile_at(x, y) is Empty && before.enemy_at(x, y) is None && !after.has_turret(x, y)
        } else {
            before.pass_at(x, y)
        })
    &&& heard_after.len() == heard.len() + shooters(before.turrets@, frame as int).len()
    &&& heard_after.subrange(0, heard.len() as int) == heard
    &&& forall|j: int|
        heard.len() <= j < heard_after.len() ==> (#[trigger] heard_after[j]).sound
            == Sound::TurretShoot && heard_after[j].level == 30 && heard_after[j].near == 100
}

/// Lets one tick pass for the turrets, at `frame`. Each turret in turn
/// shoots if it is time to, and its sound is asked for, fading with the
/// distance to the player; then it is taken down if its time is over.
///
/// Afterwards the turrets are those from before that are not taken down,
/// each as it is after the tick. The bullets are those from before and then
/// the shots of the turrets, one for each turret that shoots, and as many
/// cues are asked for. A cell that a turret left can be entered if it is
/// empty and neither an enemy nor another turret stands on it.
pub fn update_turrets(map: &mut Arena, player: &Player, cues: &mut Vec<Cue>, frame: i32)
    requires
        old(map).wf(),
        old(map).hosts(player),
        0 <= frame <= TICK_LIMIT,
    ensures
        turrets_updated(
            old(map),
            player,
            old(cues)@,
            frame,
            final(map),
            final(cues)@,
        ),
{
    let mut i: usize = 0;
    let ghost mut origin: Seq<int> = Seq::new(map.turrets@.len(), |k: int| k);
    let ghost mut shot: Set<int> = Set::empty();
    proof {
        assert(tallied(old(map).turrets@, frame as int, shot, origin, 0)) by {
            assert forall|k: int|
                0 <= k < old(map).turrets.len() && shoots(
                    #[trigger] old(map).turrets@[k],
                    frame as int,
                ) implies shot.contains(k) || waits_in(origin, 0, k) by {
                assert(origin[k] == k);
            }
        }
        assert(cues@.subrange(0, cues@.len() as int) =~= cues@);
        assert(map.bullets@.subrange(0, map.bullets@.len() as int) =~= map.bullets@);
        assert forall|k: int| 0 <= k < old(map).turrets.len() implies origin.contains(k) by {
            assert(origin[k] == k);
        }
        assert forall|k: int|
            0 <= k < old(map).turrets.len() && shoots(#[trigger] old(map).turrets@[k], frame as int)
            implies (exists|j: int| 0 <= j < origin.len() && #[trigger] origin[j] == k) by {
            assert(origin[k] == k);
        }
    }
    while i < map.turrets.len()
        invariant
            i <= map.turrets.len(),
            forall|a: int, b: int| 0 <= a < b < origin.len() ==> origin[a] != origin[b],
            old(map).wf(),
            map.wf(),
            old(map).hosts(player),
            0 <= frame <= TICK_LIMIT,
            old(map).bullets_settled() ==> map.bullets_settled(),
            map.tiles == old(map).tiles,
            map.enemies == old(map).enemies,
            map.bombs == old(map).bombs,
            map.emps == old(map).emps,
            map.chests == old(map).chests,
            map.boss == old(map).boss,
            map.spawned == old(map).spawned,
            map.w == old(map).w,
            map.h == old(map).h,
            origin.len() == map.turrets.len(),
            forall|j: int| 0 <= j < origin.len() ==> 0 <= #[trigger] origin[j] < old(map).turrets.len(),
            map.bullets@.len() == old(map).bullets@.len() + shot.len(),
            cues@.len() == old(cues)@.len() + shot.len(),
            tallied(old(map).turrets@, frame as int, shot, origin, i as int),
            forall|j: int|
                0 <= j < i ==> #[trigger] map.turrets@[j] == spun(
                    old(map).turrets@[origin[j]],
                    frame as int,
                ) && !spent(old(map).turrets@[origin[j]], frame as int),
            forall|j: int|
                i <= j < map.turrets.len() ==> #[trigger] map.turrets@[j] == old(map).turrets@[origin[j]],
            forall|k: int|
                0 <= k < old(map).turrets.len() ==> origin.contains(k) || spent(
                    #[trigger] old(map).turrets@[k],
                    frame as int,
                ),
            forall|k: int|
                0 <= k < old(map).turrets.len() && shoots(
                    #[trigger] old(map).turrets@[k],
                    frame as int,
                ) ==> (exists|j: int| i <= j < origin.len() && #[trigger] origin[j] == k) || (exists|
                    j: int,
                |
                    old(map).bullets@.len() <= j < map.bullets@.len() && #[trigger] map.bullets@[j]
                        == turret_shot(old(map).turrets@[k], frame as int)),
            old(map).bullets@.len() <= map.bullets@.len(),
            map.bullets@.subrange(0, old(map).bullets@.len() as int) == old(map).bullets@,
            forall|j: int|
                old(map).bullets@.len() <= j < map.bullets@.len() ==> shot_from(
                    #[trigger] map.bullets@[j],
                    old(map).turrets@,
                    frame as int,
                ),
            forall|x: int, y: int|
                old(map).inside(x, y) ==> #[trigger] map.pass_at(x, y) == (if exists|k: int|
                    0 <= k < old(map).turrets.len() && !origin.contains(k) && (#[trigger] old(map).turrets@[k]).x == x && old(map).turrets@[k].y == y {
                    old(map).tile_at(x, y) is Empty && old(map).enemy_at(x, y) is None
                        && !map.has_turret(x, y)
                } else {
                    old(map).pass_at(x, y)
                }),
            old(cues)@.len() <= cues@.len(),
            cues@.subrange(0, old(cues)@.len() as int) == old(cues)@,
            forall|j: int|
                old(cues)@.len() <= j < cues@.len() ==> (#[trigger] cues@[j]).sound
                    == Sound::TurretShoot && cues@[j].level == 30 && cues@[j].near == 100,
        decreases map.turrets.len() - i,
    {
        let t: Turret = map.turrets[i];
        let ghost k0 = origin[i as int];
        let ghost cur = map.turrets@;
        let ghost cur_origin = origin;
        let ghost shots = map.bullets@;
        let ghost heard = cues@;
        let ghost m0 = *map;
        let ghost shot0 = shot;
        assert(t == old(map).turrets@[k0]);
        assert(t.wf() && map.interior(t.x as int, t.y as int));
        if frame >= t.last + t.cd {
            map.turrets[i] = Turret { last: frame, ..t };
            let (dx, dy) = step(t.direction);
            let d: i32 = dist(player.x, player.y, t.x, t.y);
            cues.push(Cue { sound: Sound::TurretShoot, level: 30, near: 100, dist: d });
            let bullet = Bullet {
                x: t.x,
                y: t.y,
                dx,
                dy,
                pierce: 0,
                fork: 0,
                dmg: t.dmg,
                last: 0,
                cd: BULLET_COOLDOWN,
                start: frame,
                hit: None,
            };
            assert(bullet == turret_shot(t, frame as int));
            map.bullets.push(bullet);
            proof {
                shot = shot0.insert(k0);
                assert(map.bullets@.subrange(0, old(map).bullets@.len() as int) =~= shots.subrange(
                    0,
                    old(map).bullets@.len() as int,
                ));
                assert(cues@.subrange(0, old(cues)@.len() as int) =~= heard.subrange(
                    0,
                    old(cues)@.len() as int,
                ));
                assert forall|j: int| 0 <= j < map.bullets.len() implies (#[trigger] map.bullets@[j]).wf()
                    && map.inside(map.bullets@[j].x as int, map.bullets@[j].y as int) by {
                    if j < shots.len() {
                        assert(map.bullets@[j] == shots[j]);
                    }
                }
                if old(map).bullets_settled() {
                    assert forall|j: int| 0 <= j < map.bullets.len() implies map.interior(
                        (#[trigger] map.bullets@[j]).x as int,
                        map.bullets@[j].y as int,
                    ) by {
                        if j < shots.len() {
                            assert(map.bullets@[j] == shots[j]);
                        }
                    }
                }
                assert forall|j: int|
                    old(map).bullets@.len() <= j < map.bullets@.len() implies shot_from(
                    #[trigger] map.bullets@[j],
                    old(map).turrets@,
                    frame as int,
                ) by {
                    if j < shots.len() {
                        assert(map.bullets@[j] == shots[j]);
                    } else {
                        assert(shoots(old(map).turrets@[k0], frame as int));
                    }
                }
                assert forall|j: int| 0 <= j < map.turrets.len() implies (#[trigger] map.turrets@[j]).wf()
                    && map.interior(map.turrets@[j].x as int, map.turrets@[j].y as int)
                    && !map.pass_at(map.turrets@[j].x as int, map.turrets@[j].y as int) by {
                    if j != i {
                        assert(map.turrets@[j] == cur[j]);
                    }
                    assert(!m0.pass_at(cur[j].x as int, cur[j].y as int));
                }
                assert forall|x: int, y: int| map.has_turret(x, y) == m0.has_turret(x, y) by {
                    if map.has_turret(x, y) {
                        let j = choose|j: int|
                            0 <= j < map.turrets.len() && (#[trigger] map.turrets@[j]).x == x
                                && map.turrets@[j].y == y;
                        assert(cur[j].x == x && cur[j].y == y);
                    }
                    if m0.has_turret(x, y) {
                        let j = choose|j: int|
                            0 <= j < cur.len() && (#[trigger] cur[j]).x == x && cur[j].y == y;
                        assert(map.turrets@[j].x == x && map.turrets@[j].y == y);
                    }
                }
                assert forall|k: int|
                    0 <= k < old(map).turrets.len() && shoots(
                        #[trigger] old(map).turrets@[k],
                        frame as int,
                    ) implies (exists|j: int| i <= j < origin.len() && #[trigger] origin[j] == k) || (
                exists|j: int|
                    old(map).bullets@.len() <= j < map.bullets@.len() && #[trigger] map.bullets@[j]
                        == turret_shot(old(map).turrets@[k], frame as int)) by {
                    if exists|j: int|
                        old(map).bullets@.len() <= j < shots.len() && #[trigger] shots[j]
                            == turret_shot(old(map).turrets@[k], frame as int) {
                        let j = choose|j: int|
                            old(map).bullets@.len() <= j < shots.len() && #[trigger] shots[j]
                                == turret_shot(old(map).turrets@[k], frame as int);
                        assert(map.bullets@[j] == shots[j]);
                    }
                }
            }
        }
        let ghost fired = *map;
        let ghost spun_t = map.turrets@[i as int];
        assert(spun_t == spun(t, frame as int));
        if frame >= t.start + t.duration {
            map.turrets.swap_remove(i);
            let free: bool = matches!(map.tile(t.x, t.y), Tile::Empty) && map.enemy(t.x, t.y).is_none()
                && !map.turret_at(t.x, t.y);
            map.set_pass(t.x, t.y, free);
            proof {
                origin = cur_origin.update(i as int, cur_origin.last()).drop_last();
                let last = cur.len() - 1;
                assert forall|a: int, b: int| 0 <= a < b < origin.len() implies origin[a]
                    != origin[b] by {
                    let a0 = if a == i { last } else { a };
                    let b0 = if b == i { last } else { b };
                    assert(origin[a] == cur_origin[a0] && origin[b] == cur_origin[b0]);
                }
                assert forall|j: int| 0 <= j < i implies #[trigger] map.turrets@[j] == spun(
                    old(map).turrets@[origin[j]],
                    frame as int,
                ) && !spent(old(map).turrets@[origin[j]], frame as int) by {
                    assert(map.turrets@[j] == cur[j]);
                    assert(origin[j] == cur_origin[j]);
                }
                lemma_tally_step(
                    old(map).turrets@,
                    frame as int,
                    shot0,
                    shot,
                    cur_origin,
                    origin,
                    i as int,
                    true,
                );
                assert forall|j: int| i <= j < map.turrets.len() implies #[trigger] map.turrets@[j]
                    == old(map).turrets@[origin[j]] by {
                    let j0 = if j == i { last } else { j };
                    assert(map.turrets@[j] == cur[j0]);
                    assert(origin[j] == cur_origin[j0]);
                }
                assert forall|j: int| 0 <= j < map.turrets.len() implies map.turrets@[j]
                    == fired.turrets@[if j == i { last } else { j }] by {}
                assert forall|j: int| 0 <= j < map.turrets.len() implies (#[trigger] map.turrets@[j]).wf()
                    && map.interior(map.turrets@[j].x as int, map.turrets@[j].y as int)
                    && !map.pass_at(map.turrets@[j].x as int, map.turrets@[j].y as int) by {
                    let j0 = if j == i { last } else { j };
                    assert(map.turrets@[j] == fired.turrets@[j0]);
                    assert(!fired.pass_at(fired.turrets@[j0].x as int, fired.turrets@[j0].y as int));
                }
                assert forall|k: int| 0 <= k < old(map).turrets.len() implies origin.contains(k)
                    || spent(#[trigger] old(map).turrets@[k], frame as int) by {
                    if k != k0 && cur_origin.contains(k) {
                        let n = choose|n: int| 0 <= n < cur_origin.len() && cur_origin[n] == k;
                        if n == last {
                            assert(origin[i as int] == k);
                        } else {
                            assert(origin[n] == k);
                        }
                    }
                }
                assert forall|k: int|
                    0 <= k < old(map).turrets.len() && shoots(
                        #[trigger] old(map).turrets@[k],
                        frame as int,
                    ) implies (exists|j: int| i <= j < origin.len() && #[trigger] origin[j] == k) || (
                exists|j: int|
                    old(map).bullets@.len() <= j < map.bullets@.len() && #[trigger] map.bullets@[j]
                        == turret_shot(old(map).turrets@[k], frame as int)) by {
                    if k == k0 {
                        assert(map.bullets@[map.bullets@.len() - 1] == turret_shot(t, frame as int));
                    } else if exists|j: int| i <= j < cur_origin.len() && #[trigger] cur_origin[j] == k {
                        let n = choose|n: int| i <= n < cur_origin.len() && #[trigger] cur_origin[n] == k;
                        if n == last {
                            assert(origin[i as int] == k);
                        } else {
                            assert(origin[n] == k);
                        }
                    }
                }
                assert forall|x: int, y: int| old(map).inside(x, y) implies #[trigger] map.pass_at(
                    x,
                    y,
                ) == (if exists|k: int|
                    0 <= k < old(map).turrets.len() && !origin.contains(k) && (#[trigger] old(map).turrets@[k]).x == x && old(map).turrets@[k].y == y {
                    old(map).tile_at(x, y) is Empty && old(map).enemy_at(x, y) is None
                        && !map.has_turret(x, y)
                } else {
                    old(map).pass_at(x, y)
                }) by {
                    lemma_gone(old(map).turrets@, cur_origin, origin, i as int, k0, x, y);
                    if !(x == t.x && y == t.y) {
                        assert(map.pass_at(x, y) == fired.pass_at(x, y));
                        assert(map.has_turret(x, y) == fired.has_turret(x, y)) by {
                            if map.has_turret(x, y) {
                                let j = choose|j: int|
                                    0 <= j < map.turrets.len() && (#[trigger] map.turrets@[j]).x
                                        == x && map.turrets@[j].y == y;
                                let j0 = if j == i { last } else { j };
                                assert(fired.turrets@[j0].x == x);
                            }
                            if fired.has_turret(x, y) {
                                let j = choose|j: int|
                                    0 <= j < fired.turrets@.len() && (
                                    #[trigger] fired.turrets@[j]).x == x && fired.turrets@[j].y
                                        == y;
                                assert(j != i);
                                if j == last {
                                    assert(map.turrets@[i as int].x == x);
                                } else {
                                    assert(map.turrets@[j].x == x);
                                }
                            }
                        }
                    } else {
                        assert(!cur_origin.contains(k0) || true);
                        assert(old(map).turrets@[k0].x == x && old(map).turrets@[k0].y == y);
                        assert(!origin.contains(k0)) by {
                            if origin.contains(k0) {
                                let n = choose|n: int| 0 <= n < origin.len() && origin[n] == k0;
                                let n0 = if n == i { last } else { n };
                                assert(cur_origin[n0] == k0);
                                assert(n0 != i);
                            }
                        }
                    }
                }
            }
            continue ;
        }
        proof {
            lemma_tally_step(
                old(map).turrets@,
                frame as int,
                shot0,
                shot,
                origin,
                origin,
                i as int,
                false,
            );
            assert forall|j: int| 0 <= j < i + 1 implies #[trigger] map.turrets@[j] == spun(
                old(map).turrets@[origin[j]],
                frame as int,
            ) && !spent(old(map).turrets@[origin[j]], frame as int) by {
                if j < i {
                    assert(map.turrets@[j] == cur[j]);
                } else {
                    assert(map.turrets@[j] == spun_t);
                    assert(origin[j] == k0);
                    assert(!spent(t, frame as int));
                }
            }
            assert forall|j: int| i + 1 <= j < map.turrets.len() implies #[trigger] map.turrets@[j]
                == old(map).turrets@[origin[j]] by {
                assert(map.turrets@[j] == cur[j]);
            }
            assert forall|k: int|
                0 <= k < old(map).turrets.len() && shoots(
                    #[trigger] old(map).turrets@[k],
                    frame as int,
                ) implies (exists|j: int| i + 1 <= j < origin.len() && #[trigger] origin[j] == k) || (
            exists|j: int|
                old(map).bullets@.len() <= j < map.bullets@.len() && #[trigger] map.bullets@[j]
                    == turret_shot(old(map).turrets@[k], frame as int)) by {
                if k == k0 {
                    assert(map.bullets@[map.bullets@.len() - 1] == turret_shot(t, frame as int));
                } else if exists|j: int| i <= j < origin.len() && #[trigger] origin[j] == k {
                    let n = choose|n: int| i <= n < origin.len() && #[trigger] origin[n] == k;
                    assert(n != i);
                }
            }
        }
        i = i + 1;
    }
    proof {
        assert(shot =~= shooters(old(map).turrets@, frame as int)) by {
            assert forall|k: int|
                shooters(old(map).turrets@, frame as int).contains(k) implies shot.contains(k) by {
                assert(shoots(old(map).turrets@[k], frame as int));
                assert(!waits_in(origin, i as int, k));
            }
        }
        assert forall|j: int| 0 <= j < map.turrets.len() implies spun_from(
            #[trigger] map.turrets@[j],
            old(map).turrets@,
            frame as int,
        ) by {
            assert(map.turrets@[j] == spun(old(map).turrets@[origin[j]], frame as int));
        }
        assert forall|k: int|
            0 <= k < old(map).turrets.len() && !spent(#[trigger] old(map).turrets@[k], frame as int)
            implies map.turrets@.contains(spun(old(map).turrets@[k], frame as int)) by {
            let n = choose|n: int| 0 <= n < origin.len() && origin[n] == k;
            assert(map.turrets@[n] == spun(old(map).turrets@[k], frame as int));
        }
        assert forall|x: int, y: int|
            (exists|k: int|
                0 <= k < old(map).turrets.len() && !origin.contains(k) && (#[trigger] old(map).turrets@[k]).x == x && old(map).turrets@[k].y == y) == vacated(
                old(map).turrets@,
                frame as int,
                x,
                y,
            ) by {
            if vacated(old(map).turrets@, frame as int, x, y) {
                let k = choose|k: int|
                    0 <= k < old(map).turrets.len() && spent(
                        #[trigger] old(map).turrets@[k],
                        frame as int,
                    ) && old(map).turrets@[k].x == x && old(map).turrets@[k].y == y;
                if origin.contains(k) {
                    let n = choose|n: int| 0 <= n < origin.len() && origin[n] == k;
                    assert(map.turrets@[n] == spun(old(map).turrets@[origin[n]], frame as int));
                }
            }
        }
    }
}

/// A turret numbered `k0` that leaves the list at position `i` is no longer
/// listed, and every other one stays listed.
proof fn lemma_gone(
    before: Seq<Turret>,
    cur_origin: Seq<int>,
    origin: Seq<int>,
    i: int,
    k0: int,
    x: int,
    y: int,
)
    requires
        0 <= i < cur_origin.len(),
        cur_origin[i] == k0,
        origin == cur_origin.update(i, cur_origin.last()).drop_last(),
    ensures
        forall|k: int| k != k0 ==> (origin.contains(k) == cur_origin.contains(k)),
{
    let last = cur_origin.len() - 1;
    assert forall|k: int| k != k0 implies (origin.contains(k) == cur_origin.contains(k)) by {
        if cur_origin.contains(k) {
            let n = choose|n: int| 0 <= n < cur_origin.len() && cur_origin[n] == k;
            if n == last {
                assert(origin[i] == k);
            } else {
                assert(origin[n] == k);
            }
        }
        if origin.contains(k) {
            let n = choose|n: int| 0 <= n < origin.len() && origin[n] == k;
            let n0 = if n == i { last } else { n };
            assert(cur_origin[n0] == k);
        }
    }
}

} // verus!
