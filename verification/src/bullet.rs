//! Bullets: the shot weapon, the flight of bullets and what they hit.

use crate::arena::Arena;
use crate::bomb::{pulled, Bomb};
use crate::chest::fresh_chest;
use crate::combat::{opened_for, resolve_kill};
use crate::dice::roll;
use crate::enemy::Enemy;
use crate::input::{aim, aim_of, step, step_of};
use crate::player::Player;
use crate::progress::Weapon;
use crate::sound::{Cue, Sound};
use crate::stat::{lemma_slots_differ, Stat, COUNT_LIMIT, SPAN_LIMIT, STAMP_LIMIT, TICK_LIMIT};
use crate::storage::Storage;
use crate::tile::{MovableWall, Tile, Wall};
use crate::util::{chance_met, clamp, passes};
use rand::rngs::StdRng;
use vstd::prelude::*;

verus! {

/// Ticks between two steps of an ordinary bullet.
pub const BULLET_COOLDOWN: i32 = 3;

/// A bullet in flight.
#[derive(Clone, Copy, Debug, PartialEq, Eq, Structural)]
pub struct Bullet {
    pub x: i32,
    pub y: i32,
    pub dx: i32,
    pub dy: i32,
    pub dmg: i8,
    pub pierce: i8,
    pub fork: i8,
    pub last: i32,
    pub cd: i32,
    pub start: i32,
    pub hit: Option<i32>,
}

/// Whether `(dx, dy)` is one step along an axis.
pub open spec fn is_axis_step(dx: int, dy: int) -> bool {
    (dx == 0 && (dy == 1 || dy == -1)) || (dy == 0 && (dx == 1 || dx == -1))
}

impl Bullet {
    /// The bullet flies along an axis, can still pierce, and its clocks are
    /// in range. `fork` may have fallen below zero, but never further than
    /// the pierces already spent allow.
    pub open spec fn wf(&self) -> bool {
        &&& is_axis_step(self.dx as int, self.dy as int)
        &&& 0 <= self.dmg
        &&& 0 <= self.pierce
        &&& self.fork - self.pierce >= -127
        &&& -SPAN_LIMIT <= self.last <= STAMP_LIMIT
        &&& 0 <= self.cd <= SPAN_LIMIT
        &&& -SPAN_LIMIT <= self.start <= STAMP_LIMIT
    }
}

/// Whether the player `p` can shoot at `frame` while holding the movement
/// keys `keys`: ammo is left, the cooldown since the last shot has passed,
/// and the key pressed last gives a direction.
pub open spec fn shot_ready(p: &Player, keys: Seq<u32>, hotkeys: Seq<u32>, frame: int) -> bool {
    &&& p.stat(Stat::Ammo) != 0
    &&& frame - p.stat(Stat::LastShot) >= p.stat(Stat::CdShot)
    &&& aim_of(keys, hotkeys) is Some
}

/// The bullet that the player `p` shoots at `frame` in the turret direction
/// `d`.
pub open spec fn shot_of(p: &Player, d: int, frame: int) -> Bullet {
    Bullet {
        x: p.x,
        y: p.y,
        dx: step_of(d).0 as i32,
        dy: step_of(d).1 as i32,
        dmg: p.stat(Stat::DmgAmmo) as i8,
        pierce: p.stat(Stat::PierceAmmo) as i8,
        fork: p.stat(Stat::ForkAmmo) as i8,
        last: 0,
        cd: BULLET_COOLDOWN,
        start: frame as i32,
        hit: None,
    }
}

/// Whether a shot spends ammo, given the roll `roll` out of a hundred and
/// the chance `keep` in percent to keep the ammo.
pub open spec fn spends(keep: int, roll: int) -> bool {
    !chance_met(roll, keep)
}

/// Whether a shot spends ammo, given the roll `roll` out of a hundred and
/// the chance `keep` in percent to keep the ammo.
pub fn is_spent(keep: i32, roll: i32) -> (b: bool)
    ensures
        b == spends(keep as int, roll as int),
{
    !passes(roll, keep)
}

/// Whether the state after is the state before with the player's shot at
/// `frame` checked, and `fired` tells whether a shot was fired. A player that
/// can shoot (see `shot_ready`) notes the tick, counts one use, spends one
/// unit of ammo unless it is kept, and a bullet flies from its cell in the
/// direction aimed at (see `shot_of`), for which the sound is asked.
/// Otherwise nothing changes.
pub open spec fn shot_checked(
    keys: &Vec<u32>,
    was: &Player,
    before: &Arena,
    storage: &Storage,
    heard: Seq<Cue>,
    frame: i32,
    now: &Player,
    after: &Arena,
    heard_after: Seq<Cue>,
    fired: bool,
) -> bool {
    &&& after.wf()
    &&& now.wf()
    &&& fired == shot_ready(was, keys@, storage.hotkeys@, frame as int)
    &&& !fired ==> *after == *before && *now == *was && heard_after
        == heard
    &&& fired ==> {
        &&& heard_after == heard.push(Cue::flat(Sound::UseAmmo, 25))
        &&& after.bullets@ == before.bullets@.push(
            shot_of(was, aim_of(keys@, storage.hotkeys@)->0, frame as int),
        )
        &&& before.bullets_settled() ==> after.bullets_settled()
        &&& after.tiles == before.tiles
        &&& after.pass == before.pass
        &&& after.enemies == before.enemies
        &&& after.bombs == before.bombs
        &&& after.turrets == before.turrets
        &&& after.emps == before.emps
        &&& after.chests == before.chests
        &&& after.boss == before.boss
        &&& after.spawned == before.spawned
        &&& after.w == before.w
        &&& after.h == before.h
        &&& exists|spent: int|
            {
                &&& (spent == 0 || spent == 1)
                &&& was.stat(Stat::NotConsumeAmmo) <= 0 ==> spent == 1
                &&& was.stat(Stat::NotConsumeAmmo) >= 100 ==> spent == 0
                &&& now.stats@ == #[trigger] was.stats@.update(
                    Stat::LastShot.slot(),
                    frame,
                ).update(Stat::Ammo.slot(), (was.stat(Stat::Ammo) - spent) as i32)
            }
        &&& now.progress.killed == was.progress.killed
        &&& now.progress.used@ == was.progress.used@.update(
            Weapon::Ammo.slot(),
            clamp(was.progress.used@[Weapon::Ammo.slot()] + 1, 0, COUNT_LIMIT as int) as i32,
        )
        &&& now.x == was.x
        &&& now.y == was.y
        &&& now.running == was.running
        &&& now.dead == was.dead
        &&& now.paused == was.paused
        &&& now.upgrading == was.upgrading
        &&& now.upgrades == was.upgrades
    }
}

/// Shoots at `frame` if the player can: notes the tick, counts one use,
/// spends one unit of ammo unless the roll keeps it, asks for the sound, and
/// lets a bullet fly from the player's cell in the direction aimed at.
/// Otherwise nothing happens. Returns whether a shot was fired.
pub fn check_shot(
    keys: &Vec<u32>,
    player: &mut Player,
    map: &mut Arena,
    storage: &Storage,
    cues: &mut Vec<Cue>,
    frame: i32,
    rng: &mut StdRng,
) -> (fired: bool)
    requires
        old(map).wf(),
        old(player).wf(),
        old(map).hosts(old(player)),
        storage.wf(),
        0 <= frame <= TICK_LIMIT,
    ensures
        shot_checked(
            keys,
            old(player),
            old(map),
            storage,
            old(cues)@,
            frame,
            final(player),
            final(map),
            final(cues)@,
            fired,
        ),
{
    proof {
        assert(Stat::Ammo.least() <= player.stat(Stat::Ammo) <= Stat::Ammo.most());
        assert(Stat::LastShot.least() <= player.stat(Stat::LastShot) <= Stat::LastShot.most());
        assert(Stat::CdShot.least() <= player.stat(Stat::CdShot) <= Stat::CdShot.most());
        assert(Stat::DmgAmmo.least() <= player.stat(Stat::DmgAmmo) <= Stat::DmgAmmo.most());
        assert(Stat::PierceAmmo.least() <= player.stat(Stat::PierceAmmo) <= Stat::PierceAmmo.most());
        assert(Stat::ForkAmmo.least() <= player.stat(Stat::ForkAmmo) <= Stat::ForkAmmo.most());
        lemma_slots_differ(Stat::LastShot, Stat::Ammo);
    }
    if player.get(Stat::Ammo) == 0 || frame - player.get(Stat::LastShot) < player.get(Stat::CdShot) {
        return false;
    }
    let d: usize = match aim(keys, &storage.hotkeys) {
        Some(d) => d,
        None => {
            return false;
        },
    };
    let (dx, dy) = step(d);
    let ammo: i32 = player.get(Stat::Ammo);
    let keep: i32 = player.get(Stat::NotConsumeAmmo);
    let bullet = Bullet {
        x: player.x,
        y: player.y,
        dx,
        dy,
        dmg: player.get(Stat::DmgAmmo) as i8,
        pierce: player.get(Stat::PierceAmmo) as i8,
        fork: player.get(Stat::ForkAmmo) as i8,
        last: 0,
        cd: BULLET_COOLDOWN,
        start: frame,
        hit: None,
    };
    player.set(Stat::LastShot, frame);
    player.note_use(Weapon::Ammo);
    let mut spent: i32 = 0;
    if is_spent(keep, roll(rng, 0, 100)) {
        spent = 1;
    }
    player.set(Stat::Ammo, ammo - spent);
    cues.push(Cue { sound: Sound::UseAmmo, level: 25, near: 0, dist: 0 });
    let ghost cur = map.bullets@;
    map.bullets.push(bullet);
    proof {
        assert(player.stats@ == old(player).stats@.update(Stat::LastShot.slot(), frame).update(
            Stat::Ammo.slot(),
            (old(player).stat(Stat::Ammo) - spent) as i32,
        ));
        assert forall|j: int| 0 <= j < map.bullets.len() implies (#[trigger] map.bullets@[j]).wf()
            && map.inside(map.bullets@[j].x as int, map.bullets@[j].y as int) by {
            if j < cur.len() {
                assert(map.bullets@[j] == cur[j]);
            }
        }
        if old(map).bullets_settled() {
            assert forall|j: int| 0 <= j < map.bullets.len() implies map.interior(
                (#[trigger] map.bullets@[j]).x as int,
                map.bullets@[j].y as int,
            ) by {
                if j < cur.len() {
                    assert(map.bullets@[j] == cur[j]);
                }
            }
        }
    }
    true
}

/// Whether the bullet `b` is due for a step at `frame`.
pub open spec fn due(b: Bullet, frame: int) -> bool {
    frame >= b.last + b.cd
}

/// The bullet `b` after the tick `frame`: one step further if it was due.
pub open spec fn flown(b: Bullet, frame: int) -> Bullet {
    if due(b, frame) {
        Bullet { last: frame as i32, x: (b.x + b.dx) as i32, y: (b.y + b.dy) as i32, ..b }
    } else {
        b
    }
}

/// Position of the first of the bombs `bombs` from position `k` on that
/// lies on the cell `(x, y)`, if there is one.
pub open spec fn first_bomb(bombs: Seq<Bomb>, x: int, y: int, k: int) -> Option<int>
    decreases bombs.len() - k,
{
    if k < 0 || k >= bombs.len() {
        None
    } else if bombs[k].x == x && bombs[k].y == y {
        Some(k)
    } else {
        first_bomb(bombs, x, y, k + 1)
    }
}

/// The bomb `b` set off at `frame`: its end is pulled forward to 20 ticks
/// from `frame`.
pub open spec fn set_off(b: Bomb, frame: int) -> Bomb {
    Bomb { start: (frame + 20 - b.duration) as i32, ..b }
}

/// The bullets and bombs after the bullets from position `i` on had their
/// turn to fly at `frame`. A bullet that is not due stays as it is. A due
/// bullet that steps onto a cell whose first bomb is armed sets that bomb
/// off and leaves, and the last bullet takes its place and has its turn
/// next. Any other due bullet takes its step.
pub open spec fn flight(bullets: Seq<Bullet>, bombs: Seq<Bomb>, i: int, frame: int) -> (
    Seq<Bullet>,
    Seq<Bomb>,
)
    decreases bullets.len() - i,
{
    if i < 0 || i >= bullets.len() {
        (bullets, bombs)
    } else if !due(bullets[i], frame) {
        flight(bullets, bombs, i + 1, frame)
    } else {
        let m = flown(bullets[i], frame);
        match first_bomb(bombs, m.x as int, m.y as int, 0) {
            Some(j) if bombs[j].armed(frame) => flight(
                bullets.update(i, bullets.last()).drop_last(),
                bombs.update(j, set_off(bombs[j], frame)),
                i,
                frame,
            ),
            _ => flight(bullets.update(i, m), bombs, i + 1, frame),
        }
    }
}

/// Position of the first bomb on the cell `(x, y)`, if there is one.
pub fn first_bomb_at(map: &Arena, x: i32, y: i32) -> (r: Option<usize>)
    ensures
        r matches Some(i) ==> i < map.bombs.len() && map.bombs@[i as int].x == x
            && map.bombs@[i as int].y == y && forall|k: int|
            0 <= k < i ==> !((#[trigger] map.bombs@[k]).x == x && map.bombs@[k].y == y),
        r is None ==> !map.has_bomb(x as int, y as int),
        match r {
            Some(i) => first_bomb(map.bombs@, x as int, y as int, 0) == Some(i as int),
            None => first_bomb(map.bombs@, x as int, y as int, 0) is None,
        },
{
    let mut i: usize = 0;
    while i < map.bombs.len()
        invariant
            i <= map.bombs.len(),
            forall|k: int| 0 <= k < i ==> !((#[trigger] map.bombs@[k]).x == x && map.bombs@[k].y == y),
            first_bomb(map.bombs@, x as int, y as int, 0) == first_bomb(
                map.bombs@,
                x as int,
                y as int,
                i as int,
            ),
        decreases map.bombs.len() - i,
    {
        if map.bombs[i].x == x && map.bombs[i].y == y {
            return Some(i);
        }
        i = i + 1;
    }
    None
}

/// Whether the bullet `m` is what one of the bullets `before` is after the
/// tick `frame`.
pub open spec fn flew_from(m: Bullet, before: Seq<Bullet>, frame: int) -> bool {
    exists|k: int| 0 <= k < before.len() && m == flown(#[trigger] before[k], frame)
}

/// Whether the arena `after` is `before` with the bullets flown at `frame`:
/// the bullets and the bombs are what `flight` says, and nothing else
/// differs.
pub open spec fn bullets_flown(
    before: &Arena,
    frame: i32,
    after: &Arena,
) -> bool {
    &&& after.wf()
    &&& after.tiles == before.tiles
    &&& after.pass == before.pass
    &&& after.enemies == before.enemies
    &&& after.turrets == before.turrets
    &&& after.emps == before.emps
    &&& after.chests == before.chests
    &&& after.boss == before.boss
    &&& after.spawned == before.spawned
    &&& after.w == before.w
    &&& after.h == before.h
    &&& (after.bullets@, after.bombs@) == flight(
        before.bullets@,
        before.bombs@,
        0,
        frame as int,
    )
    &&& after.bullets.len() <= before.bullets.len()
    &&& forall|j: int|
        0 <= j < after.bullets.len() ==> flew_from(
            #[trigger] after.bullets@[j],
            before.bullets@,
            frame as int,
        )
    &&& forall|k: int|
        0 <= k < before.bullets.len() && !(due(#[trigger] before.bullets@[k], frame as int)
            && before.has_bomb(
            flown(before.bullets@[k], frame as int).x as int,
            flown(before.bullets@[k], frame as int).y as int,
        )) ==> after.bullets@.contains(flown(before.bullets@[k], frame as int))
    &&& after.bombs.len() == before.bombs.len()
    &&& forall|j: int|
        0 <= j < before.bombs.len() ==> pulled(
            #[trigger] after.bombs@[j],
            before.bombs@[j],
            frame as int,
        ) && (after.bombs@[j] != before.bombs@[j] ==> exists|k: int|
            0 <= k < before.bullets.len() && due(#[trigger] before.bullets@[k], frame as int)
                && flown(before.bullets@[k], frame as int).x == before.bombs@[j].x
                && flown(before.bullets@[k], frame as int).y == before.bombs@[j].y)
}

/// Lets the bullets fly at `frame`: every bullet that is due takes one
/// step. A bullet that steps onto a bomb that is still armed sets it off
/// early, by pulling its end forward to 20 ticks from `frame`, and is gone.
///
/// Afterwards the bullets and the bombs are what `flight` says. So every
/// bullet is what a bullet from before is after the tick, and every bullet
/// from before that did not step onto a bomb is still there; every bomb is
/// as it was or pulled forward, and pulled forward only if a bullet stepped
/// onto it.
pub fn update_bullets(map: &mut Arena, frame: i32)
    requires
        old(map).wf(),
        old(map).bullets_settled(),
        0 <= frame <= TICK_LIMIT,
    ensures
        bullets_flown(
            old(map),
            frame,
            final(map),
        ),
{
    let mut i: usize = 0;
    let ghost mut origin: Seq<int> = Seq::new(map.bullets@.len(), |k: int| k);
    proof {
        assert forall|k: int| 0 <= k < old(map).bullets.len() implies origin.contains(k) by {
            assert(origin[k] == k);
        }
    }
    while i < map.bullets.len()
        invariant
            i <= map.bullets.len(),
            old(map).wf(),
            old(map).bullets_settled(),
            map.shaped(),
            map.cells_ok(),
            map.chests_ok(),
            map.turrets_ok(),
            map.emps_ok(),
            map.counters_ok(),
            map.bombs_ok(),
            0 <= frame <= TICK_LIMIT,
            map.tiles == old(map).tiles,
            map.pass == old(map).pass,
            map.enemies == old(map).enemies,
            map.turrets == old(map).turrets,
            map.emps == old(map).emps,
            map.chests == old(map).chests,
            map.boss == old(map).boss,
            map.spawned == old(map).spawned,
            map.w == old(map).w,
            map.h == old(map).h,
            origin.len() == map.bullets.len(),
            map.bullets.len() <= old(map).bullets.len(),
            flight(map.bullets@, map.bombs@, i as int, frame as int) == flight(
                old(map).bullets@,
                old(map).bombs@,
                0,
                frame as int,
            ),
            forall|j: int| 0 <= j < origin.len() ==> 0 <= #[trigger] origin[j] < old(map).bullets.len(),
            forall|j: int|
                0 <= j < i ==> #[trigger] map.bullets@[j] == flown(
                    old(map).bullets@[origin[j]],
                    frame as int,
                ),
            forall|j: int|
                i <= j < map.bullets.len() ==> #[trigger] map.bullets@[j] == old(map).bullets@[origin[j]],
            forall|j: int|
                0 <= j < i ==> (#[trigger] map.bullets@[j]).wf() && map.inside(
                    map.bullets@[j].x as int,
                    map.bullets@[j].y as int,
                ),
            forall|k: int|
                0 <= k < old(map).bullets.len() ==> origin.contains(k) || (due(
                    #[trigger] old(map).bullets@[k],
                    frame as int,
                ) && old(map).has_bomb(
                    flown(old(map).bullets@[k], frame as int).x as int,
                    flown(old(map).bullets@[k], frame as int).y as int,
                )),
            map.bombs.len() == old(map).bombs.len(),
            forall|j: int|
                0 <= j < old(map).bombs.len() ==> pulled(
                    #[trigger] map.bombs@[j],
                    old(map).bombs@[j],
                    frame as int,
                ) && (map.bombs@[j] != old(map).bombs@[j] ==> exists|k: int|
                    0 <= k < old(map).bullets.len() && due(
                        #[trigger] old(map).bullets@[k],
                        frame as int,
                    ) && flown(old(map).bullets@[k], frame as int).x == old(map).bombs@[j].x
                        && flown(old(map).bullets@[k], frame as int).y == old(map).bombs@[j].y),
        decreases map.bullets.len() - i,
    {
        let b: Bullet = map.bullets[i];
        let ghost k0 = origin[i as int];
        assert(b == old(map).bullets@[k0]);
        assert(b.wf() && old(map).interior(b.x as int, b.y as int));
        if frame < b.last + b.cd {
            i = i + 1;
            continue ;
        }
        let m = Bullet { last: frame, x: b.x + b.dx, y: b.y + b.dy, ..b };
        assert(m == flown(b, frame as int));
        let ghost cur = map.bullets@;
        let ghost cur_origin = origin;
        match first_bomb_at(map, m.x, m.y) {
            Some(j) => {
                let bomb: Bomb = map.bombs[j];
                assert(bomb.wf() && map.interior(bomb.x as int, bomb.y as int));
                assert(old(map).bombs@[j as int].x == bomb.x && old(map).bombs@[j as int].y == bomb.y);
                assert(old(map).has_bomb(m.x as int, m.y as int));
                if frame < bomb.start + bomb.duration - 20 {
                    let ghost cur_bombs = map.bombs@;
                    map.bombs[j] = Bomb { start: frame + 20 - bomb.duration, ..bomb };
                    map.bullets.swap_remove(i);
                    proof {
                        origin = cur_origin.update(i as int, cur_origin.last()).drop_last();
                        assert forall|n: int| 0 <= n < map.bombs.len() implies (
                        #[trigger] map.bombs@[n]).wf() && map.interior(
                            map.bombs@[n].x as int,
                            map.bombs@[n].y as int,
                        ) by {
                            if n != j {
                                assert(map.bombs@[n] == cur_bombs[n]);
                            }
                        }
                        assert forall|k: int| 0 <= k < old(map).bullets.len() implies origin.contains(k)
                            || (due(#[trigger] old(map).bullets@[k], frame as int) && old(map).has_bomb(
                            flown(old(map).bullets@[k], frame as int).x as int,
                            flown(old(map).bullets@[k], frame as int).y as int,
                        )) by {
                            if k != k0 && cur_origin.contains(k) {
                                let n = choose|n: int| 0 <= n < cur_origin.len() && cur_origin[n] == k;
                                if n == cur_origin.len() - 1 {
                                    assert(origin[i as int] == k);
                                } else {
                                    assert(origin[n] == k);
                                }
                            }
                        }
                        assert forall|n: int|
                            0 <= n < old(map).bombs.len() implies pulled(
                            #[trigger] map.bombs@[n],
                            old(map).bombs@[n],
                            frame as int,
                        ) && (map.bombs@[n] != old(map).bombs@[n] ==> exists|k: int|
                            0 <= k < old(map).bullets.len() && due(
                                #[trigger] old(map).bullets@[k],
                                frame as int,
                            ) && flown(old(map).bullets@[k], frame as int).x == old(map).bombs@[n].x
                                && flown(old(map).bullets@[k], frame as int).y == old(map).bombs@[n].y) by {
                            if n == j {
                                assert(pulled(cur_bombs[n], old(map).bombs@[n], frame as int));
                                assert(due(old(map).bullets@[k0], frame as int));
                            } else {
                                assert(map.bombs@[n] == cur_bombs[n]);
                            }
                        }
                    }
                    continue ;
                }
            },
            None => {},
        }
        map.bullets[i] = m;
        proof {
            assert forall|j: int| i < j < map.bullets.len() implies #[trigger] map.bullets@[j] == old(map).bullets@[origin[j]] by {
                assert(map.bullets@[j] == cur[j]);
            }
        }
        i = i + 1;
    }
    proof {
        assert forall|j: int| 0 <= j < map.bullets.len() implies flew_from(
            #[trigger] map.bullets@[j],
            old(map).bullets@,
            frame as int,
        ) by {
            assert(map.bullets@[j] == flown(old(map).bullets@[origin[j]], frame as int));
        }
        assert forall|k: int|
            0 <= k < old(map).bullets.len() && !(due(#[trigger] old(map).bullets@[k], frame as int)
                && old(map).has_bomb(
                flown(old(map).bullets@[k], frame as int).x as int,
                flown(old(map).bullets@[k], frame as int).y as int,
            )) implies map.bullets@.contains(flown(old(map).bullets@[k], frame as int)) by {
            let n = choose|n: int| 0 <= n < origin.len() && origin[n] == k;
            assert(map.bullets@[n] == flown(old(map).bullets@[k], frame as int));
        }
    }
}

/// Two to the power of `n`.
pub open spec fn pow2(n: nat) -> nat
    decreases n,
{
    if n == 0 {
        1
    } else {
        2 * pow2((n - 1) as nat)
    }
}

/// The most bullets that the bullet `b` can still stand for while the
/// bullets are checked: itself, and every bullet that it may fork into.
pub open spec fn weight(b: Bullet) -> int {
    pow2((if b.fork > 0 { b.fork as int } else { 0 } + 1) as nat) - 1
}

/// The weight of the bullets `s` from position `i` on.
pub open spec fn load(s: Seq<Bullet>, i: int) -> int
    decreases s.len() - i,
{
    if i < 0 || i >= s.len() {
        0
    } else {
        weight(s[i]) + load(s, i + 1)
    }
}

/// Every bullet weighs at least one.
proof fn lemma_weight(b: Bullet)
    ensures
        weight(b) >= 1,
{
    lemma_pow2_pos((if b.fork > 0 { b.fork as int } else { 0 } + 1) as nat);
}

/// Powers of two are positive.
proof fn lemma_pow2_pos(n: nat)
    ensures
        pow2(n) >= 1,
        n >= 1 ==> pow2(n) >= 2,
    decreases n,
{
    if n > 0 {
        lemma_pow2_pos((n - 1) as nat);
    }
}

/// A load is never negative.
proof fn lemma_load_nonneg(s: Seq<Bullet>, i: int)
    ensures
        load(s, i) >= 0,
    decreases s.len() - i,
{
    if 0 <= i < s.len() {
        lemma_weight(s[i]);
        lemma_load_nonneg(s, i + 1);
    }
}

/// Bullets that agree from position `i` on weigh the same from there on.
proof fn lemma_load_agree(s1: Seq<Bullet>, s2: Seq<Bullet>, i: int)
    requires
        0 <= i,
        s1.len() == s2.len(),
        forall|j: int| i <= j < s1.len() ==> s1[j] == s2[j],
    ensures
        load(s1, i) == load(s2, i),
    decreases s1.len() - i,
{
    if i < s1.len() {
        lemma_load_agree(s1, s2, i + 1);
    }
}

/// The last bullet counts with its weight.
proof fn lemma_load_drop_last(s: Seq<Bullet>, i: int)
    requires
        0 <= i < s.len(),
    ensures
        load(s, i) == load(s.drop_last(), i) + weight(s.last()),
    decreases s.len() - i,
{
    if i < s.len() - 1 {
        lemma_load_drop_last(s, i + 1);
        assert(s.drop_last()[i] == s[i]);
    } else {
        assert(load(s, i + 1) == 0);
        assert(load(s.drop_last(), i) == 0);
    }
}

/// A bullet appended adds its weight.
proof fn lemma_load_push(s: Seq<Bullet>, b: Bullet, i: int)
    requires
        0 <= i <= s.len(),
    ensures
        load(s.push(b), i) == load(s, i) + weight(b),
{
    let t = s.push(b);
    assert(t.drop_last() =~= s);
    assert(t.last() == b);
    lemma_load_drop_last(t, i);
}

/// A bullet removed from position `i`, with the last one put in its place,
/// takes its weight away.
proof fn lemma_load_swap_remove(s: Seq<Bullet>, i: int)
    requires
        0 <= i < s.len(),
    ensures
        load(s.update(i, s.last()).drop_last(), i) == load(s, i) - weight(s[i]),
{
    let u = s.update(i, s.last());
    if i == s.len() - 1 {
        assert(load(s, i + 1) == 0);
        assert(load(u.drop_last(), i) == 0);
    } else {
        lemma_load_agree(u, s, i + 1);
        lemma_load_drop_last(u, i);
        assert(u.last() == s.last());
        assert(u[i] == s.last());
    }
}

/// A bullet replaced at position `i` leaves the weight behind it alone.
proof fn lemma_load_update(s: Seq<Bullet>, i: int, b: Bullet)
    requires
        0 <= i < s.len(),
    ensures
        load(s.update(i, b), i + 1) == load(s, i + 1),
        load(s, i) == weight(s[i]) + load(s, i + 1),
{
    lemma_load_agree(s.update(i, b), s, i + 1);
}

/// The bullet `b` after it hit the enemy numbered `uid`: it remembers the
/// enemy, and can pierce and fork once less.
pub open spec fn pierced(b: Bullet, uid: int) -> Bullet {
    Bullet { hit: Some(uid as i32), pierce: (b.pierce - 1) as i8, fork: (b.fork - 1) as i8, ..b }
}

/// The bullet that forks off `b` at `frame` to the side `k`, which is `1`
/// or `-1`: it starts one step beside `b`, across its line of flight, and
/// flies away from it. `b` is the bullet after the hit.
pub open spec fn fork_child(b: Bullet, frame: int, k: int) -> Bullet {
    let ax: int = if b.dx == 0 { 1 } else { 0 };
    let ay: int = if b.dx == 0 { 0 } else { 1 };
    Bullet {
        x: (b.x + k * ax) as i32,
        y: (b.y + k * ay) as i32,
        dx: (ax * k) as i32,
        dy: (ay * k) as i32,
        dmg: b.dmg,
        pierce: 0,
        fork: b.fork,
        last: frame as i32,
        cd: BULLET_COOLDOWN,
        start: frame as i32,
        hit: None,
    }
}

/// The bullets `s` after the bullet at position `i` hit the enemy numbered
/// `uid` at `frame`: if it can still fork, its two children are appended;
/// then it is removed if its pierces are spent, with the last bullet put in
/// its place, and else replaced by what the hit made of it.
pub open spec fn after_hit(s: Seq<Bullet>, i: int, uid: int, frame: int) -> Seq<Bullet> {
    let b = pierced(s[i], uid);
    let grown = if b.fork >= 0 {
        s.push(fork_child(b, frame, -1)).push(fork_child(b, frame, 1))
    } else {
        s
    };
    if b.pierce < 0 {
        grown.update(i, grown.last()).drop_last()
    } else {
        grown.update(i, b)
    }
}

/// The enemy that the bullet `b` hits on its cell in `map`: the one
/// standing there, unless `b` hit it already.
pub open spec fn target_of(map: &Arena, b: Bullet) -> Option<Enemy> {
    match map.enemy_at(b.x as int, b.y as int) {
        Some(e) => if b.hit == Some(e.uid) {
            None
        } else {
            Some(e)
        },
        None => None,
    }
}

/// A hit makes the load lighter.
proof fn lemma_hit_lightens(s: Seq<Bullet>, i: int, uid: int, frame: int)
    requires
        0 <= i < s.len(),
        s[i].wf(),
    ensures
        pierced(s[i], uid).pierce < 0 ==> load(after_hit(s, i, uid, frame), i) < load(s, i),
        pierced(s[i], uid).pierce >= 0 ==> load(after_hit(s, i, uid, frame), i + 1) < load(s, i),
{
    let b0 = s[i];
    let b = pierced(b0, uid);
    lemma_weight(b0);
    let c1 = fork_child(b, frame, -1);
    let c2 = fork_child(b, frame, 1);
    let grown = if b.fork >= 0 { s.push(c1).push(c2) } else { s };
    if b.fork >= 0 {
        lemma_load_push(s, c1, i);
        lemma_load_push(s.push(c1), c2, i);
        lemma_load_push(s, c1, i + 1);
        lemma_load_push(s.push(c1), c2, i + 1);
        assert(weight(c1) == weight(c2));
        assert(pow2((b0.fork + 1) as nat) == 2 * pow2(b0.fork as nat));
        assert(weight(c1) + weight(c2) < weight(b0));
    }
    assert(grown[i] == b0);
    lemma_load_update(s, i, b);
    lemma_load_update(grown, i, b);
    if b.pierce < 0 {
        lemma_load_swap_remove(grown, i);
    }
}

/// Whether the enemy slot `now` is the slot `was` after some damage: the
/// same enemy with no more hit points than it had, or nobody.
pub open spec fn enemy_worn(was: Option<Enemy>, now: Option<Enemy>) -> bool {
    now matches Some(e2) ==> was matches Some(e) && e2 == (Enemy { hp: e2.hp, ..e }) && e2.hp
        <= e.hp
}

/// Whether the tile `now` is the tile `was` after bullets were checked at
/// `frame`: a wall with no fewer bullets lodged in it, the same chest, or an
/// empty tile that stayed empty or took a chest spawned at `frame`.
pub open spec fn tile_worn(was: Tile, now: Tile, frame: int) -> bool {
    match was {
        Tile::Wall(w) => now matches Tile::Wall(w2) && w.bullets <= w2.bullets,
        Tile::MovableWall(w) => now matches Tile::MovableWall(w2) && w.bullets <= w2.bullets,
        Tile::Chest(c) => now == was,
        Tile::Empty => now is Empty || (now matches Tile::Chest(c) && c == fresh_chest(frame, c.ty)),
    }
}

/// Whether the arena `after` is `before` after bullets were checked at
/// `frame`: enemies and tiles are worn, a cell whose enemy died can be
/// entered if it is empty and no turret stands on it, the chest queue only
/// grew, and bombs, turrets, pulse records and the enemy numbering are
/// untouched.
pub open spec fn aged(before: &Arena, after: &Arena, frame: int) -> bool {
    &&& forall|x: int, y: int|
        before.inside(x, y) ==> enemy_worn(before.enemy_at(x, y), #[trigger] after.enemy_at(x, y))
    &&& forall|x: int, y: int|
        before.inside(x, y) ==> tile_worn(before.tile_at(x, y), #[trigger] after.tile_at(x, y), frame)
    &&& forall|x: int, y: int|
        before.inside(x, y) ==> #[trigger] after.pass_at(x, y) == (if before.enemy_at(x, y) is Some
            && after.enemy_at(x, y) is None {
            after.tile_at(x, y) is Empty && !before.has_turret(x, y)
        } else {
            before.pass_at(x, y)
        })
    &&& before.chests@.len() <= after.chests@.len()
    &&& after.chests@.subrange(0, before.chests@.len() as int) == before.chests@
    &&& after.bombs == before.bombs
    &&& after.turrets == before.turrets
    &&& after.emps == before.emps
    &&& after.spawned == before.spawned
    &&& after.w == before.w
    &&& after.h == before.h
    &&& after.boss == before.boss || after.boss == (crate::arena::Boss { pos: None, ..before.boss })
}

/// Whether the player `now` is the player `was` after kills were settled:
/// the kills and the score did not fall, a level-up session may have been
/// opened with the game paused, and nothing else differs.
pub open spec fn gained(was: &Player, now: &Player) -> bool {
    &&& now.x == was.x
    &&& now.y == was.y
    &&& now.running == was.running
    &&& now.dead == was.dead
    &&& now.upgrades == was.upgrades
    &&& now.progress.used == was.progress.used
    &&& was.progress.killed <= now.progress.killed
    &&& was.stat(Stat::Score) <= now.stat(Stat::Score)
    &&& now.stats@ == was.stats@.update(Stat::Score.slot(), now.stat(Stat::Score) as i32)
    &&& was.paused ==> now.paused
    &&& (now.paused == was.paused && now.upgrading == was.upgrading) || (now.paused
        && now.upgrading is Some && opened_for(&now.upgrading->0, was))
}

/// Wear after wear is wear.
proof fn lemma_aged_twice(a: &Arena, b: &Arena, c: &Arena, frame: int)
    requires
        a.wf(),
        b.wf(),
        c.wf(),
        aged(a, b, frame),
        aged(b, c, frame),
    ensures
        aged(a, c, frame),
{
    assert forall|x: int, y: int| a.inside(x, y) implies enemy_worn(
        a.enemy_at(x, y),
        #[trigger] c.enemy_at(x, y),
    ) by {
        assert(enemy_worn(a.enemy_at(x, y), b.enemy_at(x, y)));
        assert(enemy_worn(b.enemy_at(x, y), c.enemy_at(x, y)));
    }
    assert forall|x: int, y: int| a.inside(x, y) implies tile_worn(
        a.tile_at(x, y),
        #[trigger] c.tile_at(x, y),
        frame,
    ) by {
        assert(tile_worn(a.tile_at(x, y), b.tile_at(x, y), frame));
        assert(tile_worn(b.tile_at(x, y), c.tile_at(x, y), frame));
    }
    assert forall|x: int, y: int| a.inside(x, y) implies #[trigger] c.pass_at(x, y) == (if a.enemy_at(
        x,
        y,
    ) is Some && c.enemy_at(x, y) is None {
        c.tile_at(x, y) is Empty && !a.has_turret(x, y)
    } else {
        a.pass_at(x, y)
    }) by {
        assert(enemy_worn(a.enemy_at(x, y), b.enemy_at(x, y)));
        assert(enemy_worn(b.enemy_at(x, y), c.enemy_at(x, y)));
        assert(tile_worn(b.tile_at(x, y), c.tile_at(x, y), frame));
        assert(b.pass_at(x, y) == (if a.enemy_at(x, y) is Some && b.enemy_at(x, y) is None {
            b.tile_at(x, y) is Empty && !a.has_turret(x, y)
        } else {
            a.pass_at(x, y)
        }));
        assert(b.has_turret(x, y) == a.has_turret(x, y));
        if a.enemy_at(x, y) is Some && b.enemy_at(x, y) is None {
            if b.tile_at(x, y) is Empty && !(c.tile_at(x, y) is Empty) {
                assert(c.pass_at(x, y) ==> c.tile_at(x, y) is Empty);
            }
        }
    }
    assert(c.chests@.subrange(0, a.chests@.len() as int) =~= a.chests@) by {
        assert forall|k: int| 0 <= k < a.chests@.len() implies c.chests@[k] == a.chests@[k] by {
            assert(b.chests@.subrange(0, a.chests@.len() as int)[k] == b.chests@[k]);
            assert(c.chests@.subrange(0, b.chests@.len() as int)[k] == c.chests@[k]);
        }
    }
}

/// Gain after gain is gain.
proof fn lemma_gained_twice(a: &Player, b: &Player, c: &Player)
    requires
        a.wf(),
        gained(a, b),
        gained(b, c),
    ensures
        gained(a, c),
{
    assert(c.stats@ =~= a.stats@.update(Stat::Score.slot(), c.stat(Stat::Score) as i32));
    if c.upgrading is Some && opened_for(&c.upgrading->0, b) {
        let u = c.upgrading->0;
        assert forall|i: int| 0 <= i < u.upgrades.len() implies !(#[trigger] u.upgrades@[i]).capped(
            a,
        ) by {
            assert(!u.upgrades@[i].capped(b));
        }
    }
}

/// The count of bullets lodged in a wall after one more hit it; the count
/// stops at the most a signed byte holds.
pub open spec fn lodged_more(n: int) -> int {
    if n < 127 {
        n + 1
    } else {
        127
    }
}

/// The wall `t` with one more bullet lodged in it.
pub open spec fn lodge(t: Tile) -> Tile {
    match t {
        Tile::Wall(_) => Tile::Wall(Wall { bullets: lodged_more(t.lodged()) as i8 }),
        Tile::MovableWall(_) => Tile::MovableWall(MovableWall { bullets: lodged_more(t.lodged()) as i8 }),
        _ => t,
    }
}

/// Whether the arena `after` differs from `before` in the bullets at most.
pub open spec fn same_but_bullets(before: &Arena, after: &Arena) -> bool {
    &&& after.tiles == before.tiles
    &&& after.pass == before.pass
    &&& after.enemies == before.enemies
    &&& after.bombs == before.bombs
    &&& after.turrets == before.turrets
    &&& after.emps == before.emps
    &&& after.chests == before.chests
    &&& after.boss == before.boss
    &&& after.spawned == before.spawned
    &&& after.w == before.w
    &&& after.h == before.h
}

/// Whether the state after is the state before with the bullet at position
/// `i` checked at `frame`, and `advance` tells whether that bullet is done
/// with.
///
/// A bullet that hits an enemy (see `target_of`) changes the bullets as
/// `after_hit` says, and is done with unless its pierces are spent. The
/// enemy loses the bullet's damage (see `hurt`); if that kills it, the kill
/// is settled with the score bonus of the shot (see `kill_settled`), and
/// else nothing but the bullets and the enemy differs. A bullet on a wall
/// lodges there (see `lodge`) and is removed, with the last bullet put in
/// its place. For any other bullet nothing changes, and it is done with.
pub open spec fn bullet_checked(
    before: &Arena,
    was: &Player,
    heard: Seq<Cue>,
    i: int,
    frame: int,
    after: &Arena,
    now: &Player,
    heard_after: Seq<Cue>,
    advance: bool,
) -> bool {
    let b = before.bullets@[i];
    match target_of(before, b) {
        Some(e) => {
            &&& after.bullets@ == after_hit(before.bullets@, i, e.uid as int, frame)
            &&& advance == (pierced(b, e.uid as int).pierce >= 0)
            &&& after.enemy_at(b.x as int, b.y as int) == crate::combat::hurt(e, b.dmg as int)
            &&& after.enemies_but(before, b.x as int, b.y as int)
            &&& if crate::combat::hurt(e, b.dmg as int) is None {
                exists|shot: Arena|
                    {
                        &&& shot.bullets@ == after.bullets@
                        &&& same_but_bullets(before, &shot)
                        &&& #[trigger] crate::combat::kill_settled(
                            &shot,
                            after,
                            was,
                            now,
                            heard,
                            heard_after,
                            e,
                            b.x as int,
                            b.y as int,
                            frame,
                            Stat::ScoreAmmo,
                        )
                    }
            } else {
                &&& *now == *was
                &&& heard_after == heard
                &&& after.tiles == before.tiles
                &&& after.pass == before.pass
                &&& after.bombs == before.bombs
                &&& after.turrets == before.turrets
                &&& after.emps == before.emps
                &&& after.chests == before.chests
                &&& after.boss == before.boss
                &&& after.spawned == before.spawned
                &&& after.w == before.w
                &&& after.h == before.h
            }
        },
        None => {
            &&& advance == !before.tile_at(b.x as int, b.y as int).is_solid()
            &&& after.enemies == before.enemies
            &&& *now == *was
            &&& heard_after == heard
            &&& if advance {
                *after == *before
            } else {
                &&& after.bullets@ == before.bullets@.update(i, before.bullets@.last()).drop_last()
                &&& after.tile_at(b.x as int, b.y as int) == lodge(
                    before.tile_at(b.x as int, b.y as int),
                )
                &&& after.tiles_but(before, b.x as int, b.y as int)
                &&& forall|x: int, y: int|
                    before.inside(x, y) ==> #[trigger] after.pass_at(x, y) == before.pass_at(x, y)
                &&& after.bombs == before.bombs
                &&& after.turrets == before.turrets
                &&& after.emps == before.emps
                &&& after.chests == before.chests
                &&& after.boss == before.boss
                &&& after.spawned == before.spawned
                &&& after.w == before.w
                &&& after.h == before.h
            }
        },
    }
}

/// Whether the state `(m1, who1, c1)` is reached from `(m0, who0, c0)` by
/// checking `n` bullets at `frame`, one after the other (see
/// `bullet_checked`), from the bullet at position `i0` on and with the
/// bullet at position `i1` to be checked next. After a bullet that is done
/// with the check moves on to the next position, and else it stays.
pub open spec fn bullets_checked(
    m0: &Arena,
    who0: &Player,
    c0: Seq<Cue>,
    i0: int,
    frame: int,
    m1: &Arena,
    who1: &Player,
    c1: Seq<Cue>,
    i1: int,
    n: nat,
) -> bool
    decreases n,
{
    if n == 0 {
        *m1 == *m0 && *who1 == *who0 && c1 == c0 && i1 == i0
    } else {
        exists|m: Arena, p: Player, c: Seq<Cue>, i: int, advance: bool|
            {
                &&& bullets_checked(m0, who0, c0, i0, frame, &m, &p, c, i, (n - 1) as nat)
                &&& 0 <= i < m.bullets@.len()
                &&& #[trigger] bullet_checked(&m, &p, c, i, frame, m1, who1, c1, advance)
                &&& i1 == if advance {
                    i + 1
                } else {
                    i
                }
            }
    }
}

/// The first of `n` steps, taken apart from the rest: from the position
/// `i0` the first step is taken, and the other steps lead on from the state
/// that it leaves.
pub proof fn lemma_bullets_checked_first(
    m0: &Arena,
    who0: &Player,
    c0: Seq<Cue>,
    i0: int,
    frame: int,
    m1: &Arena,
    who1: &Player,
    c1: Seq<Cue>,
    i1: int,
    n: nat,
)
    requires
        n >= 1,
        bullets_checked(m0, who0, c0, i0, frame, m1, who1, c1, i1, n),
    ensures
        0 <= i0 < m0.bullets@.len(),
        exists|m: Arena, p: Player, c: Seq<Cue>, advance: bool|
            {
                &&& #[trigger] bullet_checked(m0, who0, c0, i0, frame, &m, &p, c, advance)
                &&& bullets_checked(
                    &m,
                    &p,
                    c,
                    if advance {
                        i0 + 1
                    } else {
                        i0
                    },
                    frame,
                    m1,
                    who1,
                    c1,
                    i1,
                    (n - 1) as nat,
                )
            },
    decreases n,
{
    let (mm, pp, cc, ii, last) = choose|mm: Arena, pp: Player, cc: Seq<Cue>, ii: int, last: bool|
        {
            &&& bullets_checked(m0, who0, c0, i0, frame, &mm, &pp, cc, ii, (n - 1) as nat)
            &&& 0 <= ii < mm.bullets@.len()
            &&& #[trigger] bullet_checked(&mm, &pp, cc, ii, frame, m1, who1, c1, last)
            &&& i1 == if last {
                ii + 1
            } else {
                ii
            }
        };
    if n == 1 {
        assert(mm == *m0 && pp == *who0 && cc == c0 && ii == i0);
        assert(bullet_checked(m0, who0, c0, i0, frame, m1, who1, c1, last));
        assert(bullets_checked(m1, who1, c1, i1, frame, m1, who1, c1, i1, 0));
    } else {
        lemma_bullets_checked_first(m0, who0, c0, i0, frame, &mm, &pp, cc, ii, (n - 1) as nat);
        let (m, p, c, advance) = choose|m: Arena, p: Player, c: Seq<Cue>, advance: bool|
            {
                &&& #[trigger] bullet_checked(m0, who0, c0, i0, frame, &m, &p, c, advance)
                &&& bullets_checked(
                    &m,
                    &p,
                    c,
                    if advance {
                        i0 + 1
                    } else {
                        i0
                    },
                    frame,
                    &mm,
                    &pp,
                    cc,
                    ii,
                    (n - 2) as nat,
                )
            };
        let next = if advance {
            i0 + 1
        } else {
            i0
        };
        assert(bullets_checked(&m, &p, c, next, frame, m1, who1, c1, i1, (n - 1) as nat));
    }
}

/// From a position behind the last bullet no step is taken: the state stays
/// as it is.
pub proof fn lemma_bullets_checked_done(
    m0: &Arena,
    who0: &Player,
    c0: Seq<Cue>,
    i0: int,
    frame: int,
    m1: &Arena,
    who1: &Player,
    c1: Seq<Cue>,
    i1: int,
    n: nat,
)
    requires
        i0 >= m0.bullets@.len(),
        bullets_checked(m0, who0, c0, i0, frame, m1, who1, c1, i1, n),
    ensures
        n == 0,
        *m1 == *m0,
        *who1 == *who0,
        c1 == c0,
        i1 == i0,
{
    if n >= 1 {
        lemma_bullets_checked_first(m0, who0, c0, i0, frame, m1, who1, c1, i1, n);
    }
}

/// While bullets are left from the position `i0` on, the steps are not over:
/// steps that end behind the last bullet begin with a step from `i0`.
pub proof fn lemma_bullets_checked_begun(
    m0: &Arena,
    who0: &Player,
    c0: Seq<Cue>,
    i0: int,
    frame: int,
    m1: &Arena,
    who1: &Player,
    c1: Seq<Cue>,
    i1: int,
    n: nat,
)
    requires
        0 <= i0 < m0.bullets@.len(),
        i1 >= m1.bullets@.len(),
        bullets_checked(m0, who0, c0, i0, frame, m1, who1, c1, i1, n),
    ensures
        n >= 1,
{
}

/// Checks the bullet at position `i` at `frame`.
///
/// If it hits an enemy (see `target_of`), the bullets change as `after_hit`
/// says, and the enemy loses the bullet's damage; if that kills it, the kill
/// is settled with the score bonus of the shot. Else, if the bullet is on a
/// wall, it lodges there and is removed, with the last bullet put in its
/// place. Else nothing happens. Returns whether the bullet at position `i`
/// is done with, so that the check can move on; if not, another bullet took
/// its place.
pub fn resolve_bullet(
    map: &mut Arena,
    player: &mut Player,
    cues: &mut Vec<Cue>,
    i: usize,
    frame: i32,
    rng: &mut StdRng,
) -> (advance: bool)
    requires
        old(map).wf(),
        old(player).wf(),
        i < old(map).bullets.len(),
        0 <= frame <= TICK_LIMIT,
    ensures
        final(map).wf(),
        final(player).wf(),
        aged(old(map), final(map), frame as int),
        gained(old(player), final(player)),
        old(cues)@.len() <= final(cues)@.len(),
        final(cues)@.subrange(0, old(cues)@.len() as int) == old(cues)@,
        bullet_checked(
            old(map),
            old(player),
            old(cues)@,
            i as int,
            frame as int,
            final(map),
            final(player),
            final(cues)@,
            advance,
        ),
        advance ==> i < final(map).bullets.len() && final(map).interior(
            final(map).bullets@[i as int].x as int,
            final(map).bullets@[i as int].y as int,
        ),
        forall|j: int| 0 <= j < i ==> #[trigger] final(map).bullets@[j] == old(map).bullets@[j],
        load(final(map).bullets@, if advance { i + 1 } else { i as int }) < load(
            old(map).bullets@,
            i as int,
        ),
{
    let b: Bullet = map.bullets[i];
    let ghost s0 = map.bullets@;
    assert(b.wf() && map.inside(b.x as int, b.y as int));
    proof {
        lemma_weight(b);
        lemma_load_swap_remove(s0, i as int);
        lemma_load_update(s0, i as int, b);
        assert(cues@.subrange(0, cues@.len() as int) =~= cues@);
        assert(map.chests@.subrange(0, map.chests@.len() as int) =~= map.chests@);
        assert(player.stats@ =~= player.stats@.update(
            Stat::Score.slot(),
            player.stat(Stat::Score) as i32,
        ));
    }
    let target: Option<Enemy> = match map.enemy(b.x, b.y) {
        Some(e) => {
            let seen: bool = match b.hit {
                Some(u) => u == e.uid,
                None => false,
            };
            if seen {
                None
            } else {
                Some(e)
            }
        },
        None => None,
    };
    match target {
        Some(e) => {
            assert(map.interior(b.x as int, b.y as int));
            assert(e.wf());
            let b2 = Bullet { hit: Some(e.uid), pierce: b.pierce - 1, fork: b.fork - 1, ..b };
            proof {
                lemma_hit_lightens(s0, i as int, e.uid as int, frame as int);
            }
            if b2.fork >= 0 {
                let (ax, ay): (i32, i32) = if b.dx == 0 { (1, 0) } else { (0, 1) };
                let c1 = Bullet {
                    x: b.x - ax,
                    y: b.y - ay,
                    dx: -ax,
                    dy: -ay,
                    dmg: b.dmg,
                    pierce: 0,
                    fork: b2.fork,
                    last: frame,
                    cd: BULLET_COOLDOWN,
                    start: frame,
                    hit: None,
                };
                let c2 = Bullet { x: b.x + ax, y: b.y + ay, dx: ax, dy: ay, ..c1 };
                proof {
                    let f1 = fork_child(b2, frame as int, -1);
                    let f2 = fork_child(b2, frame as int, 1);
                    assert(c1.x == f1.x && c1.y == f1.y && c1.dx == f1.dx && c1.dy == f1.dy);
                    assert(c2.x == f2.x && c2.y == f2.y && c2.dx == f2.dx && c2.dy == f2.dy);
                    assert(c1 == f1);
                    assert(c2 == f2);
                }
                map.bullets.push(c1);
                map.bullets.push(c2);
            }
            let removed: bool = b2.pierce < 0;
            if removed {
                map.bullets.swap_remove(i);
            } else {
                map.bullets[i] = b2;
            }
            proof {
                assert(map.bullets@ =~= after_hit(s0, i as int, e.uid as int, frame as int));
                assert forall|j: int| 0 <= j < map.bullets.len() implies (#[trigger] map.bullets@[j]).wf()
                    && map.inside(map.bullets@[j].x as int, map.bullets@[j].y as int) by {
                    let cur = map.bullets@[j];
                    if exists|k: int| 0 <= k < s0.len() && s0[k] == cur {
                        let k = choose|k: int| 0 <= k < s0.len() && s0[k] == cur;
                        assert(s0[k].wf());
                    }
                }
            }
            let left: i32 = e.hp as i32 - b.dmg as i32;
            if left <= 0 {
                let ghost shot = *map;
                resolve_kill(map, player, cues, b.x, b.y, frame, Stat::ScoreAmmo, rng);
                proof {
                    assert(same_but_bullets(old(map), &shot));
                    assert(crate::combat::kill_settled(
                        &shot,
                        map,
                        old(player),
                        player,
                        old(cues)@,
                        cues@,
                        e,
                        b.x as int,
                        b.y as int,
                        frame as int,
                        Stat::ScoreAmmo,
                    ));
                    lemma_slots_differ(Stat::Score, Stat::ScoreAmmo);
                    lemma_slots_differ(Stat::Score, Stat::Score);
                    assert(Stat::Score.least() <= old(player).stat(Stat::Score));
                    assert(Stat::ScoreAmmo.least() <= old(player).stat(Stat::ScoreAmmo));
                    assert(player.stats@ =~= old(player).stats@.update(
                        Stat::Score.slot(),
                        player.stat(Stat::Score) as i32,
                    ));
                    assert(map.chests@.subrange(0, old(map).chests@.len() as int) =~= old(map).chests@);
                    assert(cues@.subrange(0, old(cues)@.len() as int) =~= old(cues)@);
                }
            } else {
                map.replace_enemy(b.x, b.y, Enemy { hp: left as i8, ..e });
            }
            !removed
        },
        None => {
            let tile: Tile = map.tile(b.x, b.y);
            assert(tile.wf());
            match tile {
                Tile::Wall(w) => {
                    let n: i8 = if w.bullets < 127 { w.bullets + 1 } else { 127 };
                    map.put_tile(b.x, b.y, Tile::Wall(Wall { bullets: n }));
                    map.bullets.swap_remove(i);
                    proof {
                        assert forall|j: int| 0 <= j < map.bullets.len() implies (
                        #[trigger] map.bullets@[j]).wf() && map.inside(
                            map.bullets@[j].x as int,
                            map.bullets@[j].y as int,
                        ) by {
                            let k = if j == i { s0.len() - 1 } else { j };
                            assert(map.bullets@[j] == s0[k]);
                        }
                    }
                    false
                },
                Tile::MovableWall(w) => {
                    let n: i8 = if w.bullets < 127 { w.bullets + 1 } else { 127 };
                    map.put_tile(b.x, b.y, Tile::MovableWall(MovableWall { bullets: n }));
                    map.bullets.swap_remove(i);
                    proof {
                        assert forall|j: int| 0 <= j < map.bullets.len() implies (
                        #[trigger] map.bullets@[j]).wf() && map.inside(
                            map.bullets@[j].x as int,
                            map.bullets@[j].y as int,
                        ) by {
                            let k = if j == i { s0.len() - 1 } else { j };
                            assert(map.bullets@[j] == s0[k]);
                        }
                    }
                    false
                },
                _ => true,
            }
        },
    }
}

/// The cells on which an enemy of the arena `before` stood that is gone in
/// the arena `after`.
pub open spec fn felled(before: &Arena, after: &Arena) -> Set<(int, int)> {
    Set::new(
        |c: (int, int)|
            before.inside(c.0, c.1) && before.enemy_at(c.0, c.1) is Some && after.enemy_at(
                c.0,
                c.1,
            ) is None,
    )
}

/// The cells on which a boss of the arena `before` stood that is gone in
/// the arena `after`.
pub open spec fn felled_bosses(before: &Arena, after: &Arena) -> Set<(int, int)> {
    Set::new(
        |c: (int, int)|
            before.inside(c.0, c.1) && before.enemy_at(c.0, c.1) is Some && before.enemy_at(
                c.0,
                c.1,
            )->0.is_boss() && after.enemy_at(c.0, c.1) is None,
    )
}

/// Whether the player `now` has the kills of the enemies that fell between
/// the arenas `before` and `after` in its books: each is counted, and
/// scored with the bonus of the shot for a zombie and the boss score for a
/// boss.
pub open spec fn booked(before: &Arena, after: &Arena, was: &Player, now: &Player) -> bool {
    let dead = felled(before, after);
    let dead_bosses = felled_bosses(before, after);
    &&& dead.finite()
    &&& dead_bosses.finite()
    &&& dead_bosses.len() <= dead.len()
    &&& now.progress.killed == clamp(was.progress.killed + dead.len(), 0, COUNT_LIMIT as int)
    &&& now.stat(Stat::Score) == clamp(
        was.stat(Stat::Score) + was.stat(Stat::ScoreAmmo) * (dead.len() - dead_bosses.len())
            + crate::combat::BOSS_SCORE * dead_bosses.len(),
        0,
        COUNT_LIMIT as int,
    )
}

/// One more bullet checked: the books.
#[verifier::rlimit(60)]
proof fn lemma_booked_step(
    before: &Arena,
    cur: &Arena,
    next: &Arena,
    was: &Player,
    who: &Player,
    now: &Player,
    x: int,
    y: int,
    frame: int,
    killed: bool,
)
    requires
        before.wf(),
        was.wf(),
        cur.w == before.w,
        cur.h == before.h,
        next.w == before.w,
        next.h == before.h,
        before.inside(x, y),
        aged(before, cur, frame),
        booked(before, cur, was, who),
        who.stat(Stat::ScoreAmmo) == was.stat(Stat::ScoreAmmo),
        next.enemies_but(cur, x, y),
        killed ==> cur.enemy_at(x, y) is Some && next.enemy_at(x, y) is None,
        !killed ==> (next.enemy_at(x, y) is None == cur.enemy_at(x, y) is None),
        if killed {
            &&& now.progress.killed == clamp(who.progress.killed + 1, 0, COUNT_LIMIT as int)
            &&& now.stat(Stat::Score) == clamp(
                who.stat(Stat::Score) + crate::combat::reward(
                    cur.enemy_at(x, y)->0,
                    who,
                    Stat::ScoreAmmo,
                ),
                0,
                COUNT_LIMIT as int,
            )
        } else {
            now.progress.killed == who.progress.killed && now.stat(Stat::Score) == who.stat(
                Stat::Score,
            )
        },
    ensures
        booked(before, next, was, now),
{
    let dead = felled(before, cur);
    let dead_bosses = felled_bosses(before, cur);
    let dead2 = felled(before, next);
    let dead_bosses2 = felled_bosses(before, next);
    let here: (int, int) = (x, y);
    assert(enemy_worn(before.enemy_at(x, y), cur.enemy_at(x, y)));
    assert(0 <= was.stat(Stat::Score)) by {
        assert(Stat::Score.least() <= was.stat(Stat::Score));
    }
    assert(0 <= was.stat(Stat::ScoreAmmo)) by {
        assert(Stat::ScoreAmmo.least() <= was.stat(Stat::ScoreAmmo));
    }
    assert forall|c: (int, int)| before.inside(c.0, c.1) && c != here implies next.enemy_at(
        c.0,
        c.1,
    ) == cur.enemy_at(c.0, c.1) by {
        assert(next.inside(c.0, c.1));
        if c.0 == x && c.1 == y {
            assert(c =~= here);
        }
    }
    assert forall|c: (int, int)| dead2.contains(c) == (if c == here {
        killed || dead.contains(c)
    } else {
        dead.contains(c)
    }) by {
        if c == here {
            assert(c.0 == x && c.1 == y);
        }
    }
    assert forall|c: (int, int)| dead_bosses2.contains(c) == (if c == here {
        (killed && cur.enemy_at(x, y)->0.is_boss()) || dead_bosses.contains(c)
    } else {
        dead_bosses.contains(c)
    }) by {
        if c == here {
            assert(c.0 == x && c.1 == y);
        }
    }
    if killed {
        let e = cur.enemy_at(x, y)->0;
        assert(dead2 =~= dead.insert(here));
        assert(!dead.contains(here));
        if e.is_boss() {
            assert(dead_bosses2 =~= dead_bosses.insert(here));
            assert(!dead_bosses.contains(here));
        } else {
            assert(dead_bosses2 =~= dead_bosses);
        }
        let b = was.stat(Stat::ScoreAmmo);
        let n = dead.len() as int;
        let nb = dead_bosses.len() as int;
        assert(b * (n + 1 - nb) == b * (n - nb) + b) by (nonlinear_arith);
        assert(crate::combat::BOSS_SCORE * (nb + 1) == crate::combat::BOSS_SCORE * nb
            + crate::combat::BOSS_SCORE) by (nonlinear_arith);
        assert(b * (n - nb) >= 0) by (nonlinear_arith)
            requires
                b >= 0,
                n - nb >= 0,
        ;
        crate::combat::lemma_clamp_sum(
            was.stat(Stat::Score) + b * (n - nb) + crate::combat::BOSS_SCORE * nb,
            crate::combat::reward(e, who, Stat::ScoreAmmo),
            COUNT_LIMIT as int,
        );
        crate::combat::lemma_clamp_sum(was.progress.killed + n, 1, COUNT_LIMIT as int);
    } else {
        assert(dead2 =~= dead);
        assert(dead_bosses2 =~= dead_bosses);
    }
}

/// Whether the bullet `b`, which had a target in the arena `before`, has
/// done its damage in the arena `now`: the target is gone, or has lost at
/// least the damage of the bullet.
pub open spec fn owed(before: &Arena, b: Bullet, now: &Arena) -> bool {
    target_of(before, b) matches Some(e) ==> (now.enemy_at(b.x as int, b.y as int) matches Some(
        e2,
    ) ==> e2.hp <= e.hp - b.dmg)
}

/// Whether the bullets `cur` from position `i` on are traced by `origin`:
/// for each it holds the position that the bullet had among the bullets
/// `first`, where it was one of them and is still as it was, or `-1`.
pub open spec fn traced(first: Seq<Bullet>, cur: Seq<Bullet>, origin: Seq<int>, i: int) -> bool {
    &&& origin.len() == cur.len()
    &&& forall|j: int|
        i <= j < cur.len() && #[trigger] origin[j] >= 0 ==> origin[j] < first.len() && cur[j]
            == first[origin[j]]
}

/// Whether the bullet at position `k` of the first bullets still waits for
/// its turn.
pub open spec fn waits(origin: Seq<int>, i: int, k: int) -> bool {
    exists|j: int| i <= j < origin.len() && #[trigger] origin[j] == k
}

/// The origins of the bullets after the bullet at position `i` was checked
/// in the arena `cur`.
pub open spec fn next_origin(cur: &Arena, origin: Seq<int>, i: int) -> Seq<int> {
    let b = cur.bullets@[i];
    match target_of(cur, b) {
        Some(e) => {
            let b2 = pierced(b, e.uid as int);
            let grown = if b2.fork >= 0 {
                origin.push(-1).push(-1)
            } else {
                origin
            };
            if b2.pierce < 0 {
                grown.update(i, grown.last()).drop_last()
            } else {
                grown
            }
        },
        None => if cur.tile_at(b.x as int, b.y as int).is_solid() {
            origin.update(i, origin.last()).drop_last()
        } else {
            origin
        },
    }
}

/// One more bullet checked: every first bullet still waits or has done its
/// damage.
#[verifier::rlimit(60)]
proof fn lemma_bullet_step(
    before: &Arena,
    cur: &Arena,
    next: &Arena,
    origin: Seq<int>,
    i: int,
    frame: int,
    advance: bool,
)
    requires
        before.wf(),
        cur.wf(),
        0 <= i < cur.bullets@.len(),
        aged(before, cur, frame),
        aged(cur, next, frame),
        traced(before.bullets@, cur.bullets@, origin, i),
        forall|k: int|
            0 <= k < before.bullets@.len() ==> waits(origin, i, k) || owed(
                before,
                #[trigger] before.bullets@[k],
                cur,
            ),
        match target_of(cur, cur.bullets@[i]) {
            Some(e) => {
                &&& next.bullets@ == after_hit(cur.bullets@, i, e.uid as int, frame)
                &&& advance == (pierced(cur.bullets@[i], e.uid as int).pierce >= 0)
                &&& next.enemy_at(cur.bullets@[i].x as int, cur.bullets@[i].y as int)
                    == crate::combat::hurt(e, cur.bullets@[i].dmg as int)
            },
            None => {
                &&& advance == !cur.tile_at(
                    cur.bullets@[i].x as int,
                    cur.bullets@[i].y as int,
                ).is_solid()
                &&& next.enemies == cur.enemies
                &&& if advance {
                    next.bullets@ == cur.bullets@
                } else {
                    next.bullets@ == cur.bullets@.update(i, cur.bullets@.last()).drop_last()
                }
            },
        },
    ensures
        traced(
            before.bullets@,
            next.bullets@,
            next_origin(cur, origin, i),
            if advance { i + 1 } else { i },
        ),
        forall|k: int|
            0 <= k < before.bullets@.len() ==> waits(
                next_origin(cur, origin, i),
                if advance { i + 1 } else { i },
                k,
            ) || owed(before, #[trigger] before.bullets@[k], next),
{
    let first = before.bullets@;
    let origin2 = next_origin(cur, origin, i);
    let i2 = if advance { i + 1 } else { i };
    let b = cur.bullets@[i];
    let last = origin.len() - 1;
    assert(b.wf() && cur.inside(b.x as int, b.y as int));
    assert forall|j: int|
        i2 <= j < next.bullets@.len() && #[trigger] origin2[j] >= 0 implies origin2[j] < first.len()
        && next.bullets@[j] == first[origin2[j]] by {
        if j < origin.len() {
            if advance {
                assert(origin2[j] == origin[j]);
                assert(next.bullets@[j] == cur.bullets@[j]);
            } else if j == i {
                assert(next.bullets@[j] == cur.bullets@[last]);
                assert(origin2[j] == origin[last]);
            } else {
                assert(origin2[j] == origin[j]);
                assert(next.bullets@[j] == cur.bullets@[j]);
            }
        }
    }
    assert forall|k: int| 0 <= k < first.len() implies waits(origin2, i2, k) || owed(
        before,
        #[trigger] first[k],
        next,
    ) by {
        let bk = first[k];
        if owed(before, bk, cur) {
            if target_of(before, bk) is Some {
                assert(before.inside(bk.x as int, bk.y as int)) by {
                    assert(bk.wf() && before.inside(bk.x as int, bk.y as int));
                }
                assert(enemy_worn(
                    cur.enemy_at(bk.x as int, bk.y as int),
                    next.enemy_at(bk.x as int, bk.y as int),
                ));
            }
        } else {
            let j = choose|j: int| i <= j < origin.len() && #[trigger] origin[j] == k;
            if j == i {
                assert(b == bk);
                let e0 = target_of(before, bk)->0;
                assert(enemy_worn(
                    before.enemy_at(b.x as int, b.y as int),
                    cur.enemy_at(b.x as int, b.y as int),
                ));
                match target_of(cur, b) {
                    Some(e) => {
                        assert(e.hp <= e0.hp);
                    },
                    None => {
                        assert(cur.enemy_at(b.x as int, b.y as int) is None);
                    },
                }
            } else {
                if advance {
                    assert(origin2[j] == k);
                } else if j < origin2.len() {
                    assert(origin2[j] == k);
                } else {
                    assert(origin2[i] == k);
                }
            }
        }
    }
}

/// Whether the state after is the state before with every bullet checked
/// at `frame`: it is what checking bullet after bullet makes of it (see
/// `bullets_checked`), with no bullet left to check.
pub open spec fn bullets_resolved(
    before: &Arena,
    was: &Player,
    heard: Seq<Cue>,
    frame: i32,
    after: &Arena,
    now: &Player,
    heard_after: Seq<Cue>,
) -> bool {
    &&& after.wf()
    &&& now.wf()
    &&& after.bullets_settled()
    &&& aged(before, after, frame as int)
    &&& gained(was, now)
    &&& heard.len() <= heard_after.len()
    &&& heard_after.subrange(0, heard.len() as int) == heard
    &&& forall|k: int|
        0 <= k < before.bullets@.len() ==> owed(
            before,
            #[trigger] before.bullets@[k],
            after,
        )
    &&& booked(before, after, was, now)
    &&& exists|n: nat| #[trigger]
        bullets_checked(
            before,
            was,
            heard,
            0,
            frame as int,
            after,
            now,
            heard_after,
            after.bullets@.len() as int,
            n,
        )
}

/// Checks every bullet at `frame`, in turn: see `resolve_bullet`. Bullets
/// that fork off during the check are checked as well.
///
/// Afterwards the state is what checking bullet after bullet makes of it
/// (see `bullets_checked`), with no bullet left to check. So every bullet
/// is on an interior cell, the arena is worn (see `aged`) and the player has
/// gained (see `gained`). Every bullet that had a target has done its
/// damage (see `owed`).
pub fn check_bullets(
    map: &mut Arena,
    player: &mut Player,
    cues: &mut Vec<Cue>,
    frame: i32,
    rng: &mut StdRng,
)
    requires
        old(map).wf(),
        old(player).wf(),
        0 <= frame <= TICK_LIMIT,
    ensures
        bullets_resolved(
            old(map),
            old(player),
            old(cues)@,
            frame,
            final(map),
            final(player),
            final(cues)@,
        ),
{
    proof {
        assert(felled(old(map), map) =~= Set::empty());
        assert(felled_bosses(old(map), map) =~= Set::empty());
        assert(0 <= player.stat(Stat::Score)) by {
            assert(Stat::Score.least() <= player.stat(Stat::Score));
        }
        assert(cues@.subrange(0, cues@.len() as int) =~= cues@);
        assert(map.chests@.subrange(0, map.chests@.len() as int) =~= map.chests@);
        assert(player.stats@ =~= player.stats@.update(
            Stat::Score.slot(),
            player.stat(Stat::Score) as i32,
        ));
    }
    let mut i: usize = 0;
    let ghost mut origin: Seq<int> = Seq::new(map.bullets@.len(), |k: int| k);
    let ghost mut n: nat = 0;
    proof {
        assert forall|k: int| 0 <= k < old(map).bullets@.len() implies waits(origin, 0, k) by {
            assert(origin[k] == k);
        }
    }
    while i < map.bullets.len()
        invariant
            i <= map.bullets.len(),
            bullets_checked(
                old(map),
                old(player),
                old(cues)@,
                0,
                frame as int,
                map,
                player,
                cues@,
                i as int,
                n,
            ),
            traced(old(map).bullets@, map.bullets@, origin, i as int),
            booked(old(map), map, old(player), player),
            forall|k: int|
                0 <= k < old(map).bullets@.len() ==> waits(origin, i as int, k) || owed(
                    old(map),
                    #[trigger] old(map).bullets@[k],
                    map,
                ),
            old(map).wf(),
            old(player).wf(),
            map.wf(),
            player.wf(),
            0 <= frame <= TICK_LIMIT,
            aged(old(map), map, frame as int),
            gained(old(player), player),
            old(cues)@.len() <= cues@.len(),
            cues@.subrange(0, old(cues)@.len() as int) == old(cues)@,
            forall|j: int|
                0 <= j < i ==> map.interior(
                    (#[trigger] map.bullets@[j]).x as int,
                    map.bullets@[j].y as int,
                ),
        decreases load(map.bullets@, i as int),
    {
        let ghost cur = *map;
        let ghost who = *player;
        let ghost heard = cues@;
        let advance: bool = resolve_bullet(map, player, cues, i, frame, rng);
        proof {
            lemma_bullet_step(old(map), &cur, map, origin, i as int, frame as int, advance);
            let shot = cur.bullets@[i as int];
            assert(shot.wf() && cur.inside(shot.x as int, shot.y as int));
            let hit = target_of(&cur, shot);
            let killed = hit is Some && crate::combat::hurt(hit->0, shot.dmg as int) is None;
            lemma_slots_differ(Stat::Score, Stat::ScoreAmmo);
            lemma_booked_step(
                old(map),
                &cur,
                map,
                old(player),
                &who,
                player,
                shot.x as int,
                shot.y as int,
                frame as int,
                killed,
            );
            origin = next_origin(&cur, origin, i as int);
            lemma_load_nonneg(map.bullets@, if advance { i + 1 } else { i as int });
            lemma_aged_twice(old(map), &cur, map, frame as int);
            lemma_gained_twice(old(player), &who, player);
            assert(cues@.subrange(0, old(cues)@.len() as int) =~= old(cues)@) by {
                assert forall|k: int| 0 <= k < old(cues)@.len() implies cues@[k] == old(cues)@[k] by {
                    assert(cues@.subrange(0, heard.len() as int)[k] == cues@[k]);
                    assert(heard.subrange(0, old(cues)@.len() as int)[k] == heard[k]);
                }
            }
            assert forall|j: int| 0 <= j < i implies map.interior(
                (#[trigger] map.bullets@[j]).x as int,
                map.bullets@[j].y as int,
            ) by {
                assert(map.bullets@[j] == cur.bullets@[j]);
            }
        }
        let ghost at = i as int;
        if advance {
            i = i + 1;
        }
        proof {
            assert(bullet_checked(&cur, &who, heard, at, frame as int, map, player, cues@, advance));
            n = n + 1;
        }
    }
}

} // verus!
