//! Bombs: placing them, their fuse, and what the blast does.

use crate::arena::Arena;
use crate::bullet::Bullet;
use crate::combat::{lemma_scored_twice, lemma_swept_scores, scored, sweep, swept, Shock};
use crate::dice::roll;
use crate::input::{step, step_of};
use crate::player::{lemma_wf_carries, Player};
use crate::progress::Weapon;
use crate::sound::{Cue, Sound};
use crate::stat::{
    lemma_slots_differ, Stat, COUNT_LIMIT, RADIUS_LIMIT, SPAN_LIMIT, STAMP_LIMIT, TICK_LIMIT,
};
use crate::tile::{MovableWall, Tile, Wall};
use crate::util::{clamp, dist, manhattan};
use rand::rngs::StdRng;
use vstd::prelude::*;

verus! {

/// A bomb on the ground, placed at tick `start` with a fuse of `duration`.
#[derive(Clone, Copy, Debug, PartialEq, Eq, Structural)]
pub struct Bomb {
    pub x: i32,
    pub y: i32,
    pub radius: i32,
    pub dmg: i32,
    pub start: i32,
    pub duration: i32,
}

impl Bomb {
    /// Radius, damage and clock are in range.
    pub open spec fn wf(&self) -> bool {
        &&& 0 <= self.radius <= RADIUS_LIMIT
        &&& 0 <= self.dmg <= 127
        &&& -SPAN_LIMIT <= self.start <= STAMP_LIMIT
        &&& 0 <= self.duration <= SPAN_LIMIT
    }

    /// The tick at which the bomb is removed.
    pub open spec fn end(&self) -> int {
        self.start + self.duration
    }

    /// Whether the bomb is still armed at `frame`: its last 20 ticks have not
    /// begun, so a trigger can still pull its end forward.
    pub open spec fn armed(&self, frame: int) -> bool {
        frame < self.end() - 20
    }
}

/// Whether the player `p` standing on `map` can place a bomb at `frame`:
/// the cooldown since the last bomb has passed, a bomb is left, and neither
/// a bomb nor a turret is on the player's cell.
pub open spec fn bomb_ready(p: &Player, map: &Arena, frame: int) -> bool {
    &&& frame - p.stat(Stat::CdBomb) >= p.stat(Stat::LastBomb)
    &&& p.stat(Stat::Bomb) != 0
    &&& !map.has_bomb(p.x as int, p.y as int)
    &&& !map.has_turret(p.x as int, p.y as int)
}

/// The bomb that the player `p` places at `frame`.
pub open spec fn bomb_of(p: &Player, frame: int) -> Bomb {
    Bomb {
        x: p.x,
        y: p.y,
        radius: p.stat(Stat::RadBomb) as i32,
        dmg: p.stat(Stat::DmgBomb) as i32,
        start: frame as i32,
        duration: p.stat(Stat::FuseTimeBomb) as i32,
    }
}

/// Whether the state after is the state before with the placing of a bomb
/// at `frame` checked, and `fired` tells whether one was placed. A player
/// that can place a bomb (see `bomb_ready`) places it on its cell (see
/// `bomb_of`); its sound is asked for, the tick noted, one bomb spent and one
/// use counted. Otherwise nothing changes.
pub open spec fn bomb_checked(
    was: &Player,
    before: &Arena,
    heard: Seq<Cue>,
    frame: i32,
    now: &Player,
    after: &Arena,
    heard_after: Seq<Cue>,
    fired: bool,
) -> bool {
    &&& after.wf()
    &&& now.wf()
    &&& fired == bomb_ready(was, before, frame as int)
    &&& !fired ==> *after == *before && *now == *was && heard_after
        == heard
    &&& fired ==> {
        &&& heard_after == heard.push(Cue::flat(Sound::UseBomb, 50))
        &&& after.bombs@ == before.bombs@.push(bomb_of(was, frame as int))
        &&& after.tiles == before.tiles
        &&& after.pass == before.pass
        &&& after.enemies == before.enemies
        &&& after.bullets == before.bullets
        &&& after.turrets == before.turrets
        &&& after.emps == before.emps
        &&& after.chests == before.chests
        &&& after.boss == before.boss
        &&& after.spawned == before.spawned
        &&& after.w == before.w
        &&& after.h == before.h
        &&& now.stats@ == was.stats@.update(
            Stat::LastBomb.slot(),
            frame,
        ).update(Stat::Bomb.slot(), (was.stat(Stat::Bomb) - 1) as i32)
        &&& now.progress.killed == was.progress.killed
        &&& now.progress.used@ == was.progress.used@.update(
            Weapon::Bomb.slot(),
            clamp(was.progress.used@[Weapon::Bomb.slot()] + 1, 0, COUNT_LIMIT as int) as i32,
        )
        &&& now.x == was.x
        &&& now.y == was.y
        &&& now.running == was.running
        &&& now.dead == was.dead
        &&& now.paused == was.paused
        &&& now.upgrading == was.upgrading
        &&& now.upgrades == was.upgrades
    }
}

/// Places a bomb on the player's cell at `frame` if the player can: asks
/// for its sound, notes the tick, spends one bomb and counts one use.
/// Otherwise nothing happens. Returns whether a bomb was placed.
pub fn check_bomb(player: &mut Player, map: &mut Arena, cues: &mut Vec<Cue>, frame: i32) -> (fired:
    bool)
    requires
        old(map).wf(),
        old(player).wf(),
        old(map).hosts(old(player)),
        0 <= frame <= TICK_LIMIT,
    ensures
        bomb_checked(
            old(player),
            old(map),
            old(cues)@,
            frame,
            final(player),
            final(map),
            final(cues)@,
            fired,
        ),
{
    proof {
        assert(Stat::CdBomb.least() <= player.stat(Stat::CdBomb) <= Stat::CdBomb.most());
        assert(Stat::LastBomb.least() <= player.stat(Stat::LastBomb) <= Stat::LastBomb.most());
        assert(Stat::Bomb.least() <= player.stat(Stat::Bomb) <= Stat::Bomb.most());
        assert(Stat::RadBomb.least() <= player.stat(Stat::RadBomb) <= Stat::RadBomb.most());
        assert(Stat::DmgBomb.least() <= player.stat(Stat::DmgBomb) <= Stat::DmgBomb.most());
        assert(Stat::FuseTimeBomb.least() <= player.stat(Stat::FuseTimeBomb)
            <= Stat::FuseTimeBomb.most());
    }
    if frame - player.get(Stat::CdBomb) < player.get(Stat::LastBomb) || player.get(Stat::Bomb) == 0
        || map.bomb_at(player.x, player.y) || map.turret_at(player.x, player.y) {
        return false;
    }
    cues.push(Cue { sound: Sound::UseBomb, level: 50, near: 0, dist: 0 });
    let bomb = Bomb {
        x: player.x,
        y: player.y,
        radius: player.get(Stat::RadBomb),
        dmg: player.get(Stat::DmgBomb),
        start: frame,
        duration: player.get(Stat::FuseTimeBomb),
    };
    let left: i32 = player.get(Stat::Bomb);
    player.set(Stat::LastBomb, frame);
    proof {
        lemma_slots_differ(Stat::LastBomb, Stat::Bomb);
    }
    player.set(Stat::Bomb, left - 1);
    player.note_use(Weapon::Bomb);
    map.bombs.push(bomb);
    true
}

/// Whether the bomb `b` does its damage at `frame`: ten ticks before its
/// end.
pub open spec fn detonates(b: Bomb, frame: int) -> bool {
    frame == b.end() - 10
}

/// The bomb `b` after the bomb `by` went off at `frame`: if `b` lies within
/// the radius of `by` and is still armed, its end is pulled forward to 20
/// ticks from `frame`.
pub open spec fn chained(b: Bomb, by: Bomb, frame: int) -> Bomb {
    if manhattan(by.x as int, by.y as int, b.x as int, b.y as int) <= by.radius && frame <= b.end()
        - 20 {
        Bomb { start: (frame + 20 - b.duration) as i32, ..b }
    } else {
        b
    }
}

/// A bomb caught in a blast at `frame` ends within 20 ticks of it, and
/// never later than it would have.
pub proof fn lemma_chain_in_time(b: Bomb, by: Bomb, frame: int)
    requires
        b.wf(),
        manhattan(by.x as int, by.y as int, b.x as int, b.y as int) <= by.radius,
        0 <= frame <= TICK_LIMIT,
    ensures
        chained(b, by, frame).end() <= frame + 20,
        chained(b, by, frame).end() <= b.end(),
        chained(b, by, frame).wf(),
{
}

/// Lets the bomb at position `i` set off the others at `frame`: every other
/// bomb is replaced by what `chained` makes of it.
pub fn chain(map: &mut Arena, i: usize, frame: i32)
    requires
        old(map).wf(),
        i < old(map).bombs.len(),
        0 <= frame <= TICK_LIMIT,
    ensures
        final(map).wf(),
        final(map).bombs.len() == old(map).bombs.len(),
        forall|j: int|
            0 <= j < old(map).bombs.len() ==> #[trigger] final(map).bombs@[j] == (if j == i {
                old(map).bombs@[j]
            } else {
                chained(old(map).bombs@[j], old(map).bombs@[i as int], frame as int)
            }),
        final(map).tiles == old(map).tiles,
        final(map).pass == old(map).pass,
        final(map).enemies == old(map).enemies,
        final(map).bullets == old(map).bullets,
        final(map).turrets == old(map).turrets,
        final(map).emps == old(map).emps,
        final(map).chests == old(map).chests,
        final(map).boss == old(map).boss,
        final(map).spawned == old(map).spawned,
        final(map).w == old(map).w,
        final(map).h == old(map).h,
{
    let by: Bomb = map.bombs[i];
    let mut j: usize = 0;
    while j < map.bombs.len()
        invariant
            map.wf(),
            i < map.bombs.len(),
            by == old(map).bombs@[i as int],
            by.wf(),
            old(map).wf(),
            0 <= frame <= TICK_LIMIT,
            j <= map.bombs.len(),
            map.bombs.len() == old(map).bombs.len(),
            forall|k: int|
                0 <= k < j ==> #[trigger] map.bombs@[k] == (if k == i {
                    old(map).bombs@[k]
                } else {
                    chained(old(map).bombs@[k], by, frame as int)
                }),
            forall|k: int| j <= k < map.bombs.len() ==> #[trigger] map.bombs@[k] == old(map).bombs@[k],
            map.tiles == old(map).tiles,
            map.pass == old(map).pass,
            map.enemies == old(map).enemies,
            map.bullets == old(map).bullets,
            map.turrets == old(map).turrets,
            map.emps == old(map).emps,
            map.chests == old(map).chests,
            map.boss == old(map).boss,
            map.spawned == old(map).spawned,
            map.w == old(map).w,
            map.h == old(map).h,
        decreases map.bombs.len() - j,
    {
        let b: Bomb = map.bombs[j];
        assert(b.wf() && map.interior(b.x as int, b.y as int));
        assert(map.interior(by.x as int, by.y as int));
        if j != i && dist(by.x, by.y, b.x, b.y) <= by.radius && frame <= b.start + b.duration - 20 {
            let ghost cur = map.bombs@;
            map.bombs[j] = Bomb { start: frame + 20 - b.duration, ..b };
            proof {
                assert forall|k: int| 0 <= k < map.bombs.len() implies (#[trigger] map.bombs@[k]).wf()
                    && map.interior(map.bombs@[k].x as int, map.bombs@[k].y as int) by {
                    if k != j {
                        assert(map.bombs@[k] == cur[k]);
                    }
                }
            }
        }
        j = j + 1;
    }
}

/// The shrapnel bullet that flies from the cell `(x, y)` at `frame` with the
/// damage `dmg`, in the turret direction `d`, stepping every `cd` ticks.
pub open spec fn shrapnel(x: int, y: int, dmg: int, frame: int, d: int, cd: int) -> Bullet {
    Bullet {
        x: x as i32,
        y: y as i32,
        dx: step_of(d).0 as i32,
        dy: step_of(d).1 as i32,
        dmg: dmg as i8,
        pierce: 0,
        fork: 0,
        last: 0,
        cd: cd as i32,
        start: frame as i32,
        hit: None,
    }
}

/// Whether `b` is a shrapnel bullet from `(x, y)` at `frame` with the damage
/// `dmg`, in any direction and with a step of two to four ticks.
pub open spec fn is_shrapnel(b: Bullet, x: int, y: int, dmg: int, frame: int) -> bool {
    exists|d: int, cd: int|
        0 <= d < 4 && 2 <= cd <= 4 && b == #[trigger] shrapnel(x, y, dmg, frame, d, cd)
}

/// Whether `after` is `before` with the interior cell `(x, y)` cleared by a
/// blast at `frame`: its tile is empty; the bullets lodged in a wall there
/// fly off as shrapnel with the damage `dmg`; a chest there is gone from
/// the queue; and the cell can be entered unless an enemy or a turret
/// stands on it.
pub open spec fn cell_cleared(before: &Arena, after: &Arena, x: int, y: int, dmg: int, frame: int) -> bool {
    &&& after.tile_at(x, y) is Empty
    &&& after.tiles_but(before, x, y)
    &&& after.pass_at(x, y) == (before.enemy_at(x, y) is None && !before.has_turret(x, y))
    &&& after.pass_but(before, x, y)
    &&& after.enemies == before.enemies
    &&& after.bullets@.len() == before.bullets@.len() + before.tile_at(x, y).lodged()
    &&& after.bullets@.subrange(0, before.bullets@.len() as int) == before.bullets@
    &&& forall|k: int|
        before.bullets@.len() <= k < after.bullets@.len() ==> is_shrapnel(
            #[trigger] after.bullets@[k],
            x,
            y,
            dmg,
            frame,
        )
    &&& if before.tile_at(x, y) is Chest {
        exists|idx: int|
            0 <= idx < before.chests@.len() && before.chests@[idx] == (x as i32, y as i32)
                && after.chests@ == #[trigger] before.chests@.remove(idx)
    } else {
        after.chests@ == before.chests@
    }
    &&& after.bombs == before.bombs
    &&& after.turrets == before.turrets
    &&& after.emps == before.emps
    &&& after.boss == before.boss
    &&& after.spawned == before.spawned
    &&& after.w == before.w
    &&& after.h == before.h
}

/// Clears the interior cell `(x, y)` by a blast at `frame`: see
/// `cell_cleared`. Where the shrapnel flies and how fast is up to `rng`.
pub fn clear_cell(map: &mut Arena, x: i32, y: i32, dmg: i8, frame: i32, rng: &mut StdRng)
    requires
        old(map).wf(),
        old(map).interior(x as int, y as int),
        0 <= dmg,
        0 <= frame <= TICK_LIMIT,
    ensures
        final(map).wf(),
        cell_cleared(old(map), final(map), x as int, y as int, dmg as int, frame as int),
        old(map).bullets_settled() ==> final(map).bullets_settled(),
{
    let tile: Tile = map.tile(x, y);
    assert(tile.wf());
    let lodged: i8 = match tile {
        Tile::Wall(w) => w.bullets,
        Tile::MovableWall(w) => w.bullets,
        _ => 0,
    };
    let mut k: i8 = 0;
    while k < lodged
        invariant
            0 <= k <= lodged,
            lodged == old(map).tile_at(x as int, y as int).lodged(),
            map.wf(),
            old(map).wf(),
            map.interior(x as int, y as int),
            0 <= dmg,
            0 <= frame <= TICK_LIMIT,
            map.tiles == old(map).tiles,
            map.pass == old(map).pass,
            map.enemies == old(map).enemies,
            map.chests == old(map).chests,
            map.bombs == old(map).bombs,
            map.turrets == old(map).turrets,
            map.emps == old(map).emps,
            map.boss == old(map).boss,
            map.spawned == old(map).spawned,
            map.w == old(map).w,
            map.h == old(map).h,
            map.bullets@.len() == old(map).bullets@.len() + k,
            map.bullets@.subrange(0, old(map).bullets@.len() as int) == old(map).bullets@,
            forall|j: int|
                old(map).bullets@.len() <= j < map.bullets@.len() ==> is_shrapnel(
                    #[trigger] map.bullets@[j],
                    x as int,
                    y as int,
                    dmg as int,
                    frame as int,
                ),
            old(map).bullets_settled() ==> map.bullets_settled(),
        decreases lodged - k,
    {
        let d: usize = roll(rng, 0, 4) as usize;
        let (dx, dy) = step(d);
        let cd: i32 = roll(rng, 2, 5);
        let ghost cur = map.bullets@;
        let b = Bullet { x, y, dx, dy, dmg, pierce: 0, fork: 0, last: 0, cd, start: frame, hit: None };
        map.bullets.push(b);
        proof {
            assert(b == shrapnel(x as int, y as int, dmg as int, frame as int, d as int, cd as int));
            assert(map.bullets@.subrange(0, old(map).bullets@.len() as int) =~= cur.subrange(
                0,
                old(map).bullets@.len() as int,
            ));
            assert forall|j: int| 0 <= j < map.bullets.len() implies (#[trigger] map.bullets@[j]).wf()
                && map.inside(map.bullets@[j].x as int, map.bullets@[j].y as int) by {
                if j < cur.len() {
                    assert(map.bullets@[j] == cur[j]);
                }
            }
            assert forall|j: int|
                old(map).bullets@.len() <= j < map.bullets@.len() implies is_shrapnel(
                #[trigger] map.bullets@[j],
                x as int,
                y as int,
                dmg as int,
                frame as int,
            ) by {
                if j < cur.len() {
                    assert(map.bullets@[j] == cur[j]);
                }
            }
            if old(map).bullets_settled() {
                assert forall|j: int| 0 <= j < map.bullets.len() implies map.interior(
                    (#[trigger] map.bullets@[j]).x as int,
                    map.bullets@[j].y as int,
                ) by {
                    if j < cur.len() {
                        assert(map.bullets@[j] == cur[j]);
                    }
                }
            }
        }
        k = k + 1;
    }
    match tile {
        Tile::Chest(_) => {
            map.clear_chest(x, y);
            assert(old(map).enemy_at(x as int, y as int) is None);
        },
        _ => {
            map.put_tile(x, y, Tile::Empty);
        },
    }
}

/// Whether `(x2, y2)` is one of the four cells next to `(x, y)`.
pub open spec fn beside(x: int, y: int, x2: int, y2: int) -> bool {
    manhattan(x, y, x2, y2) == 1
}

/// Whether `(x2, y2)` is one of the four cells diagonal to `(x, y)`.
pub open spec fn diagonal(x: int, y: int, x2: int, y2: int) -> bool {
    (x2 == x - 1 || x2 == x + 1) && (y2 == y - 1 || y2 == y + 1)
}

/// The place of `(x2, y2)` in the order in which a blast at `(x, y)` clears
/// the cells next to it: left, below, right, above; four for any other
/// cell.
pub open spec fn turn(x: int, y: int, x2: int, y2: int) -> int {
    if x2 == x - 1 && y2 == y {
        0
    } else if x2 == x && y2 == y + 1 {
        1
    } else if x2 == x + 1 && y2 == y {
        2
    } else if x2 == x && y2 == y - 1 {
        3
    } else {
        4
    }
}

/// The bullets lodged in the cell `(x2, y2)` of `before` that a blast at
/// `(x, y)` has set free when it has cleared `n` cells: those of an interior
/// cell whose turn has come.
pub open spec fn freed(before: &Arena, x: int, y: int, x2: int, y2: int, n: int) -> int {
    if turn(x, y, x2, y2) < n && before.interior(x2, y2) {
        before.tile_at(x2, y2).lodged()
    } else {
        0
    }
}

/// Whether `b` is a shrapnel bullet from an interior cell next to `(x, y)`.
pub open spec fn flies_from_beside(
    b: Bullet,
    before: &Arena,
    x: int,
    y: int,
    dmg: int,
    frame: int,
) -> bool {
    exists|x2: int, y2: int|
        beside(x, y, x2, y2) && before.interior(x2, y2) && #[trigger] is_shrapnel(
            b,
            x2,
            y2,
            dmg,
            frame,
        )
}

/// Whether `after` is `before` with the first `n` of the cells next to
/// `(x, y)` cleared by a blast at `frame`, as far as they are interior:
/// their tiles are empty, and they can be entered unless an enemy or a
/// turret stands on them; the chest queue names what it named but for the
/// cells cleared; the bullets are those before, followed by as much
/// shrapnel from those cells as was lodged in their walls.
pub open spec fn cleared_upto(
    before: &Arena,
    after: &Arena,
    x: int,
    y: int,
    dmg: int,
    frame: int,
    n: int,
) -> bool {
    &&& forall|x2: int, y2: int|
        before.inside(x2, y2) ==> #[trigger] after.tile_at(x2, y2) == (if turn(x, y, x2, y2) < n
            && before.interior(x2, y2) {
            Tile::Empty
        } else {
            before.tile_at(x2, y2)
        })
    &&& forall|x2: int, y2: int|
        before.inside(x2, y2) ==> #[trigger] after.pass_at(x2, y2) == (if turn(x, y, x2, y2) < n
            && before.interior(x2, y2) {
            before.enemy_at(x2, y2) is None && !before.has_turret(x2, y2)
        } else {
            before.pass_at(x2, y2)
        })
    &&& after.enemies == before.enemies
    &&& forall|c: (i32, i32)|
        after.chests@.contains(c) <==> (#[trigger] before.chests@.contains(c) && !(turn(
            x,
            y,
            c.0 as int,
            c.1 as int,
        ) < n && before.interior(c.0 as int, c.1 as int)))
    &&& after.bullets@.len() == before.bullets@.len() + freed(before, x, y, x - 1, y, n) + freed(
        before,
        x,
        y,
        x,
        y + 1,
        n,
    ) + freed(before, x, y, x + 1, y, n) + freed(before, x, y, x, y - 1, n)
    &&& after.bullets@.subrange(0, before.bullets@.len() as int) == before.bullets@
    &&& forall|k: int|
        before.bullets@.len() <= k < after.bullets@.len() ==> flies_from_beside(
            #[trigger] after.bullets@[k],
            before,
            x,
            y,
            dmg,
            frame,
        )
    &&& after.bombs == before.bombs
    &&& after.turrets == before.turrets
    &&& after.emps == before.emps
    &&& after.boss == before.boss
    &&& after.spawned == before.spawned
    &&& after.w == before.w
    &&& after.h == before.h
}

/// The cell next to `(x, y)` whose turn to be cleared is `n`: left, below,
/// right, above (see `turn`).
pub open spec fn beside_cell(x: int, y: int, n: int) -> (int, int) {
    if n == 0 {
        (x - 1, y)
    } else if n == 1 {
        (x, y + 1)
    } else if n == 2 {
        (x + 1, y)
    } else {
        (x, y - 1)
    }
}

/// Whether `after` is `before` with the cell next to `(x, y)` whose turn is
/// `n` cleared by a blast at `frame`, if it is interior (see
/// `cell_cleared`), and as it was if not.
pub open spec fn cell_turn(
    before: &Arena,
    after: &Arena,
    x: int,
    y: int,
    dmg: int,
    frame: int,
    n: int,
) -> bool {
    if before.interior(beside_cell(x, y, n).0, beside_cell(x, y, n).1) {
        cell_cleared(before, after, beside_cell(x, y, n).0, beside_cell(x, y, n).1, dmg, frame)
    } else {
        *after == *before
    }
}

/// Whether `after` is reached from `before` by clearing the first `n` of
/// the cells next to `(x, y)`, one after the other, as far as they are
/// interior (see `cell_turn`).
pub open spec fn cells_cleared(
    before: &Arena,
    after: &Arena,
    x: int,
    y: int,
    dmg: int,
    frame: int,
    n: int,
) -> bool
    decreases n,
{
    if n <= 0 {
        *after == *before
    } else {
        exists|m: Arena|
            {
                &&& cells_cleared(before, &m, x, y, dmg, frame, n - 1)
                &&& #[trigger] cell_turn(&m, after, x, y, dmg, frame, n - 1)
            }
    }
}

/// Whether `after` is `before` with the interior cells next to `(x, y)`
/// cleared by a blast at `frame`, one after the other: see `cells_cleared`
/// and, for what that comes to, `cleared_upto`, with all four cells done.
pub open spec fn surroundings_cleared(
    before: &Arena,
    after: &Arena,
    x: int,
    y: int,
    dmg: int,
    frame: int,
) -> bool {
    cleared_upto(before, after, x, y, dmg, frame, 4) && cells_cleared(
        before,
        after,
        x,
        y,
        dmg,
        frame,
        4,
    )
}

/// One more cell cleared: `(x2, y2)`, whose turn is `n`.
#[verifier::rlimit(40)]
proof fn lemma_clear_step(
    before: &Arena,
    cur: &Arena,
    next: &Arena,
    x: int,
    y: int,
    x2: int,
    y2: int,
    dmg: int,
    frame: int,
    n: int,
)
    requires
        before.wf(),
        cur.wf(),
        before.inside(x, y),
        0 <= n < 4,
        turn(x, y, x2, y2) == n,
        cleared_upto(before, cur, x, y, dmg, frame, n),
        if before.interior(x2, y2) {
            cell_cleared(cur, next, x2, y2, dmg, frame)
        } else {
            *next == *cur
        },
    ensures
        cleared_upto(before, next, x, y, dmg, frame, n + 1),
{
    assert(before.inside(x2, y2) ==> cur.tile_at(x2, y2) == before.tile_at(x2, y2));
    if before.interior(x2, y2) {
        assert(next.bullets@.subrange(0, before.bullets@.len() as int) =~= cur.bullets@.subrange(
            0,
            before.bullets@.len() as int,
        )) by {
            assert(next.bullets@.subrange(0, cur.bullets@.len() as int) == cur.bullets@);
            assert forall|k: int| 0 <= k < before.bullets@.len() implies next.bullets@[k]
                == cur.bullets@[k] by {
                assert(next.bullets@.subrange(0, cur.bullets@.len() as int)[k] == next.bullets@[k]);
            }
        }
        assert forall|k: int| before.bullets@.len() <= k < next.bullets@.len() implies flies_from_beside(
            #[trigger] next.bullets@[k],
            before,
            x,
            y,
            dmg,
            frame,
        ) by {
            if k < cur.bullets@.len() {
                assert(next.bullets@.subrange(0, cur.bullets@.len() as int)[k] == next.bullets@[k]);
                assert(flies_from_beside(cur.bullets@[k], before, x, y, dmg, frame));
            } else {
                assert(is_shrapnel(next.bullets@[k], x2, y2, dmg, frame));
            }
        }
        let q = cur.chests@;
        assert forall|c: (i32, i32)|
            next.chests@.contains(c) <==> (q.contains(c) && !(c.0 == x2 && c.1 == y2)) by {
            if cur.tile_at(x2, y2) is Chest {
                let idx = choose|idx: int|
                    0 <= idx < q.len() && q[idx] == (x2 as i32, y2 as i32) && next.chests@
                        == #[trigger] q.remove(idx);
                if next.chests@.contains(c) {
                    let j = choose|j: int| 0 <= j < next.chests@.len() && next.chests@[j] == c;
                    let j2 = if j < idx { j } else { j + 1 };
                    assert(q[j2] == c);
                    assert(q[j2] != q[idx]);
                }
                if q.contains(c) && !(c.0 == x2 && c.1 == y2) {
                    let j = choose|j: int| 0 <= j < q.len() && q[j] == c;
                    if j < idx {
                        assert(next.chests@[j] == c);
                    } else {
                        assert(next.chests@[j - 1] == c);
                    }
                }
            } else {
                if q.contains(c) && c.0 == x2 && c.1 == y2 {
                    let j = choose|j: int| 0 <= j < q.len() && q[j] == c;
                    assert(cur.tile_at(q[j].0 as int, q[j].1 as int) is Chest);
                }
            }
        }
        assert forall|c: (i32, i32)|
            next.chests@.contains(c) <==> (#[trigger] before.chests@.contains(c) && !(turn(
                x,
                y,
                c.0 as int,
                c.1 as int,
            ) < n + 1 && before.interior(c.0 as int, c.1 as int))) by {
            assert(next.chests@.contains(c) <==> (q.contains(c) && !(c.0 == x2 && c.1 == y2)));
        }
    }
}

/// Clears the interior cells next to `(x, y)` by a blast at `frame`: see
/// `surroundings_cleared`. Where the shrapnel flies and how fast is up to
/// `rng`.
pub fn clear_around(map: &mut Arena, x: i32, y: i32, dmg: i8, frame: i32, rng: &mut StdRng)
    requires
        old(map).wf(),
        old(map).inside(x as int, y as int),
        0 <= dmg,
        0 <= frame <= TICK_LIMIT,
    ensures
        final(map).wf(),
        surroundings_cleared(old(map), final(map), x as int, y as int, dmg as int, frame as int),
        old(map).bullets_settled() ==> final(map).bullets_settled(),
{
    proof {
        assert(map.bullets@.subrange(0, map.bullets@.len() as int) =~= map.bullets@);
        assert(cleared_upto(old(map), map, x as int, y as int, dmg as int, frame as int, 0));
    }
    let mut n: usize = 0;
    while n < 4
        invariant
            n <= 4,
            old(map).wf(),
            map.wf(),
            old(map).inside(x as int, y as int),
            0 <= dmg,
            0 <= frame <= TICK_LIMIT,
            cleared_upto(old(map), map, x as int, y as int, dmg as int, frame as int, n as int),
            cells_cleared(old(map), map, x as int, y as int, dmg as int, frame as int, n as int),
            old(map).bullets_settled() ==> map.bullets_settled(),
        decreases 4 - n,
    {
        let (dx, dy) = match n {
            0 => (-1, 0),
            1 => (0, 1),
            2 => (1, 0),
            _ => (0, -1),
        };
        let x2: i32 = x + dx;
        let y2: i32 = y + dy;
        let ghost cur = *map;
        if x2 > 0 && x2 < map.w - 1 && y2 > 0 && y2 < map.h - 1 {
            clear_cell(map, x2, y2, dmg, frame, rng);
        }
        proof {
            lemma_clear_step(
                old(map),
                &cur,
                map,
                x as int,
                y as int,
                x2 as int,
                y2 as int,
                dmg as int,
                frame as int,
                n as int,
            );
            assert(beside_cell(x as int, y as int, n + 1 - 1) == (x2 as int, y2 as int));
            assert(cur.interior(x2 as int, y2 as int) ==> cell_cleared(
                &cur,
                map,
                x2 as int,
                y2 as int,
                dmg as int,
                frame as int,
            ));
            assert(!cur.interior(x2 as int, y2 as int) ==> *map == cur);
            assert(cell_turn(
                &cur,
                map,
                x as int,
                y as int,
                dmg as int,
                frame as int,
                n + 1 - 1,
            ));
            assert(cells_cleared(
                old(map),
                &cur,
                x as int,
                y as int,
                dmg as int,
                frame as int,
                n + 1 - 1,
            ));
            assert(cells_cleared(
                old(map),
                map,
                x as int,
                y as int,
                dmg as int,
                frame as int,
                n + 1,
            ));
        }
        n = n + 1;
    }
}

/// Whether `after` is `before` with the permanent walls on the interior
/// cells diagonal to `(x, y)` turned into walls that can be pushed, with
/// the same bullets lodged in them.
pub open spec fn corners_softened(before: &Arena, after: &Arena, x: int, y: int) -> bool {
    &&& forall|x2: int, y2: int|
        before.inside(x2, y2) ==> #[trigger] after.tile_at(x2, y2) == (if diagonal(x, y, x2, y2)
            && before.interior(x2, y2) && before.tile_at(x2, y2) is Wall {
            Tile::MovableWall(MovableWall { bullets: before.tile_at(x2, y2)->Wall_0.bullets })
        } else {
            before.tile_at(x2, y2)
        })
    &&& forall|x2: int, y2: int|
        before.inside(x2, y2) ==> #[trigger] after.pass_at(x2, y2) == before.pass_at(x2, y2)
    &&& after.enemies == before.enemies
    &&& after.same_things(before)
}

/// Turns the permanent wall on the cell `(x, y)`, if there is one and the
/// cell is interior, into a wall that can be pushed.
fn soften(map: &mut Arena, x: i32, y: i32)
    requires
        old(map).wf(),
        -1 <= x <= old(map).w,
        -1 <= y <= old(map).h,
    ensures
        final(map).wf(),
        final(map).enemies == old(map).enemies,
        final(map).same_things(old(map)),
        forall|x2: int, y2: int|
            old(map).inside(x2, y2) ==> #[trigger] final(map).pass_at(x2, y2) == old(map).pass_at(
                x2,
                y2,
            ),
        forall|x2: int, y2: int|
            old(map).inside(x2, y2) ==> #[trigger] final(map).tile_at(x2, y2) == (if x2 == x && y2
                == y && old(map).interior(x2, y2) && old(map).tile_at(x2, y2) is Wall {
                Tile::MovableWall(MovableWall { bullets: old(map).tile_at(x2, y2)->Wall_0.bullets })
            } else {
                old(map).tile_at(x2, y2)
            }),
{
    if x > 0 && x < map.w - 1 && y > 0 && y < map.h - 1 {
        match map.tile(x, y) {
            Tile::Wall(w) => {
                assert(old(map).tile_at(x as int, y as int).wf());
                assert(!old(map).pass_at(x as int, y as int));
                map.put_tile(x, y, Tile::MovableWall(MovableWall { bullets: w.bullets }));
            },
            _ => {},
        }
    }
}

/// Turns the permanent walls diagonal to `(x, y)` into walls that can be
/// pushed: see `corners_softened`.
pub fn soften_corners(map: &mut Arena, x: i32, y: i32)
    requires
        old(map).wf(),
        old(map).inside(x as int, y as int),
    ensures
        final(map).wf(),
        corners_softened(old(map), final(map), x as int, y as int),
{
    soften(map, x - 1, y - 1);
    soften(map, x - 1, y + 1);
    soften(map, x + 1, y + 1);
    soften(map, x + 1, y - 1);
}

/// What a bomb's blast does to each enemy it reaches.
pub open spec fn blast_of(b: Bomb) -> Shock {
    Shock { dmg: b.dmg, slows: false, slow: 0, immobilize: false }
}

/// Whether the state after is the state before with the bomb at position
/// `i` gone off at `frame`: the cells next to it are cleared, the walls
/// diagonal to it softened, every enemy within its radius struck, the
/// player dead if within its radius, and the other bombs chained.
pub open spec fn detonated(
    before: &Arena,
    after: &Arena,
    was: &Player,
    now: &Player,
    cues_before: Seq<Cue>,
    cues_after: Seq<Cue>,
    i: int,
    frame: int,
) -> bool {
    let b = before.bombs@[i];
    exists|cleared: Arena, softened: Arena, blasted: Arena, hurt: Player|
        {
            &&& #[trigger] surroundings_cleared(
                before,
                &cleared,
                b.x as int,
                b.y as int,
                was.stat(Stat::DmgBomb),
                frame,
            )
            &&& #[trigger] corners_softened(&cleared, &softened, b.x as int, b.y as int)
            &&& #[trigger] swept(
                &softened,
                &blasted,
                was,
                &hurt,
                cues_before,
                cues_after,
                b.x as int,
                b.y as int,
                b.radius as int,
                frame,
                blast_of(b),
                Stat::ScoreBomb,
                before.w as int,
                0,
            )
            &&& now.dead == (hurt.dead || manhattan(
                b.x as int,
                b.y as int,
                was.x as int,
                was.y as int,
            ) <= b.radius)
            &&& now.stats == hurt.stats
            &&& now.progress == hurt.progress
            &&& now.x == hurt.x
            &&& now.y == hurt.y
            &&& now.running == hurt.running
            &&& now.paused == hurt.paused
            &&& now.upgrading == hurt.upgrading
            &&& now.upgrades == hurt.upgrades
            &&& after.tiles == blasted.tiles
            &&& after.pass == blasted.pass
            &&& after.enemies == blasted.enemies
            &&& after.bullets == blasted.bullets
            &&& after.chests == blasted.chests
            &&& after.boss == blasted.boss
        }
}

/// Lets the bomb at position `i` go off at `frame`: see `detonated`. The
/// other bombs are chained, and nothing else about the bombs, turrets and
/// pulse records changes.
pub fn detonate(
    map: &mut Arena,
    player: &mut Player,
    cues: &mut Vec<Cue>,
    i: usize,
    frame: i32,
    rng: &mut StdRng,
)
    requires
        old(map).wf(),
        old(player).wf(),
        old(map).hosts(old(player)),
        i < old(map).bombs.len(),
        0 <= frame <= TICK_LIMIT,
    ensures
        final(map).wf(),
        final(player).wf(),
        detonated(
            old(map),
            final(map),
            old(player),
            final(player),
            old(cues)@,
            final(cues)@,
            i as int,
            frame as int,
        ),
        final(map).bombs.len() == old(map).bombs.len(),
        forall|j: int|
            0 <= j < old(map).bombs.len() ==> #[trigger] final(map).bombs@[j] == (if j == i {
                old(map).bombs@[j]
            } else {
                chained(old(map).bombs@[j], old(map).bombs@[i as int], frame as int)
            }),
        final(map).turrets == old(map).turrets,
        final(map).emps == old(map).emps,
        final(map).spawned == old(map).spawned,
        final(map).w == old(map).w,
        final(map).h == old(map).h,
        final(player).x == old(player).x,
        final(player).y == old(player).y,
        final(player).dead == (old(player).dead || manhattan(
            old(map).bombs@[i as int].x as int,
            old(map).bombs@[i as int].y as int,
            old(player).x as int,
            old(player).y as int,
        ) <= old(map).bombs@[i as int].radius),
        old(cues)@.len() <= final(cues)@.len(),
        final(cues)@.subrange(0, old(cues)@.len() as int) == old(cues)@,
        old(map).bullets_settled() ==> final(map).bullets_settled(),
        scored(old(player), final(player)),
        old(player).paused ==> final(player).paused,
{
    let b: Bomb = map.bombs[i];
    assert(b.wf() && map.interior(b.x as int, b.y as int));
    proof {
        assert(Stat::DmgBomb.least() <= player.stat(Stat::DmgBomb) <= Stat::DmgBomb.most());
    }
    let dmg: i8 = player.get(Stat::DmgBomb) as i8;
    clear_around(map, b.x, b.y, dmg, frame, rng);
    let ghost cleared = *map;
    soften_corners(map, b.x, b.y);
    let ghost softened = *map;
    sweep(
        map,
        player,
        cues,
        b.x,
        b.y,
        b.radius,
        frame,
        Shock { dmg: b.dmg, slows: false, slow: 0, immobilize: false },
        Stat::ScoreBomb,
        rng,
    );
    let ghost blasted = *map;
    let ghost hurt = *player;
    proof {
        lemma_swept_scores(
            &softened,
            &blasted,
            old(player),
            &hurt,
            old(cues)@,
            cues@,
            b.x as int,
            b.y as int,
            b.radius as int,
            frame as int,
            blast_of(b),
            Stat::ScoreBomb,
            old(map).w as int,
            0,
        );
    }
    if dist(b.x, b.y, player.x, player.y) <= b.radius {
        player.dead = true;
        proof {
            lemma_wf_carries(&hurt, player);
        }
    }
    chain(map, i, frame);
    proof {
        assert(surroundings_cleared(
            old(map),
            &cleared,
            b.x as int,
            b.y as int,
            old(player).stat(Stat::DmgBomb),
            frame as int,
        ));
        assert(corners_softened(&cleared, &softened, b.x as int, b.y as int));
        assert(swept(
            &softened,
            &blasted,
            old(player),
            &hurt,
            old(cues)@,
            cues@,
            b.x as int,
            b.y as int,
            b.radius as int,
            frame as int,
            blast_of(b),
            Stat::ScoreBomb,
            old(map).w as int,
            0,
        ));
    }
}

/// Whether the bomb `b` is the bomb `a`, as it was or with its end pulled
/// forward to 20 ticks from `frame`.
pub open spec fn pulled(b: Bomb, a: Bomb, frame: int) -> bool {
    b == a || (frame <= a.end() - 20 && b == Bomb { start: (frame + 20 - a.duration) as i32, ..a })
}

/// Whether the bomb `b` is one of the bombs `before`, as it was or pulled
/// forward.
pub open spec fn stems_from(b: Bomb, before: Seq<Bomb>, frame: int) -> bool {
    exists|k: int| 0 <= k < before.len() && #[trigger] pulled(b, before[k], frame)
}

/// Whether the bomb `a` is among the bombs `cur`, as it was or pulled
/// forward.
pub open spec fn survives_in(a: Bomb, cur: Seq<Bomb>, frame: int) -> bool {
    exists|j: int| 0 <= j < cur.len() && #[trigger] pulled(cur[j], a, frame)
}

/// Whether the bomb `a` still waits for its turn among the bombs `cur`
/// from position `i` on.
pub open spec fn waiting(cur: Seq<Bomb>, i: int, a: Bomb) -> bool {
    exists|j: int| i <= j < cur.len() && #[trigger] cur[j] == a
}

/// Whether the blast of the bomb `a` at `frame` shows in the bombs `cur`
/// and in the player at `(px, py)`: every bomb within its radius ends
/// within 20 ticks, and the player is dead if within its radius.
pub open spec fn handled(cur: Seq<Bomb>, a: Bomb, frame: int, px: int, py: int, dead: bool) -> bool {
    &&& forall|j: int|
        0 <= j < cur.len() && manhattan(
            a.x as int,
            a.y as int,
            (#[trigger] cur[j]).x as int,
            cur[j].y as int,
        ) <= a.radius ==> cur[j].end() <= frame + 20
    &&& manhattan(a.x as int, a.y as int, px, py) <= a.radius ==> dead
}

/// What holds of the bombs while they are updated at `frame`, when the
/// first `i` of the bombs `cur` had their turn.
pub open spec fn bombs_inv(
    before: Seq<Bomb>,
    cur: Seq<Bomb>,
    i: int,
    frame: int,
    px: int,
    py: int,
    dead_before: bool,
    dead: bool,
) -> bool {
    &&& forall|j: int|
        0 <= j < cur.len() ==> (#[trigger] cur[j]).wf() && stems_from(cur[j], before, frame)
    &&& forall|k: int|
        0 <= k < before.len() && frame < before[k].end() ==> survives_in(
            #[trigger] before[k],
            cur,
            frame,
        )
    &&& forall|j: int| 0 <= j < i && j < cur.len() ==> frame < (#[trigger] cur[j]).end()
    &&& forall|k: int|
        0 <= k < before.len() && detonates(#[trigger] before[k], frame) ==> waiting(
            cur,
            i,
            before[k],
        ) || handled(cur, before[k], frame, px, py, dead)
    &&& dead_before ==> dead
    &&& dead ==> dead_before || exists|k: int|
        0 <= k < before.len() && detonates(#[trigger] before[k], frame) && manhattan(
            before[k].x as int,
            before[k].y as int,
            px,
            py,
        ) <= before[k].radius
}

/// The bombs before their update satisfy what holds during it.
proof fn lemma_bombs_start(before: Seq<Bomb>, frame: int, px: int, py: int, dead: bool)
    requires
        forall|j: int| 0 <= j < before.len() ==> (#[trigger] before[j]).wf(),
    ensures
        bombs_inv(before, before, 0, frame, px, py, dead, dead),
{
    assert forall|j: int| 0 <= j < before.len() implies (#[trigger] before[j]).wf() && stems_from(
        before[j],
        before,
        frame,
    ) by {
        assert(pulled(before[j], before[j], frame));
    }
    assert forall|k: int| 0 <= k < before.len() && frame < before[k].end() implies survives_in(
        #[trigger] before[k],
        before,
        frame,
    ) by {
        assert(pulled(before[k], before[k], frame));
    }
}

/// An expired bomb at position `i` is removed.
#[verifier::rlimit(60)]
proof fn lemma_bombs_removed(
    before: Seq<Bomb>,
    cur: Seq<Bomb>,
    i: int,
    frame: int,
    px: int,
    py: int,
    dead_before: bool,
    dead: bool,
)
    requires
        bombs_inv(before, cur, i, frame, px, py, dead_before, dead),
        0 <= i < cur.len(),
        frame >= cur[i].end(),
        0 <= frame <= TICK_LIMIT,
    ensures
        bombs_inv(
            before,
            cur.update(i, cur.last()).drop_last(),
            i,
            frame,
            px,
            py,
            dead_before,
            dead,
        ),
{
    let next = cur.update(i, cur.last()).drop_last();
    let last = cur.len() - 1;
    assert forall|j: int| 0 <= j < next.len() implies (#[trigger] next[j]).wf() && stems_from(
        next[j],
        before,
        frame,
    ) by {
        let j0 = if j == i { last } else { j };
        assert(next[j] == cur[j0]);
        assert(cur[j0].wf());
    }
    assert forall|k: int| 0 <= k < before.len() && frame < before[k].end() implies survives_in(
        #[trigger] before[k],
        next,
        frame,
    ) by {
        assert(survives_in(before[k], cur, frame));
        let j = choose|j: int| 0 <= j < cur.len() && #[trigger] pulled(cur[j], before[k], frame);
        assert(cur[j].wf());
        assert(cur[i].wf());
        assert(j != i);
        if j == last {
            assert(next[i] == cur[j]);
            assert(pulled(next[i], before[k], frame));
        } else {
            assert(next[j] == cur[j]);
            assert(pulled(next[j], before[k], frame));
        }
    }
    assert forall|j: int| 0 <= j < i && j < next.len() implies frame < (#[trigger] next[j]).end() by {
        assert(next[j] == cur[j]);
    }
    assert forall|k: int|
        0 <= k < before.len() && detonates(#[trigger] before[k], frame) implies waiting(
        next,
        i,
        before[k],
    ) || handled(next, before[k], frame, px, py, dead) by {
        if waiting(cur, i, before[k]) {
            let j = choose|j: int| i <= j < cur.len() && #[trigger] cur[j] == before[k];
            assert(j != i);
            if j == last {
                assert(next[i] == before[k]);
            } else {
                assert(next[j] == before[k]);
            }
        } else {
            assert forall|j: int|
                0 <= j < next.len() && manhattan(
                    before[k].x as int,
                    before[k].y as int,
                    (#[trigger] next[j]).x as int,
                    next[j].y as int,
                ) <= before[k].radius implies next[j].end() <= frame + 20 by {
                let j0 = if j == i { last } else { j };
                assert(next[j] == cur[j0]);
            }
        }
    }
}

/// The bomb at position `i` had its turn without going off.
proof fn lemma_bombs_passed(
    before: Seq<Bomb>,
    cur: Seq<Bomb>,
    i: int,
    frame: int,
    px: int,
    py: int,
    dead_before: bool,
    dead: bool,
)
    requires
        bombs_inv(before, cur, i, frame, px, py, dead_before, dead),
        0 <= i < cur.len(),
        frame < cur[i].end(),
        !detonates(cur[i], frame),
    ensures
        bombs_inv(before, cur, i + 1, frame, px, py, dead_before, dead),
{
    assert forall|k: int|
        0 <= k < before.len() && detonates(#[trigger] before[k], frame) implies waiting(
        cur,
        i + 1,
        before[k],
    ) || handled(cur, before[k], frame, px, py, dead) by {
        if waiting(cur, i, before[k]) {
            let j = choose|j: int| i <= j < cur.len() && #[trigger] cur[j] == before[k];
            assert(j != i);
        }
    }
}

/// The bomb at position `i` went off and chained the others.
#[verifier::rlimit(60)]
proof fn lemma_bombs_detonated(
    before: Seq<Bomb>,
    cur: Seq<Bomb>,
    next: Seq<Bomb>,
    i: int,
    frame: int,
    px: int,
    py: int,
    dead_before: bool,
    dead: bool,
    dead2: bool,
)
    requires
        bombs_inv(before, cur, i, frame, px, py, dead_before, dead),
        0 <= i < cur.len(),
        0 <= frame <= TICK_LIMIT,
        detonates(cur[i], frame),
        next.len() == cur.len(),
        forall|j: int|
            0 <= j < cur.len() ==> #[trigger] next[j] == (if j == i {
                cur[j]
            } else {
                chained(cur[j], cur[i], frame)
            }),
        dead2 == (dead || manhattan(cur[i].x as int, cur[i].y as int, px, py) <= cur[i].radius),
    ensures
        bombs_inv(before, next, i + 1, frame, px, py, dead_before, dead2),
{
    let by = cur[i];
    assert(by.wf());
    assert(stems_from(by, before, frame));
    let k0 = choose|k: int| 0 <= k < before.len() && #[trigger] pulled(by, before[k], frame);
    assert(by == before[k0]);
    assert forall|j: int| 0 <= j < next.len() implies (#[trigger] next[j]).wf() && stems_from(
        next[j],
        before,
        frame,
    ) by {
        assert(cur[j].wf());
        assert(stems_from(cur[j], before, frame));
        let k = choose|k: int| 0 <= k < before.len() && #[trigger] pulled(cur[j], before[k], frame);
        assert(pulled(next[j], before[k], frame));
    }
    assert forall|k: int| 0 <= k < before.len() && frame < before[k].end() implies survives_in(
        #[trigger] before[k],
        next,
        frame,
    ) by {
        assert(survives_in(before[k], cur, frame));
        let j = choose|j: int| 0 <= j < cur.len() && #[trigger] pulled(cur[j], before[k], frame);
        assert(cur[j].wf());
        assert(pulled(next[j], before[k], frame));
    }
    assert forall|j: int| 0 <= j < i + 1 && j < next.len() implies frame < (#[trigger] next[j]).end() by {
        assert(cur[j].wf());
        if j < i {
            assert(frame < cur[j].end());
        }
    }
    assert forall|k: int|
        0 <= k < before.len() && detonates(#[trigger] before[k], frame) implies waiting(
        next,
        i + 1,
        before[k],
    ) || handled(next, before[k], frame, px, py, dead2) by {
        let a = before[k];
        if a == by {
            assert forall|j: int|
                0 <= j < next.len() && manhattan(
                    a.x as int,
                    a.y as int,
                    (#[trigger] next[j]).x as int,
                    next[j].y as int,
                ) <= a.radius implies next[j].end() <= frame + 20 by {
                assert(cur[j].wf());
            }
        } else if waiting(cur, i, a) {
            let j = choose|j: int| i <= j < cur.len() && #[trigger] cur[j] == a;
            assert(j != i);
            assert(next[j] == a);
        } else {
            assert forall|j: int|
                0 <= j < next.len() && manhattan(
                    a.x as int,
                    a.y as int,
                    (#[trigger] next[j]).x as int,
                    next[j].y as int,
                ) <= a.radius implies next[j].end() <= frame + 20 by {
                assert(cur[j].wf());
                assert(cur[j].end() <= frame + 20);
            }
        }
    }
    if dead2 && !dead {
        assert(detonates(before[k0], frame));
    }
}

/// When every bomb had its turn, the update of the bombs is done.
proof fn lemma_bombs_done(
    before: Seq<Bomb>,
    now: Seq<Bomb>,
    frame: int,
    px: int,
    py: int,
    dead_before: bool,
    dead: bool,
)
    requires
        bombs_inv(before, now, now.len() as int, frame, px, py, dead_before, dead),
    ensures
        forall|j: int| 0 <= j < now.len() ==> frame < (#[trigger] now[j]).end(),
        forall|j: int| 0 <= j < now.len() ==> stems_from(#[trigger] now[j], before, frame),
        forall|k: int|
            0 <= k < before.len() && frame < before[k].end() ==> survives_in(
                #[trigger] before[k],
                now,
                frame,
            ),
        forall|k: int, j: int|
            0 <= k < before.len() && 0 <= j < now.len() && detonates(#[trigger] before[k], frame)
                && manhattan(
                before[k].x as int,
                before[k].y as int,
                (#[trigger] now[j]).x as int,
                now[j].y as int,
            ) <= before[k].radius ==> now[j].end() <= frame + 20,
        dead == (dead_before || exists|k: int|
            0 <= k < before.len() && detonates(#[trigger] before[k], frame) && manhattan(
                before[k].x as int,
                before[k].y as int,
                px,
                py,
            ) <= before[k].radius),
{
    assert forall|k: int, j: int|
        0 <= k < before.len() && 0 <= j < now.len() && detonates(#[trigger] before[k], frame)
            && manhattan(
            before[k].x as int,
            before[k].y as int,
            (#[trigger] now[j]).x as int,
            now[j].y as int,
        ) <= before[k].radius implies now[j].end() <= frame + 20 by {
        assert(!waiting(now, now.len() as int, before[k]));
        assert(handled(now, before[k], frame, px, py, dead));
    }
    if exists|k: int|
        0 <= k < before.len() && detonates(#[trigger] before[k], frame) && manhattan(
            before[k].x as int,
            before[k].y as int,
            px,
            py,
        ) <= before[k].radius {
        let k = choose|k: int|
            0 <= k < before.len() && detonates(#[trigger] before[k], frame) && manhattan(
                before[k].x as int,
                before[k].y as int,
                px,
                py,
            ) <= before[k].radius;
        assert(!waiting(now, now.len() as int, before[k]));
        assert(handled(now, before[k], frame, px, py, dead));
    }
}

/// Whether a bomb placed at `start` ticks at `frame`: every 60 ticks, first
/// 30 ticks after it was placed.
pub open spec fn ticks_at(start: int, frame: int) -> bool {
    (frame - start + 30) % 60 == 0
}

/// Whether a bomb placed at `start` ticks at `frame`.
pub fn is_ticking(start: i32, frame: i32) -> (b: bool)
    requires
        -SPAN_LIMIT <= start <= STAMP_LIMIT,
        0 <= frame <= TICK_LIMIT,
    ensures
        b == ticks_at(start as int, frame as int),
{
    let t: i32 = frame - start + 30;
    if t >= 0 {
        t % 60 == 0
    } else {
        let u: i32 = -t;
        assert((u as int) % 60 == 0 <==> (t as int) % 60 == 0) by {
            vstd::arithmetic::div_mod::lemma_fundamental_div_mod(u as int, 60);
            vstd::arithmetic::div_mod::lemma_fundamental_div_mod(t as int, 60);
            if (u as int) % 60 == 0 {
                let q = (u as int) / 60;
                assert(t as int == 60 * (-q));
                vstd::arithmetic::div_mod::lemma_mod_multiples_basic(-q, 60);
            }
            if (t as int) % 60 == 0 {
                let q = (t as int) / 60;
                assert(u as int == 60 * (-q));
                vstd::arithmetic::div_mod::lemma_mod_multiples_basic(-q, 60);
            }
        }
        u % 60 == 0
    }
}

/// Whether one of the bombs `before` goes off at `frame` with the bomb `b`
/// within its radius.
pub open spec fn caught(b: Bomb, before: Seq<Bomb>, frame: int) -> bool {
    exists|k: int|
        0 <= k < before.len() && detonates(#[trigger] before[k], frame) && manhattan(
            before[k].x as int,
            before[k].y as int,
            b.x as int,
            b.y as int,
        ) <= before[k].radius
}

/// Whether the bomb `b` is one of the bombs `before` as it was, or pulled
/// forward and caught in a blast at `frame`.
pub open spec fn kept_from(b: Bomb, before: Seq<Bomb>, frame: int) -> bool {
    exists|k: int|
        0 <= k < before.len() && (b == #[trigger] before[k] || (pulled(b, before[k], frame)
            && caught(b, before, frame)))
}

/// Whether none of the bombs `before` goes off at `frame`.
pub open spec fn quiet(before: Seq<Bomb>, frame: int) -> bool {
    forall|k: int| 0 <= k < before.len() ==> !detonates(#[trigger] before[k], frame)
}

/// A bomb that goes off at `frame` is one of the bombs from before as it
/// was: one that was pulled forward at `frame` ends 20 ticks later.
proof fn lemma_blast_is_first(before: Seq<Bomb>, b: Bomb, frame: int)
    requires
        forall|k: int| 0 <= k < before.len() ==> (#[trigger] before[k]).wf(),
        0 <= frame <= TICK_LIMIT,
        kept_from(b, before, frame),
        detonates(b, frame),
    ensures
        exists|k: int| 0 <= k < before.len() && b == #[trigger] before[k],
        !quiet(before, frame),
{
    let k = choose|k: int|
        0 <= k < before.len() && (b == #[trigger] before[k] || (pulled(b, before[k], frame)
            && caught(b, before, frame)));
    assert(before[k].wf());
    assert(b == before[k]);
}

/// The bombs stay kept when one of them is removed and the last takes its
/// place.
proof fn lemma_kept_removed(before: Seq<Bomb>, cur: Seq<Bomb>, i: int, frame: int)
    requires
        0 <= i < cur.len(),
        forall|j: int| 0 <= j < cur.len() ==> kept_from(#[trigger] cur[j], before, frame),
    ensures
        forall|j: int|
            0 <= j < cur.len() - 1 ==> kept_from(
                #[trigger] cur.update(i, cur.last()).drop_last()[j],
                before,
                frame,
            ),
{
    let now = cur.update(i, cur.last()).drop_last();
    assert forall|j: int| 0 <= j < cur.len() - 1 implies kept_from(
        #[trigger] now[j],
        before,
        frame,
    ) by {
        let j0 = if j == i { cur.len() - 1 } else { j };
        assert(now[j] == cur[j0]);
    }
}

/// The bombs stay kept when the bomb at position `i` goes off and chains
/// the others.
proof fn lemma_kept_chained(before: Seq<Bomb>, cur: Seq<Bomb>, now: Seq<Bomb>, i: int, frame: int)
    requires
        forall|k: int| 0 <= k < before.len() ==> (#[trigger] before[k]).wf(),
        0 <= frame <= TICK_LIMIT,
        0 <= i < cur.len(),
        now.len() == cur.len(),
        detonates(cur[i], frame),
        forall|j: int| 0 <= j < cur.len() ==> kept_from(#[trigger] cur[j], before, frame),
        forall|j: int|
            0 <= j < cur.len() ==> #[trigger] now[j] == (if j == i {
                cur[j]
            } else {
                chained(cur[j], cur[i], frame)
            }),
    ensures
        forall|j: int| 0 <= j < now.len() ==> kept_from(#[trigger] now[j], before, frame),
{
    lemma_blast_is_first(before, cur[i], frame);
    let k2 = choose|k: int| 0 <= k < before.len() && cur[i] == #[trigger] before[k];
    assert forall|j: int| 0 <= j < now.len() implies kept_from(#[trigger] now[j], before, frame) by {
        let c = cur[j];
        assert(kept_from(c, before, frame));
        if now[j] != c {
            let k = choose|k: int|
                0 <= k < before.len() && (c == #[trigger] before[k] || (pulled(c, before[k], frame)
                    && caught(c, before, frame)));
            assert(before[k].wf());
            assert(detonates(before[k2], frame));
            assert(caught(now[j], before, frame));
            assert(pulled(now[j], before[k], frame));
        }
    }
}

/// The cues `heard` and then the warnings of the bomb `b` at `frame`, heard
/// from `dist` steps away: its tick, if it ticks (see `ticks_at`), and the
/// sound of its explosion 20 ticks before its end.
pub open spec fn warned(heard: Seq<Cue>, b: Bomb, frame: int, dist: int) -> Seq<Cue> {
    let ticked = if ticks_at(b.start as int, frame) {
        heard.push(Cue::faded(Sound::BombTick, 75, 100, dist))
    } else {
        heard
    };
    if frame == b.end() - 20 {
        ticked.push(Cue::faded(Sound::BombExplosion, 80, 100, dist))
    } else {
        ticked
    }
}

/// Whether the state after is the state before with the bomb at position
/// `i` gone off at `frame`: the blast is done (see `detonated`), every other
/// bomb is chained (see `chained`), and the turrets, the pulse records, the
/// enemy numbering and the size are as they were.
pub open spec fn gone_off(
    before: &Arena,
    was: &Player,
    heard: Seq<Cue>,
    i: int,
    frame: int,
    after: &Arena,
    now: &Player,
    heard_after: Seq<Cue>,
) -> bool {
    &&& detonated(before, after, was, now, heard, heard_after, i, frame)
    &&& after.bombs.len() == before.bombs.len()
    &&& forall|j: int|
        0 <= j < before.bombs.len() ==> #[trigger] after.bombs@[j] == (if j == i {
            before.bombs@[j]
        } else {
            chained(before.bombs@[j], before.bombs@[i], frame)
        })
    &&& after.turrets == before.turrets
    &&& after.emps == before.emps
    &&& after.spawned == before.spawned
    &&& after.w == before.w
    &&& after.h == before.h
}

/// Whether the state after is the state before with the bomb at position
/// `i` having had its turn at `frame`, and `advance` tells whether a bomb is
/// left at that position that had its turn.
///
/// A bomb whose fuse is over is removed, and the last bomb takes its place;
/// nothing else changes. Any other bomb warns (see `warned`), and then goes
/// off if it is time to (see `detonates` and `gone_off`); if it is not,
/// nothing but the cues changes.
pub open spec fn bomb_ticked(
    before: &Arena,
    was: &Player,
    heard: Seq<Cue>,
    i: int,
    frame: int,
    after: &Arena,
    now: &Player,
    heard_after: Seq<Cue>,
    advance: bool,
) -> bool {
    let b = before.bombs@[i];
    let told = warned(
        heard,
        b,
        frame,
        manhattan(was.x as int, was.y as int, b.x as int, b.y as int),
    );
    if frame >= b.end() {
        &&& !advance
        &&& after.bombs@ == before.bombs@.update(i, before.bombs@.last()).drop_last()
        &&& after.tiles == before.tiles
        &&& after.pass == before.pass
        &&& after.enemies == before.enemies
        &&& after.bullets == before.bullets
        &&& after.turrets == before.turrets
        &&& after.emps == before.emps
        &&& after.chests == before.chests
        &&& after.boss == before.boss
        &&& after.spawned == before.spawned
        &&& after.w == before.w
        &&& after.h == before.h
        &&& *now == *was
        &&& heard_after == heard
    } else if detonates(b, frame) {
        advance && gone_off(before, was, told, i, frame, after, now, heard_after)
    } else {
        advance && *after == *before && *now == *was && heard_after == told
    }
}

/// Whether the state `(m1, who1, c1)` is reached from `(m0, who0, c0)` by `n`
/// turns of bombs at `frame`, one after the other (see `bomb_ticked`), from
/// the bomb at position `i0` on and with the bomb at position `i1` to have
/// its turn next. After a bomb that stays the turns move on to the next
/// position, and after one that is removed they stay.
pub open spec fn bombs_ticked(
    m0: &Arena,
    who0: &Player,
    c0: Seq<Cue>,
    i0: int,
    frame: int,
    m1: &Arena,
    who1: &Player,
    c1: Seq<Cue>,
    i1: int,
    n: nat,
) -> bool
    decreases n,
{
    if n == 0 {
        *m1 == *m0 && *who1 == *who0 && c1 == c0 && i1 == i0
    } else {
        exists|m: Arena, p: Player, c: Seq<Cue>, i: int, advance: bool|
            {
                &&& bombs_ticked(m0, who0, c0, i0, frame, &m, &p, c, i, (n - 1) as nat)
                &&& 0 <= i < m.bombs@.len()
                &&& #[trigger] bomb_ticked(&m, &p, c, i, frame, m1, who1, c1, advance)
                &&& i1 == if advance {
                    i + 1
                } else {
                    i
                }
            }
    }
}

/// The first of `n` steps, taken apart from the rest: from the position
/// `i0` the first step is taken, and the other steps lead on from the state
/// that it leaves.
pub proof fn lemma_bombs_ticked_first(
    m0: &Arena,
    who0: &Player,
    c0: Seq<Cue>,
    i0: int,
    frame: int,
    m1: &Arena,
    who1: &Player,
    c1: Seq<Cue>,
    i1: int,
    n: nat,
)
    requires
        n >= 1,
        bombs_ticked(m0, who0, c0, i0, frame, m1, who1, c1, i1, n),
    ensures
        0 <= i0 < m0.bombs@.len(),
        exists|m: Arena, p: Player, c: Seq<Cue>, advance: bool|
            {
                &&& #[trigger] bomb_ticked(m0, who0, c0, i0, frame, &m, &p, c, advance)
                &&& bombs_ticked(
                    &m,
                    &p,
                    c,
                    if advance {
                        i0 + 1
                    } else {
                        i0
                    },
                    frame,
                    m1,
                    who1,
                    c1,
                    i1,
                    (n - 1) as nat,
                )
            },
    decreases n,
{
    let (mm, pp, cc, ii, last) = choose|mm: Arena, pp: Player, cc: Seq<Cue>, ii: int, last: bool|
        {
            &&& bombs_ticked(m0, who0, c0, i0, frame, &mm, &pp, cc, ii, (n - 1) as nat)
            &&& 0 <= ii < mm.bombs@.len()
            &&& #[trigger] bomb_ticked(&mm, &pp, cc, ii, frame, m1, who1, c1, last)
            &&& i1 == if last {
                ii + 1
            } else {
                ii
            }
        };
    if n == 1 {
        assert(mm == *m0 && pp == *who0 && cc == c0 && ii == i0);
        assert(bomb_ticked(m0, who0, c0, i0, frame, m1, who1, c1, last));
        assert(bombs_ticked(m1, who1, c1, i1, frame, m1, who1, c1, i1, 0));
    } else {
        lemma_bombs_ticked_first(m0, who0, c0, i0, frame, &mm, &pp, cc, ii, (n - 1) as nat);
        let (m, p, c, advance) = choose|m: Arena, p: Player, c: Seq<Cue>, advance: bool|
            {
                &&& #[trigger] bomb_ticked(m0, who0, c0, i0, frame, &m, &p, c, advance)
                &&& bombs_ticked(
                    &m,
                    &p,
                    c,
                    if advance {
                        i0 + 1
                    } else {
                        i0
                    },
                    frame,
                    &mm,
                    &pp,
                    cc,
                    ii,
                    (n - 2) as nat,
                )
            };
        let next = if advance {
            i0 + 1
        } else {
            i0
        };
        assert(bombs_ticked(&m, &p, c, next, frame, m1, who1, c1, i1, (n - 1) as nat));
    }
}

/// From a position behind the last bomb no step is taken: the state stays
/// as it is.
pub proof fn lemma_bombs_ticked_done(
    m0: &Arena,
    who0: &Player,
    c0: Seq<Cue>,
    i0: int,
    frame: int,
    m1: &Arena,
    who1: &Player,
    c1: Seq<Cue>,
    i1: int,
    n: nat,
)
    requires
        i0 >= m0.bombs@.len(),
        bombs_ticked(m0, who0, c0, i0, frame, m1, who1, c1, i1, n),
    ensures
        n == 0,
        *m1 == *m0,
        *who1 == *who0,
        c1 == c0,
        i1 == i0,
{
    if n >= 1 {
        lemma_bombs_ticked_first(m0, who0, c0, i0, frame, m1, who1, c1, i1, n);
    }
}

/// While bombs are left from the position `i0` on, the steps are not over:
/// steps that end behind the last bomb begin with a step from `i0`.
pub proof fn lemma_bombs_ticked_begun(
    m0: &Arena,
    who0: &Player,
    c0: Seq<Cue>,
    i0: int,
    frame: int,
    m1: &Arena,
    who1: &Player,
    c1: Seq<Cue>,
    i1: int,
    n: nat,
)
    requires
        0 <= i0 < m0.bombs@.len(),
        i1 >= m1.bombs@.len(),
        bombs_ticked(m0, who0, c0, i0, frame, m1, who1, c1, i1, n),
    ensures
        n >= 1,
{
}

/// Whether the state after is the state before with one tick passed for
/// the bombs, at `frame`: it is what turn after turn makes of it (see
/// `bombs_ticked`), with no bomb left to have its turn.
pub open spec fn bombs_updated(
    before: &Arena,
    was: &Player,
    heard: Seq<Cue>,
    frame: i32,
    after: &Arena,
    now: &Player,
    heard_after: Seq<Cue>,
) -> bool {
    &&& after.wf()
    &&& now.wf()
    &&& after.turrets == before.turrets
    &&& after.emps == before.emps
    &&& after.spawned == before.spawned
    &&& after.boss.nth == before.boss.nth
    &&& after.boss.resp == before.boss.resp
    &&& after.w == before.w
    &&& after.h == before.h
    &&& now.x == was.x
    &&& now.y == was.y
    &&& scored(was, now)
    &&& was.paused ==> now.paused
    &&& before.bullets_settled() ==> after.bullets_settled()
    &&& heard.len() <= heard_after.len()
    &&& heard_after.subrange(0, heard.len() as int) == heard
    &&& forall|j: int|
        0 <= j < after.bombs.len() ==> frame < (#[trigger] after.bombs@[j]).end()
    &&& forall|j: int|
        0 <= j < after.bombs.len() ==> stems_from(
            #[trigger] after.bombs@[j],
            before.bombs@,
            frame as int,
        )
    &&& forall|k: int|
        0 <= k < before.bombs.len() && frame < before.bombs@[k].end() ==> survives_in(
            #[trigger] before.bombs@[k],
            after.bombs@,
            frame as int,
        )
    &&& forall|k: int, j: int|
        0 <= k < before.bombs.len() && 0 <= j < after.bombs.len() && detonates(
            #[trigger] before.bombs@[k],
            frame as int,
        ) && manhattan(
            before.bombs@[k].x as int,
            before.bombs@[k].y as int,
            (#[trigger] after.bombs@[j]).x as int,
            after.bombs@[j].y as int,
        ) <= before.bombs@[k].radius ==> after.bombs@[j].end() <= frame + 20
    &&& forall|j: int|
        0 <= j < after.bombs.len() ==> kept_from(
            #[trigger] after.bombs@[j],
            before.bombs@,
            frame as int,
        )
    &&& quiet(before.bombs@, frame as int) ==> {
        &&& after.tiles == before.tiles
        &&& after.pass == before.pass
        &&& after.enemies == before.enemies
        &&& after.bullets == before.bullets
        &&& after.chests == before.chests
        &&& after.boss == before.boss
        &&& *now == *was
    }
    &&& exists|n: nat| #[trigger]
        bombs_ticked(
            before,
            was,
            heard,
            0,
            frame as int,
            after,
            now,
            heard_after,
            after.bombs@.len() as int,
            n,
        )
    &&& now.dead == (was.dead || exists|k: int|
        0 <= k < before.bombs.len() && detonates(#[trigger] before.bombs@[k], frame as int)
            && manhattan(
            before.bombs@[k].x as int,
            before.bombs@[k].y as int,
            was.x as int,
            was.y as int,
        ) <= before.bombs@[k].radius)
}

/// Lets one tick pass for the bombs, at `frame`. Each bomb in turn: is
/// removed if its fuse is over; else ticks and warns by its clock, and ten
/// ticks before its end goes off (see `detonate`).
///
/// Afterwards the state is what turn after turn makes of it (see
/// `bombs_ticked`), with no bomb left to have its turn. So no bomb is left
/// whose fuse is over. Every bomb left is one
/// from before, as it was or pulled forward by a blast, and every bomb from
/// before whose fuse is not over is left. A bomb within the radius of one
/// that went off ends within 20 ticks, and only a bomb caught in a blast is
/// pulled forward (see `kept_from`). The player is dead if and only if
/// it was before or stood within the radius of a bomb that went off. If no
/// bomb goes off, nothing but the bombs and the cues changes.
#[verifier::rlimit(50)]
pub fn update_bombs(
    map: &mut Arena,
    player: &mut Player,
    cues: &mut Vec<Cue>,
    frame: i32,
    rng: &mut StdRng,
)
    requires
        old(map).wf(),
        old(player).wf(),
        old(map).hosts(old(player)),
        0 <= frame <= TICK_LIMIT,
    ensures
        bombs_updated(
            old(map),
            old(player),
            old(cues)@,
            frame,
            final(map),
            final(player),
            final(cues)@,
        ),
{
    proof {
        lemma_bombs_start(
            map.bombs@,
            frame as int,
            player.x as int,
            player.y as int,
            player.dead,
        );
        assert(cues@.subrange(0, cues@.len() as int) =~= cues@);
        assert(player.stats@ =~= player.stats@.update(
            Stat::Score.slot(),
            player.stat(Stat::Score) as i32,
        ));
    }
    let mut i: usize = 0;
    let ghost mut n: nat = 0;
    while i < map.bombs.len()
        invariant
            i <= map.bombs.len(),
            forall|j: int|
                0 <= j < map.bombs.len() ==> kept_from(
                    #[trigger] map.bombs@[j],
                    old(map).bombs@,
                    frame as int,
                ),
            quiet(old(map).bombs@, frame as int) ==> {
                &&& map.tiles == old(map).tiles
                &&& map.pass == old(map).pass
                &&& map.enemies == old(map).enemies
                &&& map.bullets == old(map).bullets
                &&& map.chests == old(map).chests
                &&& map.boss == old(map).boss
                &&& *player == *old(player)
            },
            bombs_ticked(
                old(map),
                old(player),
                old(cues)@,
                0,
                frame as int,
                map,
                player,
                cues@,
                i as int,
                n,
            ),
            old(map).wf(),
            map.wf(),
            player.wf(),
            old(player).wf(),
            scored(old(player), player),
            old(player).paused ==> player.paused,
            map.hosts(player),
            0 <= frame <= TICK_LIMIT,
            map.turrets == old(map).turrets,
            map.emps == old(map).emps,
            map.spawned == old(map).spawned,
            map.boss.nth == old(map).boss.nth,
            map.boss.resp == old(map).boss.resp,
            map.w == old(map).w,
            map.h == old(map).h,
            player.x == old(player).x,
            player.y == old(player).y,
            old(map).bullets_settled() ==> map.bullets_settled(),
            old(cues)@.len() <= cues@.len(),
            cues@.subrange(0, old(cues)@.len() as int) == old(cues)@,
            bombs_inv(
                old(map).bombs@,
                map.bombs@,
                i as int,
                frame as int,
                player.x as int,
                player.y as int,
                old(player).dead,
                player.dead,
            ),
        decreases map.bombs.len() - i, map.bombs.len(),
    {
        let b: Bomb = map.bombs[i];
        assert(b.wf() && map.interior(b.x as int, b.y as int));
        let ghost cur = map.bombs@;
        let ghost heard = cues@;
        let ghost at = *map;
        let ghost who0 = *player;
        if frame >= b.start + b.duration {
            map.bombs.swap_remove(i);
            proof {
                lemma_kept_removed(old(map).bombs@, cur, i as int, frame as int);
                assert(bomb_ticked(&at, &who0, heard, i as int, frame as int, map, player, cues@, false));
                n = n + 1;
                lemma_bombs_removed(
                    old(map).bombs@,
                    cur,
                    i as int,
                    frame as int,
                    player.x as int,
                    player.y as int,
                    old(player).dead,
                    player.dead,
                );
                assert forall|k: int| 0 <= k < map.bombs.len() implies (#[trigger] map.bombs@[k]).wf()
                    && map.interior(map.bombs@[k].x as int, map.bombs@[k].y as int) by {
                    let k0 = if k == i { cur.len() - 1 } else { k };
                    assert(map.bombs@[k] == cur[k0]);
                }
            }
            continue ;
        }
        let d: i32 = dist(player.x, player.y, b.x, b.y);
        if is_ticking(b.start, frame) {
            cues.push(Cue { sound: Sound::BombTick, level: 75, near: 100, dist: d });
        }
        if frame == b.start + b.duration - 20 {
            cues.push(Cue { sound: Sound::BombExplosion, level: 80, near: 100, dist: d });
        }
        let ghost warned = cues@;
        proof {
            assert(warned.subrange(0, old(cues)@.len() as int) =~= heard.subrange(
                0,
                old(cues)@.len() as int,
            ));
        }
        if frame == b.start + b.duration - 10 {
            let ghost dead = player.dead;
            let ghost who = *player;
            detonate(map, player, cues, i, frame, rng);
            proof {
                lemma_blast_is_first(old(map).bombs@, b, frame as int);
                lemma_kept_chained(old(map).bombs@, cur, map.bombs@, i as int, frame as int);
                lemma_scored_twice(old(player), &who, player);
                lemma_bombs_detonated(
                    old(map).bombs@,
                    cur,
                    map.bombs@,
                    i as int,
                    frame as int,
                    player.x as int,
                    player.y as int,
                    old(player).dead,
                    dead,
                    player.dead,
                );
                assert(cues@.subrange(0, old(cues)@.len() as int) =~= warned.subrange(
                    0,
                    old(cues)@.len() as int,
                )) by {
                    assert(cues@.subrange(0, warned.len() as int) == warned);
                    assert forall|k: int| 0 <= k < old(cues)@.len() implies cues@[k] == warned[k] by {
                        assert(cues@.subrange(0, warned.len() as int)[k] == cues@[k]);
                    }
                }
            }
        } else {
            proof {
                lemma_bombs_passed(
                    old(map).bombs@,
                    cur,
                    i as int,
                    frame as int,
                    player.x as int,
                    player.y as int,
                    old(player).dead,
                    player.dead,
                );
            }
        }
        proof {
            assert(bomb_ticked(&at, &who0, heard, i as int, frame as int, map, player, cues@, true));
            n = n + 1;
        }
        i = i + 1;
    }
    proof {
        lemma_bombs_done(
            old(map).bombs@,
            map.bombs@,
            frame as int,
            player.x as int,
            player.y as int,
            old(player).dead,
            player.dead,
        );
    }
}

} // verus!
