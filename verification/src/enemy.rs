//! Enemies: zombies and the recurring boss.

use crate::arena::Arena;
use crate::chest::PLACEMENT_TRIES;
use crate::dice::roll;
use crate::player::Player;
use crate::sound::{Cue, Sound};
use crate::stat::{Stat, COUNT_LIMIT, SPAN_LIMIT, STAMP_LIMIT, TICK_LIMIT};
use crate::pathfind::{next_step, pathfind};
use crate::util::{dist, manhattan, max, min, passes, Position};
use rand::rngs::StdRng;
use vstd::prelude::*;

verus! {

/// Move cooldown of a zombie.
pub const ZOMBIE_COOLDOWN: i32 = 19;

/// Move cooldown of the boss.
pub const BOSS_COOLDOWN: i32 = 47;

/// Ticks between two summons of the boss.
pub const SUMMON_COOLDOWN: i32 = 360;

/// How close to the player a zombie may not appear.
pub const ZOMBIE_CLEARANCE: i32 = 28;

/// The boss appears further from the player than this.
pub const BOSS_CLEARANCE: i32 = 24;

/// The boss's summoning clock.
#[derive(Clone, Copy, Debug, PartialEq, Eq, Structural)]
pub struct ZombieBoss {
    pub last: i32,
    pub cd: i32,
}

/// The kinds of enemy.
#[derive(Clone, Copy, Debug, PartialEq, Eq, Structural)]
pub enum EnemyType {
    Zombie,
    ZombieBoss(ZombieBoss),
}

/// One live enemy. It is owned by the cell it stands on.
#[derive(Clone, Copy, Debug, PartialEq, Eq, Structural)]
pub struct Enemy {
    pub uid: i32,
    pub hp: i8,
    pub mhp: i8,
    pub last: i32,
    pub cd: i32,
    pub slowed: i32,
    pub immobilized: bool,
    pub ty: EnemyType,
}

impl Enemy {
    /// The enemy is alive and its clocks are in range.
    pub open spec fn wf(&self) -> bool {
        &&& 0 <= self.uid < COUNT_LIMIT
        &&& 1 <= self.hp
        &&& 1 <= self.mhp
        &&& -SPAN_LIMIT <= self.last <= STAMP_LIMIT
        &&& 1 <= self.cd <= SPAN_LIMIT
        &&& -SPAN_LIMIT <= self.slowed <= STAMP_LIMIT
        &&& match self.ty {
            EnemyType::Zombie => true,
            EnemyType::ZombieBoss(b) => -SPAN_LIMIT <= b.last <= STAMP_LIMIT && 0 <= b.cd
                <= SPAN_LIMIT,
        }
    }

    /// Whether the enemy is the boss.
    pub open spec fn is_boss(&self) -> bool {
        self.ty is ZombieBoss
    }

    /// A fresh zombie numbered `uid` with `hp` hit points, last moved at `last`.
    pub open spec fn zombie(uid: int, hp: int, last: int) -> Enemy {
        Enemy {
            uid: uid as i32,
            hp: hp as i8,
            mhp: hp as i8,
            last: last as i32,
            cd: ZOMBIE_COOLDOWN,
            slowed: 0,
            immobilized: false,
            ty: EnemyType::Zombie,
        }
    }

    /// A fresh boss numbered `uid` with `hp` hit points, created at `frame`.
    pub open spec fn boss(uid: int, hp: int, frame: int) -> Enemy {
        Enemy {
            uid: uid as i32,
            hp: hp as i8,
            mhp: hp as i8,
            last: 0,
            cd: BOSS_COOLDOWN,
            slowed: 0,
            immobilized: false,
            ty: EnemyType::ZombieBoss(ZombieBoss { last: frame as i32, cd: SUMMON_COOLDOWN }),
        }
    }
}

/// Hit points of a zombie that appears while the score is `score`: one, and
/// one more for every full thousand, up to the most a signed byte holds.
pub open spec fn spawn_hp(score: int) -> int {
    if 1 + score / 1000 > 127 {
        127
    } else {
        1 + score / 1000
    }
}

/// Hit points of a zombie that appears while the score is `score`.
pub fn hp_for(score: i32) -> (hp: i8)
    requires
        0 <= score,
    ensures
        hp == spawn_hp(score as int),
        1 <= hp,
{
    let steps: i32 = score / 1000;
    if steps >= 126 {
        127
    } else {
        (1 + steps) as i8
    }
}

/// Whether `after` is `before` with the enemy `e` put on the cell `(x, y)`
/// and the next enemy number handed out: the cell is blocked, and nothing
/// else differs.
pub open spec fn enemy_added(before: &Arena, after: &Arena, x: int, y: int, e: Enemy) -> bool {
    &&& after.enemy_at(x, y) == Some(e)
    &&& after.enemies_but(before, x, y)
    &&& !after.pass_at(x, y)
    &&& after.pass_but(before, x, y)
    &&& after.tiles == before.tiles
    &&& after.spawned == before.spawned + 1
    &&& after.chests == before.chests
    &&& after.bullets == before.bullets
    &&& after.bombs == before.bombs
    &&& after.turrets == before.turrets
    &&& after.emps == before.emps
    &&& after.boss == before.boss
    &&& after.w == before.w
    &&& after.h == before.h
}

/// Puts the enemy `e` on the cell `(x, y)`, which can be entered, under the
/// next enemy number.
pub fn add_enemy(map: &mut Arena, x: i32, y: i32, e: Enemy)
    requires
        old(map).wf(),
        old(map).inside(x as int, y as int),
        old(map).pass_at(x as int, y as int),
        old(map).spawned < COUNT_LIMIT,
        e.wf(),
        e.uid == old(map).spawned,
    ensures
        final(map).wf(),
        enemy_added(old(map), final(map), x as int, y as int, e),
{
    map.spawned = map.spawned + 1;
    map.put_enemy(x, y, e);
}

/// Whether the arena `after` is `before` with a zombie spawned on a cell
/// that fits, if `placed`, and as it was if not.
pub open spec fn zombie_scattered(
    before: &Arena,
    player: &Player,
    after: &Arena,
    placed: bool,
) -> bool {
    &&& after.wf()
    &&& placed ==> exists|x: int, y: int|
        {
            &&& before.inside(x, y)
            &&& zombie_fits(before, player, x, y)
            &&& #[trigger] enemy_added(
                before,
                after,
                x,
                y,
                Enemy::zombie(
                    before.spawned as int,
                    spawn_hp(player.stat(Stat::Score)),
                    0,
                ),
            )
        }
    &&& !placed ==> *after == *before
    &&& before.spawned >= COUNT_LIMIT ==> !placed
}

/// Spawns a zombie on a random cell that can be entered and lies at least
/// `ZOMBIE_CLEARANCE` steps from the player. Its hit points follow the
/// score. Cells are tried until one fits or `PLACEMENT_TRIES` cells were
/// tried; if none fits, or no enemy number is left, the arena stays as it
/// is. Returns whether a zombie was spawned.
pub fn spawn_enemy(map: &mut Arena, player: &Player, rng: &mut StdRng) -> (placed: bool)
    requires
        old(map).wf(),
        player.wf(),
        old(map).inside(player.x as int, player.y as int),
    ensures
        zombie_scattered(
            old(map),
            player,
            final(map),
            placed,
        ),
{
    if map.spawned >= COUNT_LIMIT {
        return false;
    }
    let mut tries: u32 = 0;
    while tries < PLACEMENT_TRIES
        invariant
            *map == *old(map),
            map.wf(),
            player.wf(),
            map.inside(player.x as int, player.y as int),
        decreases PLACEMENT_TRIES - tries,
    {
        let x: i32 = roll(rng, 0, map.w);
        let y: i32 = roll(rng, 0, map.h);
        if spawn_enemy_at(map, player, x, y) {
            assert(enemy_added(
                old(map),
                map,
                x as int,
                y as int,
                Enemy::zombie(old(map).spawned as int, spawn_hp(player.stat(Stat::Score)), 0),
            ));
            return true;
        }
        tries = tries + 1;
    }
    false
}

/// Spawns the boss with `hp` hit points on a random interior cell that can
/// be entered and lies more than `BOSS_CLEARANCE` steps from the player,
/// and asks for its sound. Cells are tried until one fits or
/// `PLACEMENT_TRIES` cells were tried; if none fits, or no enemy number is
/// left, nothing changes. Returns the cell of the boss.
pub fn spawn_boss(
    map: &mut Arena,
    player: &Player,
    cues: &mut Vec<Cue>,
    frame: i32,
    hp: i8,
    rng: &mut StdRng,
) -> (cell: Option<(i32, i32)>)
    requires
        old(map).wf(),
        old(map).inside(player.x as int, player.y as int),
        0 <= frame <= TICK_LIMIT,
        1 <= hp,
    ensures
        final(map).wf(),
        cell matches Some(c) ==> {
            &&& old(map).interior(c.0 as int, c.1 as int)
            &&& boss_fits(old(map), player, c.0 as int, c.1 as int)
            &&& enemy_added(
                old(map),
                final(map),
                c.0 as int,
                c.1 as int,
                Enemy::boss(old(map).spawned as int, hp as int, frame as int),
            )
            &&& final(cues)@ == old(cues)@.push(Cue::flat(Sound::BossAppear, 50))
        },
        cell is None ==> *final(map) == *old(map) && final(cues)@ == old(cues)@,
        old(map).spawned >= COUNT_LIMIT ==> cell is None,
{
    if map.spawned >= COUNT_LIMIT {
        return None;
    }
    let mut tries: u32 = 0;
    while tries < PLACEMENT_TRIES
        invariant
            *map == *old(map),
            *cues == *old(cues),
            map.wf(),
            map.inside(player.x as int, player.y as int),
            0 <= frame <= TICK_LIMIT,
            1 <= hp,
        decreases PLACEMENT_TRIES - tries,
    {
        let x: i32 = roll(rng, 1, map.w - 1);
        let y: i32 = roll(rng, 1, map.h - 1);
        if spawn_boss_at(map, player, cues, frame, hp, x, y) {
            return Some((x, y));
        }
        tries = tries + 1;
    }
    None
}

/// How far from the player, along each axis, enemies are woken.
pub const WAKE_RANGE: i32 = 30;

/// Chance in percent that a moving enemy asks the path finder.
pub const CHASE_CHANCE: i32 = 70;

/// Whether the enemy `e` may move at `frame`: it is not immobilized while
/// slow, and its cooldown, tripled while it is slow, has passed.
pub open spec fn can_move(e: Enemy, frame: int) -> bool {
    !(e.immobilized && e.slowed > frame) && e.last + (if e.slowed > frame {
        e.cd * 3
    } else {
        e.cd as int
    }) <= frame
}

/// Whether the boss `e` summons at `frame`: its summoning cooldown has
/// passed, and it is not immobilized while slow.
pub open spec fn summons(e: Enemy, frame: int) -> bool {
    e.ty matches EnemyType::ZombieBoss(b) && frame >= b.last + b.cd && (!e.immobilized || e.slowed
        <= frame)
}

/// Whether the enemy `e` may move at `frame`.
pub fn is_free(e: &Enemy, frame: i32) -> (b: bool)
    requires
        e.wf(),
        0 <= frame <= TICK_LIMIT,
    ensures
        b == can_move(*e, frame as int),
{
    let slow: bool = e.slowed > frame;
    if e.immobilized && slow {
        return false;
    }
    let wait: i32 = if slow { e.cd * 3 } else { e.cd };
    e.last + wait <= frame
}

/// Whether `e2` is the enemy `e` at a later time: the same number, kind,
/// hit points and cooldown, and the same slow-down.
pub open spec fn same_enemy(e: Enemy, e2: Enemy) -> bool {
    &&& e2.uid == e.uid
    &&& e2.hp == e.hp
    &&& e2.mhp == e.mhp
    &&& e2.cd == e.cd
    &&& e2.slowed == e.slowed
    &&& e2.immobilized == e.immobilized
    &&& e2.is_boss() == e.is_boss()
}

/// Whether `e` is a zombie summoned since the enemy number `first` was
/// next: a plain zombie with one hit point and a number from `first` on.
pub open spec fn summoned(e: Enemy, first: int) -> bool {
    e.uid >= first && e.hp == 1 && e.mhp == 1 && e.ty is Zombie
}

/// Whether the arena `before` holds the enemy `e2` at an earlier time.
pub open spec fn came_from(before: &Arena, e2: Enemy) -> bool {
    exists|x: int, y: int|
        before.inside(x, y) && (#[trigger] before.enemy_at(x, y)) is Some && same_enemy(
            before.enemy_at(x, y)->0,
            e2,
        )
}

/// Whether the arena `after` holds the enemy `e` at a later time.
pub open spec fn went_to(after: &Arena, e: Enemy) -> bool {
    exists|x: int, y: int|
        after.inside(x, y) && (#[trigger] after.enemy_at(x, y)) is Some && same_enemy(
            e,
            after.enemy_at(x, y)->0,
        )
}

/// Whether the arena `after` is `before` with its enemies moved about and
/// summoned: every enemy was there before or was summoned, every enemy from
/// before is still there, and nothing but the occupancy, the passability,
/// the enemy numbering and the boss's position differs.
#[verifier::opaque]
pub open spec fn herded(before: &Arena, after: &Arena) -> bool {
    &&& forall|x: int, y: int|
        before.inside(x, y) && (#[trigger] after.enemy_at(x, y)) is Some ==> came_from(
            before,
            after.enemy_at(x, y)->0,
        ) || summoned(after.enemy_at(x, y)->0, before.spawned as int)
    &&& forall|x: int, y: int|
        before.inside(x, y) && (#[trigger] before.enemy_at(x, y)) is Some ==> went_to(
            after,
            before.enemy_at(x, y)->0,
        )
    &&& after.tiles == before.tiles
    &&& after.bullets == before.bullets
    &&& after.bombs == before.bombs
    &&& after.turrets == before.turrets
    &&& after.emps == before.emps
    &&& after.chests == before.chests
    &&& after.boss.nth == before.boss.nth
    &&& after.boss.resp == before.boss.resp
    &&& before.spawned <= after.spawned
    &&& after.w == before.w
    &&& after.h == before.h
}

/// Herding after herding is herding.
pub proof fn lemma_herded_twice(a: &Arena, b: &Arena, c: &Arena)
    requires
        herded(a, b),
        herded(b, c),
    ensures
        herded(a, c),
{
    reveal(herded);
    assert forall|x: int, y: int| a.inside(x, y) && (#[trigger] c.enemy_at(x, y)) is Some implies came_from(
        a,
        c.enemy_at(x, y)->0,
    ) || summoned(c.enemy_at(x, y)->0, a.spawned as int) by {
        let e3 = c.enemy_at(x, y)->0;
        if came_from(b, e3) {
            let (x1, y1) = choose|x1: int, y1: int|
                b.inside(x1, y1) && (#[trigger] b.enemy_at(x1, y1)) is Some && same_enemy(
                    b.enemy_at(x1, y1)->0,
                    e3,
                );
            let e2 = b.enemy_at(x1, y1)->0;
            if came_from(a, e2) {
                let (x0, y0) = choose|x0: int, y0: int|
                    a.inside(x0, y0) && (#[trigger] a.enemy_at(x0, y0)) is Some && same_enemy(
                        a.enemy_at(x0, y0)->0,
                        e2,
                    );
                assert(same_enemy(a.enemy_at(x0, y0)->0, e3));
            }
        }
    }
    assert forall|x: int, y: int| a.inside(x, y) && (#[trigger] a.enemy_at(x, y)) is Some implies went_to(
        c,
        a.enemy_at(x, y)->0,
    ) by {
        let e = a.enemy_at(x, y)->0;
        let (x1, y1) = choose|x1: int, y1: int|
            b.inside(x1, y1) && (#[trigger] b.enemy_at(x1, y1)) is Some && same_enemy(
                e,
                b.enemy_at(x1, y1)->0,
            );
        let e2 = b.enemy_at(x1, y1)->0;
        assert(went_to(c, e2));
        let (x2, y2) = choose|x2: int, y2: int|
            c.inside(x2, y2) && (#[trigger] c.enemy_at(x2, y2)) is Some && same_enemy(
                e2,
                c.enemy_at(x2, y2)->0,
            );
        assert(same_enemy(e, c.enemy_at(x2, y2)->0));
    }
}

/// An arena is herded from itself.
pub proof fn lemma_herded_self(a: &Arena)
    ensures
        herded(a, a),
{
    reveal(herded);
    assert forall|x: int, y: int| a.inside(x, y) && (#[trigger] a.enemy_at(x, y)) is Some implies came_from(
        a,
        a.enemy_at(x, y)->0,
    ) && went_to(a, a.enemy_at(x, y)->0) by {
        assert(same_enemy(a.enemy_at(x, y)->0, a.enemy_at(x, y)->0));
    }
}

/// Whether `after` is `before` with the enemy on `(x, y)` moved to
/// `(nx, ny)` at `frame`: it stands there with the tick noted, the new cell
/// is blocked, the old one can be entered unless a turret stands on it, and
/// the boss tracker follows the boss.
pub open spec fn enemy_moved(
    before: &Arena,
    after: &Arena,
    x: int,
    y: int,
    nx: int,
    ny: int,
) -> bool {
    &&& after.enemy_at(nx, ny) == before.enemy_at(x, y)
    &&& after.enemy_at(x, y) is None
    &&& forall|x2: int, y2: int|
        before.inside(x2, y2) && !(x2 == x && y2 == y) && !(x2 == nx && y2 == ny)
            ==> #[trigger] after.enemy_at(x2, y2) == before.enemy_at(x2, y2)
    &&& !after.pass_at(nx, ny)
    &&& after.pass_at(x, y) == !before.has_turret(x, y)
    &&& forall|x2: int, y2: int|
        before.inside(x2, y2) && !(x2 == x && y2 == y) && !(x2 == nx && y2 == ny)
            ==> #[trigger] after.pass_at(x2, y2) == before.pass_at(x2, y2)
    &&& after.tiles == before.tiles
    &&& after.bullets == before.bullets
    &&& after.bombs == before.bombs
    &&& after.turrets == before.turrets
    &&& after.emps == before.emps
    &&& after.chests == before.chests
    &&& after.spawned == before.spawned
    &&& after.w == before.w
    &&& after.h == before.h
    &&& after.boss == (if before.enemy_at(x, y)->0.is_boss() {
        crate::arena::Boss { pos: Some(Position { x: nx as i32, y: ny as i32 }), ..before.boss }
    } else {
        before.boss
    })
}

/// An arena whose every cell holds the enemy it held, at a later time, is
/// herded.
proof fn lemma_same_herds(before: &Arena, after: &Arena)
    requires
        forall|x: int, y: int|
            before.inside(x, y) ==> ((#[trigger] after.enemy_at(x, y)) is Some
                == before.enemy_at(x, y) is Some) && (before.enemy_at(x, y) is Some ==> same_enemy(
                before.enemy_at(x, y)->0,
                after.enemy_at(x, y)->0,
            )),
        after.tiles == before.tiles,
        after.bullets == before.bullets,
        after.bombs == before.bombs,
        after.turrets == before.turrets,
        after.emps == before.emps,
        after.chests == before.chests,
        after.boss.nth == before.boss.nth,
        after.boss.resp == before.boss.resp,
        before.spawned <= after.spawned,
        after.w == before.w,
        after.h == before.h,
    ensures
        herded(before, after),
{
    reveal(herded);
    assert forall|x2: int, y2: int|
        before.inside(x2, y2) && (#[trigger] after.enemy_at(x2, y2)) is Some implies came_from(
        before,
        after.enemy_at(x2, y2)->0,
    ) by {
        assert(same_enemy(before.enemy_at(x2, y2)->0, after.enemy_at(x2, y2)->0));
    }
    assert forall|x2: int, y2: int|
        before.inside(x2, y2) && (#[trigger] before.enemy_at(x2, y2)) is Some implies went_to(
        after,
        before.enemy_at(x2, y2)->0,
    ) by {
        assert(same_enemy(before.enemy_at(x2, y2)->0, after.enemy_at(x2, y2)->0));
    }
}

/// A summoned zombie put on a free cell is herding.
proof fn lemma_added_herds(before: &Arena, after: &Arena, nx: int, ny: int, e: Enemy)
    requires
        before.inside(nx, ny),
        before.enemy_at(nx, ny) is None,
        summoned(e, before.spawned as int),
        enemy_added(before, after, nx, ny, e),
    ensures
        herded(before, after),
{
    reveal(herded);
    assert forall|x2: int, y2: int|
        before.inside(x2, y2) && (#[trigger] after.enemy_at(x2, y2)) is Some implies came_from(
        before,
        after.enemy_at(x2, y2)->0,
    ) || summoned(after.enemy_at(x2, y2)->0, before.spawned as int) by {
        if !(x2 == nx && y2 == ny) {
            assert(same_enemy(before.enemy_at(x2, y2)->0, after.enemy_at(x2, y2)->0));
        }
    }
    assert forall|x2: int, y2: int|
        before.inside(x2, y2) && (#[trigger] before.enemy_at(x2, y2)) is Some implies went_to(
        after,
        before.enemy_at(x2, y2)->0,
    ) by {
        assert(same_enemy(before.enemy_at(x2, y2)->0, after.enemy_at(x2, y2)->0));
    }
}

/// A move is herding.
proof fn lemma_move_herds(before: &Arena, after: &Arena, x: int, y: int, nx: int, ny: int)
    requires
        before.inside(x, y),
        before.inside(nx, ny),
        before.enemy_at(x, y) is Some,
        before.enemy_at(nx, ny) is None,
        enemy_moved(before, after, x, y, nx, ny),
    ensures
        herded(before, after),
{
    reveal(herded);
    assert forall|x2: int, y2: int|
        before.inside(x2, y2) && (#[trigger] after.enemy_at(x2, y2)) is Some implies came_from(
        before,
        after.enemy_at(x2, y2)->0,
    ) by {
        let e2 = after.enemy_at(x2, y2)->0;
        if x2 == nx && y2 == ny {
            assert(same_enemy(before.enemy_at(x, y)->0, e2));
        } else {
            assert(same_enemy(before.enemy_at(x2, y2)->0, e2));
        }
    }
    assert forall|x2: int, y2: int|
        before.inside(x2, y2) && (#[trigger] before.enemy_at(x2, y2)) is Some implies went_to(
        after,
        before.enemy_at(x2, y2)->0,
    ) by {
        let e0 = before.enemy_at(x2, y2)->0;
        if x2 == x && y2 == y {
            assert(same_enemy(e0, after.enemy_at(nx, ny)->0));
        } else {
            assert(same_enemy(e0, after.enemy_at(x2, y2)->0));
        }
    }
}

/// Moves the enemy on `(x, y)` to the cell `(nx, ny)` if that cell can be
/// entered and neither of its coordinates is zero: see `enemy_moved`. A
/// step is heard, fading with the distance from the player to the cell
/// left. Otherwise nothing happens. Returns whether the enemy moved.
pub fn step_enemy(
    map: &mut Arena,
    player: &Player,
    cues: &mut Vec<Cue>,
    x: i32,
    y: i32,
    nx: i32,
    ny: i32,
) -> (moved: bool)
    requires
        old(map).wf(),
        old(map).inside(player.x as int, player.y as int),
        old(map).inside(x as int, y as int),
        old(map).inside(nx as int, ny as int),
        old(map).enemy_at(x as int, y as int) is Some,
    ensures
        final(map).wf(),
        moved == (nx != 0 && ny != 0 && old(map).pass_at(nx as int, ny as int)),
        moved ==> enemy_moved(old(map), final(map), x as int, y as int, nx as int, ny as int)
            && final(cues)@ == old(cues)@.push(
            Cue::faded(
                Sound::Walking,
                50,
                10,
                manhattan(player.x as int, player.y as int, x as int, y as int),
            ),
        ),
        !moved ==> *final(map) == *old(map) && final(cues)@ == old(cues)@,
        herded(old(map), final(map)),
{
    proof {
        lemma_herded_self(map);
    }
    if nx != 0 && ny != 0 && map.passable(nx, ny) {
        let e: Enemy = map.move_enemy(x, y, nx, ny);
        let ghost put = *map;
        let d: i32 = dist(player.x, player.y, x, y);
        cues.push(Cue { sound: Sound::Walking, level: 50, near: 10, dist: d });
        match e.ty {
            EnemyType::ZombieBoss(_) => {
                map.boss.pos = Some(Position { x: nx, y: ny });
            },
            EnemyType::Zombie => {},
        }
        proof {
            assert(map.tiles == put.tiles && map.pass == put.pass && map.enemies == put.enemies);
            assert(enemy_moved(old(map), map, x as int, y as int, nx as int, ny as int));
            lemma_move_herds(old(map), map, x as int, y as int, nx as int, ny as int);
        }
        true
    } else {
        false
    }
}

/// Whether `(nx, ny)` is a cell that the enemy on `(x, y)` may pick to move
/// to: the cell that the path finder names on the way to the player, which
/// is `(0, 0)` if it names none, or a cell one step away along one axis, or
/// the enemy's own. The cell is one of the arena, and unless it is `(0, 0)`
/// it lies within one step of the enemy.
pub open spec fn step_chosen(map: &Arena, player: &Player, x: int, y: int, nx: int, ny: int) -> bool {
    &&& map.inside(nx, ny)
    &&& (nx, ny) == next_step(map, (x, y), (player.x as int, player.y as int)) || manhattan(
        nx,
        ny,
        x,
        y,
    ) <= 1
    &&& (nx == 0 && ny == 0) || manhattan(nx, ny, x, y) <= 1
}

/// Picks the cell that the enemy on `(x, y)` tries to move to: with a
/// chance of `CHASE_CHANCE` percent the cell that the path finder names on
/// the way to the player, and else a cell one step away along one axis, or
/// the enemy's own. Which of these is up to `rng`.
pub fn choose_step(map: &Arena, player: &Player, x: i32, y: i32, rng: &mut StdRng) -> (c: (i32, i32))
    requires
        map.wf(),
        map.hosts(player),
        map.interior(x as int, y as int),
    ensures
        step_chosen(map, player, x as int, y as int, c.0 as int, c.1 as int),
{
    if passes(roll(rng, 0, 100), CHASE_CHANCE) {
        let c = pathfind(map, (x, y), (player.x, player.y));
        c
    } else {
        let dx: i32 = roll(rng, -1, 2);
        let dy: i32 = if dx == 0 { roll(rng, -1, 2) } else { 0 };
        (x + dx, y + dy)
    }
}

/// Whether `after` is `before` after the boss on `(x, y)` summoned at
/// `frame`: its summoning clock is reset, and either nothing else differs,
/// or a zombie with one hit point and the next number stands on a cell next
/// to it that could be entered, and blocks it.
pub open spec fn boss_summoned(before: &Arena, after: &Arena, x: int, y: int, frame: int) -> bool {
    &&& after.boss == before.boss
    &&& after.tiles == before.tiles
    &&& after.bullets == before.bullets
    &&& after.bombs == before.bombs
    &&& after.turrets == before.turrets
    &&& after.emps == before.emps
    &&& after.chests == before.chests
    &&& after.w == before.w
    &&& after.h == before.h
    &&& after.enemy_at(x, y) == Some(
        Enemy {
            ty: EnemyType::ZombieBoss(
                ZombieBoss { last: frame as i32, ..before.enemy_at(x, y)->0.ty->ZombieBoss_0 },
            ),
            ..before.enemy_at(x, y)->0
        },
    )
    &&& after.spawned == before.spawned || exists|nx: int, ny: int|
        {
            &&& x - 1 <= nx <= x + 1
            &&& y - 1 <= ny <= y + 1
            &&& before.pass_at(nx, ny)
            &&& after.spawned == before.spawned + 1
            &&& #[trigger] after.enemy_at(nx, ny) == Some(
                Enemy::zombie(before.spawned as int, 1, frame),
            )
            &&& !after.pass_at(nx, ny)
            &&& forall|x2: int, y2: int|
                before.inside(x2, y2) && !(x2 == nx && y2 == ny) ==> #[trigger] after.pass_at(
                    x2,
                    y2,
                ) == before.pass_at(x2, y2)
            &&& forall|x2: int, y2: int|
                before.inside(x2, y2) && !(x2 == nx && y2 == ny) && !(x2 == x && y2 == y)
                    ==> #[trigger] after.enemy_at(x2, y2) == before.enemy_at(x2, y2)
        }
    &&& after.spawned == before.spawned ==> after.pass == before.pass && after.enemies_but(
        before,
        x,
        y,
    )
}

/// Lets the boss on `(x, y)` summon at `frame`: its summoning clock is
/// reset, and up to four cells around it, picked by `rng`, are tried for a
/// zombie with one hit point; the first that can be entered takes it. If no
/// enemy number is left, no cell is tried.
pub fn summon(map: &mut Arena, x: i32, y: i32, frame: i32, rng: &mut StdRng)
    requires
        old(map).wf(),
        old(map).inside(x as int, y as int),
        old(map).enemy_at(x as int, y as int) is Some,
        old(map).enemy_at(x as int, y as int)->0.ty is ZombieBoss,
        0 <= frame <= TICK_LIMIT,
    ensures
        final(map).wf(),
        herded(old(map), final(map)),
        boss_summoned(old(map), final(map), x as int, y as int, frame as int),
{
    let e: Enemy = map.enemy(x, y).unwrap();
    assert(e.wf() && map.interior(x as int, y as int));
    let clock: ZombieBoss = match e.ty {
        EnemyType::ZombieBoss(b) => b,
        EnemyType::Zombie => ZombieBoss { last: 0, cd: 0 },
    };
    let e2 = Enemy { ty: EnemyType::ZombieBoss(ZombieBoss { last: frame, ..clock }), ..e };
    map.replace_enemy(x, y, e2);
    let ghost reset = *map;
    proof {
        lemma_same_herds(old(map), map);
    }
    if map.spawned >= COUNT_LIMIT {
        return ;
    }
    let mut tries: usize = 0;
    while tries < 4
        invariant
            tries <= 4,
            *map == reset,
            herded(old(map), &reset),
            reset.spawned == old(map).spawned,
            reset.w == old(map).w,
            reset.h == old(map).h,
            reset.pass == old(map).pass,
            reset.tiles == old(map).tiles,
            reset.same_things(old(map)),
            reset.enemies_but(old(map), x as int, y as int),
            reset.enemy_at(x as int, y as int) == Some(e2),
            e2 == (Enemy {
                ty: EnemyType::ZombieBoss(
                    ZombieBoss {
                        last: frame,
                        ..old(map).enemy_at(x as int, y as int)->0.ty->ZombieBoss_0
                    },
                ),
                ..old(map).enemy_at(x as int, y as int)->0
            }),
            map.wf(),
            map.interior(x as int, y as int),
            map.spawned < COUNT_LIMIT,
            0 <= frame <= TICK_LIMIT,
        decreases 4 - tries,
    {
        let dx: i32 = roll(rng, -1, 2);
        let dy: i32 = roll(rng, -1, 2);
        if map.passable(x + dx, y + dy) {
            assert(!(dx == 0 && dy == 0));
            let minion = Enemy {
                uid: map.spawned,
                hp: 1,
                mhp: 1,
                last: frame,
                cd: ZOMBIE_COOLDOWN,
                slowed: 0,
                immobilized: false,
                ty: EnemyType::Zombie,
            };
            add_enemy(map, x + dx, y + dy, minion);
            proof {
                let nx = (x + dx) as int;
                let ny = (y + dy) as int;
                lemma_added_herds(&reset, map, nx, ny, minion);
                lemma_herded_twice(old(map), &reset, map);
                assert(map.enemy_at(nx, ny) == Some(
                    Enemy::zombie(old(map).spawned as int, 1, frame as int),
                ));
            }
            return ;
        }
        tries = tries + 1;
    }
}

/// Whether the cues `after` are the cues `before` followed by steps heard
/// at half volume.
pub open spec fn steps_heard(before: Seq<Cue>, after: Seq<Cue>) -> bool {
    &&& before.len() <= after.len()
    &&& after.subrange(0, before.len() as int) == before
    &&& forall|k: int|
        before.len() <= k < after.len() ==> (#[trigger] after[k]).sound == Sound::Walking
            && after[k].level == 50 && after[k].near == 10
}

/// Steps after steps are steps.
proof fn lemma_steps_twice(a: Seq<Cue>, b: Seq<Cue>, c: Seq<Cue>)
    requires
        steps_heard(a, b),
        steps_heard(b, c),
    ensures
        steps_heard(a, c),
{
    assert(c.subrange(0, a.len() as int) =~= a) by {
        assert forall|k: int| 0 <= k < a.len() implies c[k] == a[k] by {
            assert(c.subrange(0, b.len() as int)[k] == c[k]);
            assert(b.subrange(0, a.len() as int)[k] == b[k]);
        }
    }
    assert forall|k: int| a.len() <= k < c.len() implies (#[trigger] c[k]).sound == Sound::Walking
        && c[k].level == 50 && c[k].near == 10 by {
        if k < b.len() {
            assert(c.subrange(0, b.len() as int)[k] == c[k]);
        }
    }
}

/// Whether the arena `after` holds the enemy `e` at a later time, with the
/// tick `frame` noted as that of its last move, on the cell `(ox, oy)` or
/// one step away from it.
pub open spec fn went_awake(after: &Arena, e: Enemy, frame: int, ox: int, oy: int) -> bool {
    exists|x: int, y: int|
        after.inside(x, y) && (#[trigger] after.enemy_at(x, y)) is Some && same_enemy(
            e,
            after.enemy_at(x, y)->0,
        ) && after.enemy_at(x, y)->0.last == frame && manhattan(x, y, ox, oy) <= 1
}

/// Whether the arena `after` is `before` after the enemy on the cell
/// `(x, y)` had its turn at `frame`: an enemy that may move has noted the
/// tick, and stands where it stood or one step away; one that may not stands
/// where it stood,
/// with its last move as it was; and every enemy on another cell is as it
/// was.
#[verifier::opaque]
pub open spec fn stirred(before: &Arena, after: &Arena, x: int, y: int, frame: int) -> bool {
    &&& after.w == before.w
    &&& after.h == before.h
    &&& forall|x2: int, y2: int|
        before.inside(x2, y2) && !(x2 == x && y2 == y) && (#[trigger] before.enemy_at(
            x2,
            y2,
        )) is Some ==> after.enemy_at(x2, y2) == before.enemy_at(x2, y2)
    &&& before.enemy_at(x, y) matches Some(e) ==> if can_move(e, frame) {
        went_awake(after, e, frame, x, y)
    } else {
        after.enemy_at(x, y) is Some && same_enemy(e, after.enemy_at(x, y)->0) && after.enemy_at(
            x,
            y,
        )->0.last == e.last
    }
}

/// An enemy that noted the tick stands where it stood after another had
/// its turn, and after its own: it may not move again in the same tick.
proof fn lemma_stirred_keeps_awake(
    before: &Arena,
    after: &Arena,
    x: int,
    y: int,
    frame: int,
    e: Enemy,
    ox: int,
    oy: int,
)
    requires
        before.wf(),
        before.inside(x, y),
        stirred(before, after, x, y, frame),
        went_awake(before, e, frame, ox, oy),
    ensures
        went_awake(after, e, frame, ox, oy),
{
    reveal(stirred);
    let (x1, y1) = choose|x1: int, y1: int|
        before.inside(x1, y1) && (#[trigger] before.enemy_at(x1, y1)) is Some && same_enemy(
            e,
            before.enemy_at(x1, y1)->0,
        ) && before.enemy_at(x1, y1)->0.last == frame && manhattan(x1, y1, ox, oy) <= 1;
    let e1 = before.enemy_at(x1, y1)->0;
    assert(e1.wf());
    if x1 == x && y1 == y {
        assert(!can_move(e1, frame));
        assert(same_enemy(e, after.enemy_at(x, y)->0));
    } else {
        assert(after.enemy_at(x1, y1) == before.enemy_at(x1, y1));
    }
}

/// The turn of an enemy, from its parts: `called` is the arena after the
/// summoning, `noted` the one after the tick was noted, and `after` the one
/// after the step.
proof fn lemma_turn_stirs(
    before: &Arena,
    called: &Arena,
    noted: &Arena,
    after: &Arena,
    x: int,
    y: int,
    frame: int,
    free: bool,
    nx: int,
    ny: int,
    moved: bool,
)
    requires
        before.wf(),
        called.wf(),
        noted.wf(),
        before.inside(x, y),
        before.enemy_at(x, y) is Some,
        called.w == before.w,
        called.h == before.h,
        forall|x2: int, y2: int|
            before.inside(x2, y2) && !(x2 == x && y2 == y) && (#[trigger] before.enemy_at(
                x2,
                y2,
            )) is Some ==> called.enemy_at(x2, y2) == before.enemy_at(x2, y2),
        called.enemy_at(x, y) is Some,
        same_enemy(before.enemy_at(x, y)->0, called.enemy_at(x, y)->0),
        called.enemy_at(x, y)->0.last == before.enemy_at(x, y)->0.last,
        free == can_move(before.enemy_at(x, y)->0, frame),
        !free ==> *after == *called,
        0 <= frame <= TICK_LIMIT,
        free ==> {
            &&& noted.w == called.w
            &&& noted.h == called.h
            &&& noted.pass == called.pass
            &&& noted.enemy_at(x, y) == Some(
                Enemy { last: frame as i32, ..called.enemy_at(x, y)->0 },
            )
            &&& noted.enemies_but(called, x, y)
            &&& noted.inside(nx, ny)
            &&& moved ==> noted.pass_at(nx, ny) && enemy_moved(noted, after, x, y, nx, ny)
                && manhattan(nx, ny, x, y) <= 1
            &&& !moved ==> *after == *noted
        },
    ensures
        stirred(before, after, x, y, frame),
{
    reveal(stirred);
    let e = before.enemy_at(x, y)->0;
    if free {
        let woken = noted.enemy_at(x, y)->0;
        assert(same_enemy(e, woken));
        if moved {
            assert(after.enemy_at(nx, ny) == Some(woken));
            assert(noted.enemy_at(nx, ny) is None);
            assert(after.inside(nx, ny) && after.enemy_at(nx, ny) is Some && same_enemy(
                e,
                after.enemy_at(nx, ny)->0,
            ) && after.enemy_at(nx, ny)->0.last == frame && manhattan(nx, ny, x, y) <= 1);
            assert(went_awake(after, e, frame, x, y));
            assert forall|x2: int, y2: int|
                before.inside(x2, y2) && !(x2 == x && y2 == y) && (#[trigger] before.enemy_at(
                    x2,
                    y2,
                )) is Some implies after.enemy_at(x2, y2) == before.enemy_at(x2, y2) by {
                assert(called.enemy_at(x2, y2) == before.enemy_at(x2, y2));
                assert(noted.enemy_at(x2, y2) == called.enemy_at(x2, y2));
            }
        } else {
            assert(after.enemy_at(x, y) == Some(woken));
            assert(after.inside(x, y) && after.enemy_at(x, y) is Some && same_enemy(
                e,
                after.enemy_at(x, y)->0,
            ) && after.enemy_at(x, y)->0.last == frame && manhattan(x, y, x, y) <= 1);
            assert(went_awake(after, e, frame, x, y));
            assert forall|x2: int, y2: int|
                before.inside(x2, y2) && !(x2 == x && y2 == y) && (#[trigger] before.enemy_at(
                    x2,
                    y2,
                )) is Some implies after.enemy_at(x2, y2) == before.enemy_at(x2, y2) by {
                assert(called.enemy_at(x2, y2) == before.enemy_at(x2, y2));
                assert(noted.enemy_at(x2, y2) == called.enemy_at(x2, y2));
            }
        }
    }
}

/// A cell without an enemy, left alone, is stirred.
proof fn lemma_idle_stirs(before: &Arena, x: int, y: int, frame: int)
    requires
        before.enemy_at(x, y) is None,
    ensures
        stirred(before, before, x, y, frame),
{
    reveal(stirred);
}

/// Whether the boss tracker of `map` points at a boss, if it points at a
/// cell at all.
pub open spec fn boss_followed(map: &Arena) -> bool {
    map.boss.pos matches Some(p) ==> map.inside(p.x as int, p.y as int) && map.enemy_at(
        p.x as int,
        p.y as int,
    ) is Some && map.enemy_at(p.x as int, p.y as int)->0.is_boss()
}

/// Whether `after` is `before` with the tick `frame` noted as that of the
/// last move of the enemy on `(x, y)`, and nothing else changed.
pub open spec fn tick_noted(before: &Arena, after: &Arena, x: int, y: int, frame: int) -> bool {
    &&& after.same_things(before)
    &&& after.tiles == before.tiles
    &&& after.pass == before.pass
    &&& after.enemy_at(x, y) == Some(Enemy { last: frame as i32, ..before.enemy_at(x, y)->0 })
    &&& after.enemies_but(before, x, y)
}

/// Whether the state after is the state before with the enemy on `(x, y)`
/// sent to the cell `(nx, ny)`: it moves there if neither coordinate is
/// zero and the cell can be entered (see `enemy_moved`), and then a step is
/// heard, fading with the distance from the player to the cell left.
/// Otherwise nothing changes.
pub open spec fn enemy_stepped(
    before: &Arena,
    player: &Player,
    heard: Seq<Cue>,
    x: int,
    y: int,
    nx: int,
    ny: int,
    after: &Arena,
    heard_after: Seq<Cue>,
) -> bool {
    if nx != 0 && ny != 0 && before.pass_at(nx, ny) {
        &&& enemy_moved(before, after, x, y, nx, ny)
        &&& heard_after == heard.push(
            Cue::faded(Sound::Walking, 50, 10, manhattan(player.x as int, player.y as int, x, y)),
        )
    } else {
        *after == *before && heard_after == heard
    }
}

/// Whether the state after is the state before with the enemy `first` on
/// `(x, y)` having had its turn at `frame`, by way of the arena `called`
/// after the summoning and the arena `noted` after the tick was noted, and
/// with `(nx, ny)` the cell picked.
///
/// A boss that is due summons (see `summons` and `boss_summoned`). Then an
/// enemy that may move (see `can_move`) notes the tick, picks a cell (see
/// `step_chosen`) and is sent there (see `enemy_stepped`); for one that may
/// not, nothing more happens.
pub open spec fn turn_taken(
    before: &Arena,
    player: &Player,
    heard: Seq<Cue>,
    x: int,
    y: int,
    frame: int,
    called: &Arena,
    noted: &Arena,
    nx: int,
    ny: int,
    after: &Arena,
    heard_after: Seq<Cue>,
) -> bool {
    &&& before.enemy_at(x, y) is Some
    &&& if summons(before.enemy_at(x, y)->0, frame) {
        boss_summoned(before, called, x, y, frame)
    } else {
        *called == *before
    }
    &&& called.enemy_at(x, y) is Some
    &&& if can_move(called.enemy_at(x, y)->0, frame) {
        &&& tick_noted(called, noted, x, y, frame)
        &&& step_chosen(noted, player, x, y, nx, ny)
        &&& enemy_stepped(noted, player, heard, x, y, nx, ny, after, heard_after)
    } else {
        *after == *called && heard_after == heard
    }
}

/// Whether the state after is the state before with the cell `(x, y)`
/// visited at `frame`: the enemy on it, if there is one, had its turn (see
/// `turn_taken`).
pub open spec fn enemy_acted(
    before: &Arena,
    player: &Player,
    heard: Seq<Cue>,
    x: int,
    y: int,
    frame: int,
    after: &Arena,
    heard_after: Seq<Cue>,
) -> bool {
    if before.enemy_at(x, y) is None {
        *after == *before && heard_after == heard
    } else {
        exists|called: Arena, noted: Arena, nx: int, ny: int| #[trigger]
            turn_taken(
                before,
                player,
                heard,
                x,
                y,
                frame,
                &called,
                &noted,
                nx,
                ny,
                after,
                heard_after,
            )
    }
}

/// Whether the state `(m1, c1)` is reached from `(m0, c0)` by visiting the
/// cells of the column `x` from the row `y_lo` up to, and without, the row
/// `y`, one after the other (see `enemy_acted`).
pub open spec fn column_acted(
    m0: &Arena,
    c0: Seq<Cue>,
    player: &Player,
    frame: int,
    x: int,
    y_lo: int,
    y: int,
    m1: &Arena,
    c1: Seq<Cue>,
) -> bool
    decreases y - y_lo,
{
    if y <= y_lo {
        *m1 == *m0 && c1 == c0
    } else {
        exists|m: Arena, c: Seq<Cue>|
            {
                &&& column_acted(m0, c0, player, frame, x, y_lo, y - 1, &m, c)
                &&& #[trigger] enemy_acted(&m, player, c, x, y - 1, frame, m1, c1)
            }
    }
}

/// Whether the state `(m1, c1)` is reached from `(m0, c0)` by visiting the
/// columns from `x_lo` up to, and without, `x`, one after the other, each
/// from the row `y_lo` up to, and without, the row `y_hi` (see
/// `column_acted`).
pub open spec fn columns_acted(
    m0: &Arena,
    c0: Seq<Cue>,
    player: &Player,
    frame: int,
    x_lo: int,
    x: int,
    y_lo: int,
    y_hi: int,
    m1: &Arena,
    c1: Seq<Cue>,
) -> bool
    decreases x - x_lo,
{
    if x <= x_lo {
        *m1 == *m0 && c1 == c0
    } else {
        exists|m: Arena, c: Seq<Cue>|
            {
                &&& columns_acted(m0, c0, player, frame, x_lo, x - 1, y_lo, y_hi, &m, c)
                &&& #[trigger] column_acted(&m, c, player, frame, x - 1, y_lo, y_hi, m1, c1)
            }
    }
}

/// Whether the state after is the state before with the enemies around
/// the player having had their turns at `frame`: the cells within
/// `WAKE_RANGE` of the player along both axes, as far as they are cells of
/// the arena, were visited column by column.
pub open spec fn herd_acted(
    before: &Arena,
    heard: Seq<Cue>,
    player: &Player,
    frame: int,
    after: &Arena,
    heard_after: Seq<Cue>,
) -> bool {
    columns_acted(
        before,
        heard,
        player,
        frame,
        if 0 > player.x - WAKE_RANGE { 0 } else { player.x - WAKE_RANGE },
        if player.x + WAKE_RANGE < before.w { player.x + WAKE_RANGE } else { before.w as int },
        if 0 > player.y - WAKE_RANGE { 0 } else { player.y - WAKE_RANGE },
        if player.y + WAKE_RANGE < before.h { player.y + WAKE_RANGE } else { before.h as int },
        after,
        heard_after,
    )
}

/// Lets the enemy on the cell `(x, y)`, if there is one, act at `frame`: a
/// boss that is due summons (see `summon`); then, if the enemy may move
/// (see `can_move`), it notes the tick, picks a cell (see `choose_step`)
/// and moves there if it can (see `step_enemy`).
pub fn act(
    map: &mut Arena,
    player: &Player,
    cues: &mut Vec<Cue>,
    x: i32,
    y: i32,
    frame: i32,
    rng: &mut StdRng,
)
    requires
        old(map).wf(),
        old(map).hosts(player),
        old(map).inside(x as int, y as int),
        0 <= frame <= TICK_LIMIT,
    ensures
        final(map).wf(),
        herded(old(map), final(map)),
        stirred(old(map), final(map), x as int, y as int, frame as int),
        steps_heard(old(cues)@, final(cues)@),
        old(map).enemy_at(x as int, y as int) is None ==> *final(map) == *old(map) && final(cues)@
            == old(cues)@,
        enemy_acted(
            old(map),
            player,
            old(cues)@,
            x as int,
            y as int,
            frame as int,
            final(map),
            final(cues)@,
        ),
        boss_followed(old(map)) ==> boss_followed(final(map)),
{
    proof {
        lemma_herded_self(map);
        assert(cues@.subrange(0, cues@.len() as int) =~= cues@);
    }
    let first: Enemy = match map.enemy(x, y) {
        Some(e) => e,
        None => {
            proof {
                lemma_idle_stirs(map, x as int, y as int, frame as int);
            }
            return ;
        },
    };
    assert(first.wf() && map.interior(x as int, y as int));
    match first.ty {
        EnemyType::ZombieBoss(b) => {
            if frame >= b.last + b.cd && (!first.immobilized || first.slowed <= frame) {
                summon(map, x, y, frame, rng);
                proof {
                    lemma_herded_keeps_size(old(map), map);
                }
            }
        },
        EnemyType::Zombie => {},
    }
    let ghost called = *map;
    let e: Enemy = map.enemy(x, y).unwrap();
    assert(e.wf());
    proof {
        lemma_herded_keeps_size(old(map), &called);
        assert forall|x2: int, y2: int|
            old(map).inside(x2, y2) && !(x2 == x && y2 == y) && (#[trigger] old(map).enemy_at(
                x2,
                y2,
            )) is Some implies called.enemy_at(x2, y2) == old(map).enemy_at(x2, y2) by {
            assert(!old(map).pass_at(x2, y2));
        }
    }
    if !is_free(&e, frame) {
        proof {
            lemma_turn_stirs(
                old(map),
                &called,
                &called,
                map,
                x as int,
                y as int,
                frame as int,
                false,
                0,
                0,
                false,
            );
            assert(turn_taken(
                old(map),
                player,
                old(cues)@,
                x as int,
                y as int,
                frame as int,
                &called,
                &called,
                0,
                0,
                map,
                cues@,
            ));
        }
        return ;
    }
    map.replace_enemy(x, y, Enemy { last: frame, ..e });
    let ghost noted = *map;
    proof {
        lemma_same_herds(&called, &noted);
        lemma_herded_twice(old(map), &called, &noted);
    }
    let c: (i32, i32) = choose_step(map, player, x, y, rng);
    let moved: bool = step_enemy(map, player, cues, x, y, c.0, c.1);
    proof {
        lemma_herded_twice(old(map), &noted, map);
        assert(cues@.subrange(0, old(cues)@.len() as int) =~= old(cues)@);
        lemma_turn_stirs(
            old(map),
            &called,
            &noted,
            map,
            x as int,
            y as int,
            frame as int,
            true,
            c.0 as int,
            c.1 as int,
            moved,
        );
        assert(turn_taken(
            old(map),
            player,
            old(cues)@,
            x as int,
            y as int,
            frame as int,
            &called,
            &noted,
            c.0 as int,
            c.1 as int,
            map,
            cues@,
        ));
    }
}

/// Whether the cell `(x, y)` lies in the window around `(px, py)` in which
/// enemies are woken.
pub open spec fn in_wake_window(map: &Arena, px: int, py: int, x: int, y: int) -> bool {
    &&& map.inside(x, y)
    &&& px - WAKE_RANGE <= x < px + WAKE_RANGE
    &&& py - WAKE_RANGE <= y < py + WAKE_RANGE
}

/// Whether the arena `after` holds the enemy `e` on the cell `(x, y)` at a
/// later time, with its last move as it was.
pub open spec fn stayed(after: &Arena, e: Enemy, x: int, y: int) -> bool {
    after.enemy_at(x, y) is Some && same_enemy(e, after.enemy_at(x, y)->0) && after.enemy_at(
        x,
        y,
    )->0.last == e.last
}

/// Whether the enemies of `before` in the window around `(px, py)`, and no
/// others, had their turns at `frame`, as far as their cells come before
/// `(x, y)` when
/// the window is walked column by column: each of them that may move has
/// noted the tick and stands where it stood or one step away, each that may
/// not stands where it stood with its last move as it was, and each of the
/// others, in the window and outside it, is as it was.
pub open spec fn roused(
    before: &Arena,
    after: &Arena,
    px: int,
    py: int,
    frame: int,
    x: int,
    y: int,
) -> bool {
    forall|x2: int, y2: int|
        before.inside(x2, y2) && (#[trigger] before.enemy_at(x2, y2)) is Some ==> if in_wake_window(
            before,
            px,
            py,
            x2,
            y2,
        ) && (x2 < x || (x2 == x && y2 < y)) {
            if can_move(before.enemy_at(x2, y2)->0, frame) {
                went_awake(after, before.enemy_at(x2, y2)->0, frame, x2, y2)
            } else {
                stayed(after, before.enemy_at(x2, y2)->0, x2, y2)
            }
        } else {
            after.enemy_at(x2, y2) == before.enemy_at(x2, y2)
        }
}

/// One more turn in the window.
proof fn lemma_roused_step(
    before: &Arena,
    cur: &Arena,
    next: &Arena,
    px: int,
    py: int,
    frame: int,
    x: int,
    y: int,
)
    requires
        cur.wf(),
        cur.w == before.w,
        cur.h == before.h,
        in_wake_window(before, px, py, x, y),
        roused(before, cur, px, py, frame, x, y),
        stirred(cur, next, x, y, frame),
    ensures
        roused(before, next, px, py, frame, x, y + 1),
{
    assert forall|x2: int, y2: int|
        before.inside(x2, y2) && (#[trigger] before.enemy_at(x2, y2)) is Some implies if in_wake_window(
        before,
        px,
        py,
        x2,
        y2,
    ) && (x2 < x || (x2 == x && y2 < y + 1)) {
        if can_move(before.enemy_at(x2, y2)->0, frame) {
            went_awake(next, before.enemy_at(x2, y2)->0, frame, x2, y2)
        } else {
            stayed(next, before.enemy_at(x2, y2)->0, x2, y2)
        }
    } else {
        next.enemy_at(x2, y2) == before.enemy_at(x2, y2)
    } by {
        let e = before.enemy_at(x2, y2)->0;
        if x2 == x && y2 == y {
            assert(cur.enemy_at(x, y) == before.enemy_at(x, y));
            reveal(stirred);
        } else if in_wake_window(before, px, py, x2, y2) && (x2 < x || (x2 == x && y2 < y)) {
            if can_move(e, frame) {
                lemma_stirred_keeps_awake(cur, next, x, y, frame, e, x2, y2);
            } else {
                reveal(stirred);
                assert(stayed(cur, e, x2, y2));
                assert(next.enemy_at(x2, y2) == cur.enemy_at(x2, y2));
            }
        } else {
            assert(cur.enemy_at(x2, y2) == before.enemy_at(x2, y2));
            reveal(stirred);
        }
    }
}

/// Whether the state after is the state before with the enemies around the
/// player having had their turns at `frame`: see `herd_acted`.
pub open spec fn enemies_updated(
    before: &Arena,
    player: &Player,
    heard: Seq<Cue>,
    frame: i32,
    after: &Arena,
    heard_after: Seq<Cue>,
) -> bool {
    &&& after.wf()
    &&& herded(before, after)
    &&& steps_heard(heard, heard_after)
    &&& roused(
        before,
        after,
        player.x as int,
        player.y as int,
        frame as int,
        before.w as int,
        0,
    )
    &&& herd_acted(before, heard, player, frame as int, after, heard_after)
    &&& boss_followed(before) ==> boss_followed(after)
}

/// Lets the enemies around the player act at `frame`: every cell within
/// `WAKE_RANGE` of the player along both axes is visited once, column by
/// column, and the enemy found there acts (see `act`). What that makes of
/// the arena and the cues is `herd_acted`.
pub fn update_enemies(
    map: &mut Arena,
    player: &Player,
    cues: &mut Vec<Cue>,
    frame: i32,
    rng: &mut StdRng,
)
    requires
        old(map).wf(),
        old(map).hosts(player),
        0 <= frame <= TICK_LIMIT,
    ensures
        enemies_updated(
            old(map),
            player,
            old(cues)@,
            frame,
            final(map),
            final(cues)@,
        ),
{
    proof {
        lemma_herded_self(map);
        assert(cues@.subrange(0, cues@.len() as int) =~= cues@);
    }
    let x_lo: i32 = max(0, player.x - WAKE_RANGE);
    let x_hi: i32 = min(player.x + WAKE_RANGE, map.w);
    let y_lo: i32 = max(0, player.y - WAKE_RANGE);
    let y_hi: i32 = min(player.y + WAKE_RANGE, map.h);
    let mut x: i32 = x_lo;
    while x < x_hi
        invariant
            0 <= x_lo <= x,
            x <= x_hi || x == x_lo,
            x_hi <= map.w,
            0 <= y_lo,
            y_hi <= map.h,
            x_lo == (if 0 > player.x - WAKE_RANGE { 0 } else { player.x - WAKE_RANGE }),
            x_hi == (if player.x + WAKE_RANGE < map.w { player.x + WAKE_RANGE } else { map.w as int }),
            y_lo == (if 0 > player.y - WAKE_RANGE { 0 } else { player.y - WAKE_RANGE }),
            y_hi == (if player.y + WAKE_RANGE < map.h { player.y + WAKE_RANGE } else { map.h as int }),
            map.w == old(map).w,
            map.h == old(map).h,
            map.wf(),
            map.hosts(player),
            0 <= frame <= TICK_LIMIT,
            herded(old(map), map),
            steps_heard(old(cues)@, cues@),
            boss_followed(old(map)) ==> boss_followed(map),
            roused(
                old(map),
                map,
                player.x as int,
                player.y as int,
                frame as int,
                x as int,
                y_lo as int,
            ),
            columns_acted(
                old(map),
                old(cues)@,
                player,
                frame as int,
                x_lo as int,
                x as int,
                y_lo as int,
                y_hi as int,
                map,
                cues@,
            ),
        decreases x_hi - x,
    {
        let ghost col = *map;
        let ghost col_heard = cues@;
        let mut y: i32 = y_lo;
        while y < y_hi
            invariant
                0 <= x_lo <= x < x_hi,
                x_hi <= map.w,
                0 <= y_lo <= y,
                y <= y_hi || y == y_lo,
                y_hi <= map.h,
                x_lo == (if 0 > player.x - WAKE_RANGE { 0 } else { player.x - WAKE_RANGE }),
                x_hi == (if player.x + WAKE_RANGE < map.w {
                    player.x + WAKE_RANGE
                } else {
                    map.w as int
                }),
                y_lo == (if 0 > player.y - WAKE_RANGE { 0 } else { player.y - WAKE_RANGE }),
                y_hi == (if player.y + WAKE_RANGE < map.h {
                    player.y + WAKE_RANGE
                } else {
                    map.h as int
                }),
                map.w == old(map).w,
                map.h == old(map).h,
                map.wf(),
                map.hosts(player),
                0 <= frame <= TICK_LIMIT,
                herded(old(map), map),
                steps_heard(old(cues)@, cues@),
                boss_followed(old(map)) ==> boss_followed(map),
                roused(
                    old(map),
                    map,
                    player.x as int,
                    player.y as int,
                    frame as int,
                    x as int,
                    y as int,
                ),
                column_acted(
                    &col,
                    col_heard,
                    player,
                    frame as int,
                    x as int,
                    y_lo as int,
                    y as int,
                    map,
                    cues@,
                ),
            decreases y_hi - y,
        {
            let ghost cur = *map;
            let ghost heard = cues@;
            act(map, player, cues, x, y, frame, rng);
            proof {
                lemma_herded_twice(old(map), &cur, map);
                lemma_steps_twice(old(cues)@, heard, cues@);
                lemma_herded_keeps_size(&cur, map);
                lemma_roused_step(
                    old(map),
                    &cur,
                    map,
                    player.x as int,
                    player.y as int,
                    frame as int,
                    x as int,
                    y as int,
                );
            }
            proof {
                assert(column_acted(
                    &col,
                    col_heard,
                    player,
                    frame as int,
                    x as int,
                    y_lo as int,
                    y + 1 - 1,
                    &cur,
                    heard,
                ));
                assert(enemy_acted(&cur, player, heard, x as int, y + 1 - 1, frame as int, map, cues@));
                assert(column_acted(
                    &col,
                    col_heard,
                    player,
                    frame as int,
                    x as int,
                    y_lo as int,
                    y + 1,
                    map,
                    cues@,
                ));
            }
            y = y + 1;
        }
        proof {
            assert(y == y_hi || y_hi <= y_lo);
            assert(column_acted(
                &col,
                col_heard,
                player,
                frame as int,
                x + 1 - 1,
                y_lo as int,
                y_hi as int,
                map,
                cues@,
            ));
            assert(columns_acted(
                old(map),
                old(cues)@,
                player,
                frame as int,
                x_lo as int,
                x + 1 - 1,
                y_lo as int,
                y_hi as int,
                &col,
                col_heard,
            ));
            assert(columns_acted(
                old(map),
                old(cues)@,
                player,
                frame as int,
                x_lo as int,
                x + 1,
                y_lo as int,
                y_hi as int,
                map,
                cues@,
            ));
        }
        x = x + 1;
    }
}

/// Herding keeps the size of the arena.
pub proof fn lemma_herded_keeps_size(before: &Arena, after: &Arena)
    requires
        herded(before, after),
    ensures
        after.w == before.w,
        after.h == before.h,
        after.tiles == before.tiles,
        after.bullets == before.bullets,
        after.bombs == before.bombs,
        after.turrets == before.turrets,
        after.emps == before.emps,
        after.chests == before.chests,
        after.boss.nth == before.boss.nth,
        after.boss.resp == before.boss.resp,
        before.spawned <= after.spawned,
{
    reveal(herded);
}

/// Whether the cell `(x, y)` fits a zombie that is spawned while the
/// player stands where `player` does: it can be entered, and lies at least
/// `ZOMBIE_CLEARANCE` steps from the player.
pub open spec fn zombie_fits(map: &Arena, player: &Player, x: int, y: int) -> bool {
    map.pass_at(x, y) && manhattan(x, y, player.x as int, player.y as int) >= ZOMBIE_CLEARANCE
}

/// Whether the cell `(x, y)` fits the boss: it can be entered, and lies
/// more than `BOSS_CLEARANCE` steps from the player.
pub open spec fn boss_fits(map: &Arena, player: &Player, x: int, y: int) -> bool {
    map.pass_at(x, y) && manhattan(x, y, player.x as int, player.y as int) > BOSS_CLEARANCE
}

/// Spawns a zombie on the cell `(x, y)` if an enemy number is left and the
/// cell fits (see `zombie_fits`): the zombie gets the next number, the hit
/// points that follow the score, and no move yet. Otherwise nothing
/// happens. Returns whether the zombie was spawned.
pub fn spawn_enemy_at(map: &mut Arena, player: &Player, x: i32, y: i32) -> (placed: bool)
    requires
        old(map).wf(),
        player.wf(),
        old(map).inside(player.x as int, player.y as int),
        old(map).inside(x as int, y as int),
    ensures
        final(map).wf(),
        placed == (old(map).spawned < COUNT_LIMIT && zombie_fits(
            old(map),
            player,
            x as int,
            y as int,
        )),
        placed ==> enemy_added(
            old(map),
            final(map),
            x as int,
            y as int,
            Enemy::zombie(old(map).spawned as int, spawn_hp(player.stat(Stat::Score)), 0),
        ),
        !placed ==> *final(map) == *old(map),
{
    proof {
        assert(Stat::Score.least() <= player.stat(Stat::Score) <= Stat::Score.most());
    }
    if map.spawned < COUNT_LIMIT && map.passable(x, y) && dist(x, y, player.x, player.y)
        >= ZOMBIE_CLEARANCE {
        let hp: i8 = hp_for(player.get(Stat::Score));
        let e = Enemy {
            uid: map.spawned,
            hp,
            mhp: hp,
            last: 0,
            cd: ZOMBIE_COOLDOWN,
            slowed: 0,
            immobilized: false,
            ty: EnemyType::Zombie,
        };
        add_enemy(map, x, y, e);
        true
    } else {
        false
    }
}

/// Spawns the boss with `hp` hit points on the cell `(x, y)` at `frame` if
/// an enemy number is left and the cell fits (see `boss_fits`), and asks for
/// its sound. Otherwise nothing happens. Returns whether the boss was
/// spawned.
pub fn spawn_boss_at(
    map: &mut Arena,
    player: &Player,
    cues: &mut Vec<Cue>,
    frame: i32,
    hp: i8,
    x: i32,
    y: i32,
) -> (placed: bool)
    requires
        old(map).wf(),
        old(map).inside(player.x as int, player.y as int),
        old(map).inside(x as int, y as int),
        0 <= frame <= TICK_LIMIT,
        1 <= hp,
    ensures
        final(map).wf(),
        placed == (old(map).spawned < COUNT_LIMIT && boss_fits(old(map), player, x as int, y as int)),
        placed ==> enemy_added(
            old(map),
            final(map),
            x as int,
            y as int,
            Enemy::boss(old(map).spawned as int, hp as int, frame as int),
        ) && final(cues)@ == old(cues)@.push(Cue::flat(Sound::BossAppear, 50)),
        !placed ==> *final(map) == *old(map) && *final(cues) == *old(cues),
{
    if map.spawned < COUNT_LIMIT && map.passable(x, y) && dist(x, y, player.x, player.y)
        > BOSS_CLEARANCE {
        cues.push(Cue { sound: Sound::BossAppear, level: 50, near: 0, dist: 0 });
        let e = Enemy {
            uid: map.spawned,
            hp,
            mhp: hp,
            last: 0,
            cd: BOSS_COOLDOWN,
            slowed: 0,
            immobilized: false,
            ty: EnemyType::ZombieBoss(ZombieBoss { last: frame, cd: SUMMON_COOLDOWN }),
        };
        add_enemy(map, x, y, e);
        true
    } else {
        false
    }
}

} // verus!
