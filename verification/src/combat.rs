//! What happens when an enemy is hurt or killed, whatever the weapon.

use crate::arena::Arena;
use crate::chest::{fresh_chest, spawn_chest, ChestType};
use crate::dice::roll;
use crate::enemy::{Enemy, EnemyType};
use crate::player::{lemma_wf_carries, Player};
use crate::sound::{Cue, Sound};
use crate::stat::{
    lemma_slots_differ, Stat, COUNT_LIMIT, RADIUS_LIMIT, SPAN_LIMIT, STAMP_LIMIT, TICK_LIMIT,
};
use crate::tile::Tile;
use crate::upgrading::{Upgrading, OFFER_SIZE};
use crate::util::{bounded_add, chance_met, clamp, dist, manhattan, max, min, passes};
use rand::rngs::StdRng;
use vstd::prelude::*;

verus! {

/// Score for killing the boss.
pub const BOSS_SCORE: i32 = 100;

/// Chance in percent, before luck, that a killed zombie leaves a chest.
pub const DROP_CHANCE: i32 = 65;

/// Whether a zombie killed by a player with the luck `luck` leaves a chest,
/// given the roll `roll` out of a hundred.
pub open spec fn drops(luck: int, roll: int) -> bool {
    chance_met(roll, DROP_CHANCE + luck)
}

/// Whether a zombie killed by a player with the luck `luck` leaves a chest,
/// given the roll `roll` out of a hundred.
pub fn is_drop(luck: i32, roll: i32) -> (b: bool)
    requires
        0 <= luck <= SPAN_LIMIT,
    ensures
        b == drops(luck as int, roll as int),
{
    passes(roll, DROP_CHANCE + luck)
}

/// Whether `s` names the score bonus of a weapon.
pub open spec fn is_bonus(s: Stat) -> bool {
    s == Stat::ScoreAmmo || s == Stat::ScoreBomb || s == Stat::ScoreTurret || s == Stat::ScoreEmp
}

/// The score that killing `e` is worth to the player `p` with the weapon
/// whose bonus is `bonus`.
pub open spec fn reward(e: Enemy, p: &Player, bonus: Stat) -> int {
    if e.is_boss() {
        BOSS_SCORE as int
    } else {
        p.stat(bonus)
    }
}

/// The enemy `e` after it took `dmg` damage, if it lives on.
pub open spec fn hurt(e: Enemy, dmg: int) -> Option<Enemy> {
    if e.hp - dmg <= 0 {
        None
    } else {
        Some(Enemy { hp: (e.hp - dmg) as i8, ..e })
    }
}

/// Whether `u` is a level-up session as it is opened for the player `p`:
/// untouched, with a full offer of different upgrades that `p` has not
/// capped.
pub open spec fn opened_for(u: &Upgrading, p: &Player) -> bool {
    &&& u.wf()
    &&& u.frame == 0
    &&& u.ups == 2
    &&& u.ret is None
    &&& u.upgrades.len() == OFFER_SIZE
    &&& forall|i: int, j: int| 0 <= i < j < u.upgrades.len() ==> u.upgrades@[i] != u.upgrades@[j]
    &&& forall|i: int| 0 <= i < u.upgrades.len() ==> !(#[trigger] u.upgrades@[i]).capped(p)
}

/// Whether the arena `after` is `before` with the enemy on `(x, y)` gone
/// and, if `loot` says so, a chest with that loot spawned at `frame` in its
/// place. Without a chest the cell can be entered unless a turret stands on
/// it.
pub open spec fn enemy_fell(
    before: &Arena,
    after: &Arena,
    x: int,
    y: int,
    frame: int,
    loot: Option<ChestType>,
) -> bool {
    &&& after.enemy_at(x, y) is None
    &&& after.enemies_but(before, x, y)
    &&& after.tiles_but(before, x, y)
    &&& after.pass_but(before, x, y)
    &&& match loot {
        Some(ty) => {
            &&& after.tile_at(x, y) == Tile::Chest(fresh_chest(frame, ty))
            &&& !after.pass_at(x, y)
            &&& after.chests@ == before.chests@.push((x as i32, y as i32))
        },
        None => {
            &&& after.tile_at(x, y) is Empty
            &&& after.pass_at(x, y) == !before.has_turret(x, y)
            &&& after.chests@ == before.chests@
        },
    }
    &&& after.bullets == before.bullets
    &&& after.bombs == before.bombs
    &&& after.turrets == before.turrets
    &&& after.emps == before.emps
    &&& after.spawned == before.spawned
    &&& after.w == before.w
    &&& after.h == before.h
}

/// Whether the state after is the state before with the enemy `e` on
/// `(x, y)` killed at `frame` by the weapon whose score bonus is `bonus`.
///
/// The kill is counted and scored. A zombie may leave a chest with any loot
/// but `Rainbow`. The boss leaves a `Rainbow` chest, leaves the tracker,
/// pauses the game and opens a level-up session, for which the level-up
/// sound is asked.
pub open spec fn kill_settled(
    before: &Arena,
    after: &Arena,
    was: &Player,
    now: &Player,
    cues_before: Seq<Cue>,
    cues_after: Seq<Cue>,
    e: Enemy,
    x: int,
    y: int,
    frame: int,
    bonus: Stat,
) -> bool {
    &&& now.progress.killed == clamp(was.progress.killed + 1, 0, COUNT_LIMIT as int)
    &&& now.progress.used == was.progress.used
    &&& now.stats@ == was.stats@.update(
        Stat::Score.slot(),
        clamp(was.stat(Stat::Score) + reward(e, was, bonus), 0, COUNT_LIMIT as int) as i32,
    )
    &&& now.x == was.x
    &&& now.y == was.y
    &&& now.running == was.running
    &&& now.dead == was.dead
    &&& now.upgrades == was.upgrades
    &&& if e.is_boss() {
        &&& enemy_fell(before, after, x, y, frame, Some(ChestType::Rainbow))
        &&& after.boss == (crate::arena::Boss { pos: None, ..before.boss })
        &&& now.paused
        &&& now.upgrading is Some
        &&& opened_for(&now.upgrading->0, was)
        &&& cues_after == cues_before.push(Cue::flat(Sound::Upgrade, 100))
    } else {
        &&& exists|loot: Option<ChestType>|
            loot != Some(ChestType::Rainbow) && #[trigger] enemy_fell(
                before,
                after,
                x,
                y,
                frame,
                loot,
            )
        &&& after.boss == before.boss
        &&& now.paused == was.paused
        &&& now.upgrading == was.upgrading
        &&& cues_after == cues_before
    }
}

/// Settles the kill of the enemy on `(x, y)` at `frame`, by the weapon whose
/// score bonus is `bonus`: see `kill_settled`. Whether a zombie leaves a
/// chest, with which loot, and which upgrades the boss's session offers is
/// up to `rng`.
pub fn resolve_kill(
    map: &mut Arena,
    player: &mut Player,
    cues: &mut Vec<Cue>,
    x: i32,
    y: i32,
    frame: i32,
    bonus: Stat,
    rng: &mut StdRng,
)
    requires
        old(map).wf(),
        old(player).wf(),
        old(map).inside(x as int, y as int),
        old(map).enemy_at(x as int, y as int) is Some,
        0 <= frame <= TICK_LIMIT,
        is_bonus(bonus),
    ensures
        final(map).wf(),
        final(player).wf(),
        kill_settled(
            old(map),
            final(map),
            old(player),
            final(player),
            old(cues)@,
            final(cues)@,
            old(map).enemy_at(x as int, y as int)->0,
            x as int,
            y as int,
            frame as int,
            bonus,
        ),
{
    let e: Enemy = map.take_enemy(x, y);
    player.note_kill();
    match e.ty {
        EnemyType::Zombie => {
            let gain: i32 = player.get(bonus);
            player.gain(Stat::Score, gain);
            let luck: i32 = player.get(Stat::Luck);
            let mut loot: Option<ChestType> = None;
            assert(Stat::Luck.least() <= player.stat(Stat::Luck) <= Stat::Luck.most());
            if is_drop(luck, roll(rng, 0, 100)) {
                let ty: ChestType = ChestType::random(rng);
                let placed: bool = spawn_chest(map, frame, x, y, ty);
                assert(placed);
                loot = Some(ty);
            }
            proof {
                lemma_slots_differ(Stat::Score, bonus);
                lemma_slots_differ(Stat::Score, Stat::Luck);
                assert(enemy_fell(old(map), map, x as int, y as int, frame as int, loot));
            }
        },
        EnemyType::ZombieBoss(_) => {
            map.boss.pos = None;
            player.gain(Stat::Score, BOSS_SCORE);
            let ghost scored = *player;
            player.paused = true;
            proof {
                lemma_wf_carries(&scored, player);
            }
            let session: Upgrading = Upgrading::new(player, cues, rng);
            proof {
                assert forall|i: int| 0 <= i < session.upgrades.len() implies !(
                #[trigger] session.upgrades@[i]).capped(old(player)) by {
                    assert(!session.upgrades@[i].capped(player));
                }
            }
            player.upgrading = Some(session);
            proof {
                lemma_wf_carries(&scored, player);
            }
            
            let placed: bool = spawn_chest(map, frame, x, y, ChestType::Rainbow);
            assert(placed);
            assert(enemy_fell(
                old(map),
                map,
                x as int,
                y as int,
                frame as int,
                Some(ChestType::Rainbow),
            ));
        },
    }
}

/// What a blast or a pulse does to each enemy it reaches: `dmg` damage,
/// and, if `slows`, a slow-down by `slow` ticks that may immobilize.
#[derive(Clone, Copy, Debug, PartialEq, Eq, Structural)]
pub struct Shock {
    pub dmg: i32,
    pub slows: bool,
    pub slow: i32,
    pub immobilize: bool,
}

impl Shock {
    /// Damage and slow-down are in range.
    pub open spec fn wf(&self) -> bool {
        0 <= self.dmg <= 127 && 0 <= self.slow <= SPAN_LIMIT
    }
}

/// The enemy `e` after the slow-down of the shock `s` at `frame`: a slow
/// enemy stays slow for `s.slow` ticks longer, any other for `s.slow` ticks
/// from `frame`; an immobilizing shock slows for half as long. The end of
/// the slow-down is held at `STAMP_LIMIT`.
pub open spec fn shocked(e: Enemy, frame: int, s: Shock) -> Enemy {
    if s.slows {
        Enemy {
            slowed: clamp(
                (if e.slowed < frame {
                    frame
                } else {
                    e.slowed as int
                }) + (if s.immobilize {
                    s.slow / 2
                } else {
                    s.slow as int
                }),
                -SPAN_LIMIT as int,
                STAMP_LIMIT as int,
            ) as i32,
            immobilized: s.immobilize,
            ..e
        }
    } else {
        e
    }
}

/// Slow-downs add up: an enemy that is not slow at `first`, and is slowed
/// there and again at `second` while it is still slow, stays slow until
/// twice the length of the slow-down after `first`, and not merely until
/// the later of the two ends. The end is held at `STAMP_LIMIT`.
pub proof fn lemma_slow_stacks(e: Enemy, first: int, second: int, s: Shock)
    requires
        e.wf(),
        s.wf(),
        s.slows,
        !s.immobilize,
        0 <= first <= second,
        e.slowed < first,
        second <= first + s.slow,
    ensures
        shocked(shocked(e, first, s), second, s).slowed == clamp(
            first + s.slow + s.slow,
            -SPAN_LIMIT as int,
            STAMP_LIMIT as int,
        ),
        first + s.slow + s.slow <= STAMP_LIMIT ==> shocked(shocked(e, first, s), second, s).slowed
            == first + s.slow + s.slow,
{
}

/// The enemy `e` after the shock `s` at `frame`, if it lives on.
pub open spec fn struck(e: Enemy, frame: int, s: Shock) -> Option<Enemy> {
    hurt(shocked(e, frame, s), s.dmg as int)
}

/// Whether the shock around `(cx, cy)` with the radius `r` reaches the cell
/// `(x, y)`.
pub open spec fn reached(cx: int, cy: int, r: int, x: int, y: int) -> bool {
    manhattan(x, y, cx, cy) <= r
}

/// Whether the cell `(x2, y2)` comes before `(x, y)` in the order in which
/// a shock visits the cells: column by column.
pub open spec fn visited(x2: int, y2: int, x: int, y: int) -> bool {
    x2 < x || (x2 == x && y2 < y)
}

/// Whether the enemy on the cell `(x2, y2)` of `before` is killed by the
/// shock `s` around `(cx, cy)`.
pub open spec fn falls(
    before: &Arena,
    cx: int,
    cy: int,
    r: int,
    frame: int,
    s: Shock,
    x2: int,
    y2: int,
) -> bool {
    &&& before.inside(x2, y2)
    &&& reached(cx, cy, r, x2, y2)
    &&& before.enemy_at(x2, y2) is Some
    &&& struck(before.enemy_at(x2, y2)->0, frame, s) is None
}

/// The cells visited before `(x, y)` whose enemy the shock kills.
pub open spec fn fallen(
    before: &Arena,
    cx: int,
    cy: int,
    r: int,
    frame: int,
    s: Shock,
    x: int,
    y: int,
) -> Set<(int, int)> {
    Set::new(
        |c: (int, int)| falls(before, cx, cy, r, frame, s, c.0, c.1) && visited(c.0, c.1, x, y),
    )
}

/// The cells visited before `(x, y)` on which the shock kills a boss.
pub open spec fn fallen_bosses(
    before: &Arena,
    cx: int,
    cy: int,
    r: int,
    frame: int,
    s: Shock,
    x: int,
    y: int,
) -> Set<(int, int)> {
    Set::new(
        |c: (int, int)|
            falls(before, cx, cy, r, frame, s, c.0, c.1) && visited(c.0, c.1, x, y)
                && before.enemy_at(c.0, c.1)->0.is_boss(),
    )
}

/// Whether the occupancy plane of `after` is that of `before` with the shock
/// done to every cell visited before `(x, y)`: every enemy reached there is
/// struck, and gone if that kills it.
pub open spec fn swept_enemies(
    before: &Arena,
    after: &Arena,
    cx: int,
    cy: int,
    r: int,
    frame: int,
    s: Shock,
    x: int,
    y: int,
) -> bool {
    forall|x2: int, y2: int|
        before.inside(x2, y2) ==> #[trigger] after.enemy_at(x2, y2) == (if reached(
            cx,
            cy,
            r,
            x2,
            y2,
        ) && visited(x2, y2, x, y) && before.enemy_at(x2, y2) is Some {
            struck(before.enemy_at(x2, y2)->0, frame, s)
        } else {
            before.enemy_at(x2, y2)
        })
}

/// Whether `t` is what a zombie killed at `frame` may leave: nothing, or a
/// chest spawned at `frame` with loot other than `Rainbow`.
pub open spec fn zombie_leaves(t: Tile, frame: int) -> bool {
    t is Empty || (t matches Tile::Chest(c) && c == fresh_chest(frame, c.ty) && c.ty
        != ChestType::Rainbow)
}

/// Whether the tile plane of `after` is that of `before` but for the cells
/// visited before `(x, y)` on which the shock killed: where a boss died
/// lies a `Rainbow` chest spawned at `frame`, where a zombie died lies what
/// a zombie may leave.
pub open spec fn swept_tiles(
    before: &Arena,
    after: &Arena,
    cx: int,
    cy: int,
    r: int,
    frame: int,
    s: Shock,
    x: int,
    y: int,
) -> bool {
    forall|x2: int, y2: int|
        before.inside(x2, y2) ==> (if falls(before, cx, cy, r, frame, s, x2, y2) && visited(
            x2,
            y2,
            x,
            y,
        ) {
            if before.enemy_at(x2, y2)->0.is_boss() {
                #[trigger] after.tile_at(x2, y2) == Tile::Chest(
                    fresh_chest(frame, ChestType::Rainbow),
                )
            } else {
                zombie_leaves(after.tile_at(x2, y2), frame)
            }
        } else {
            after.tile_at(x2, y2) == before.tile_at(x2, y2)
        })
}

/// Whether the passability plane of `after` is that of `before` but for the
/// cells visited before `(x, y)` on which the shock killed: such a cell can
/// be entered if it is empty and no turret stands on it.
pub open spec fn swept_pass(
    before: &Arena,
    after: &Arena,
    cx: int,
    cy: int,
    r: int,
    frame: int,
    s: Shock,
    x: int,
    y: int,
) -> bool {
    forall|x2: int, y2: int|
        before.inside(x2, y2) ==> #[trigger] after.pass_at(x2, y2) == (if falls(
            before,
            cx,
            cy,
            r,
            frame,
            s,
            x2,
            y2,
        ) && visited(x2, y2, x, y) {
            after.tile_at(x2, y2) is Empty && !before.has_turret(x2, y2)
        } else {
            before.pass_at(x2, y2)
        })
}

/// Whether the books of the state after are those of the state before with
/// the deaths on the cells visited before `(x, y)` entered: each is counted
/// and scored, with `bonus` for a zombie; the chest queue only grew; and if
/// a boss died, the tracker is cleared, the game is paused, a level-up
/// session is open, and one level-up sound was asked for each boss.
pub open spec fn swept_books(
    before: &Arena,
    after: &Arena,
    was: &Player,
    now: &Player,
    cues_before: Seq<Cue>,
    cues_after: Seq<Cue>,
    cx: int,
    cy: int,
    r: int,
    frame: int,
    s: Shock,
    bonus: Stat,
    x: int,
    y: int,
) -> bool {
    let dead = fallen(before, cx, cy, r, frame, s, x, y);
    let dead_bosses = fallen_bosses(before, cx, cy, r, frame, s, x, y);
    &&& dead.finite()
    &&& dead_bosses.finite()
    &&& dead_bosses.len() <= dead.len()
    &&& before.chests@.len() <= after.chests@.len()
    &&& after.chests@.subrange(0, before.chests@.len() as int) == before.chests@
    &&& after.bullets == before.bullets
    &&& after.bombs == before.bombs
    &&& after.turrets == before.turrets
    &&& after.emps == before.emps
    &&& after.spawned == before.spawned
    &&& after.w == before.w
    &&& after.h == before.h
    &&& after.boss == (if dead_bosses.len() > 0 {
        crate::arena::Boss { pos: None, ..before.boss }
    } else {
        before.boss
    })
    &&& now.progress.killed == clamp(was.progress.killed + dead.len(), 0, COUNT_LIMIT as int)
    &&& now.progress.used == was.progress.used
    &&& now.stats@ == was.stats@.update(
        Stat::Score.slot(),
        clamp(
            was.stat(Stat::Score) + was.stat(bonus) * (dead.len() - dead_bosses.len()) + BOSS_SCORE
                * dead_bosses.len(),
            0,
            COUNT_LIMIT as int,
        ) as i32,
    )
    &&& now.x == was.x
    &&& now.y == was.y
    &&& now.running == was.running
    &&& now.dead == was.dead
    &&& now.upgrades == was.upgrades
    &&& now.paused == (was.paused || dead_bosses.len() > 0)
    &&& if dead_bosses.len() > 0 {
        now.upgrading is Some && opened_for(&now.upgrading->0, was)
    } else {
        now.upgrading == was.upgrading
    }
    &&& cues_after.len() == cues_before.len() + dead_bosses.len()
    &&& cues_after.subrange(0, cues_before.len() as int) == cues_before
    &&& forall|k: int|
        cues_before.len() <= k < cues_after.len() ==> cues_after[k] == Cue::flat(
            Sound::Upgrade,
            100,
        )
}

/// Whether the state after is the state before with the shock `s` around
/// `(cx, cy)` done to every cell visited before `(x, y)`: to the enemies,
/// the tiles, the passability and the books.
pub open spec fn swept(
    before: &Arena,
    after: &Arena,
    was: &Player,
    now: &Player,
    cues_before: Seq<Cue>,
    cues_after: Seq<Cue>,
    cx: int,
    cy: int,
    r: int,
    frame: int,
    s: Shock,
    bonus: Stat,
    x: int,
    y: int,
) -> bool {
    &&& swept_enemies(before, after, cx, cy, r, frame, s, x, y)
    &&& swept_tiles(before, after, cx, cy, r, frame, s, x, y)
    &&& swept_pass(before, after, cx, cy, r, frame, s, x, y)
    &&& swept_books(before, after, was, now, cues_before, cues_after, cx, cy, r, frame, s, bonus, x, y)
}

/// Whether the state after is the state before with the shock done to the
/// one cell `(x, y)`: an enemy reached there is struck, and if that kills
/// it, the kill is settled.
pub open spec fn cell_struck(
    before: &Arena,
    after: &Arena,
    was: &Player,
    now: &Player,
    cues_before: Seq<Cue>,
    cues_after: Seq<Cue>,
    cx: int,
    cy: int,
    r: int,
    frame: int,
    s: Shock,
    bonus: Stat,
    x: int,
    y: int,
) -> bool {
    if reached(cx, cy, r, x, y) && before.enemy_at(x, y) is Some {
        let e = before.enemy_at(x, y)->0;
        if struck(e, frame, s) is None {
            kill_settled(before, after, was, now, cues_before, cues_after, e, x, y, frame, bonus)
        } else {
            &&& after.enemy_at(x, y) == struck(e, frame, s)
            &&& after.enemies_but(before, x, y)
            &&& after.tiles == before.tiles
            &&& after.pass == before.pass
            &&& after.same_things(before)
            &&& *now == *was
            &&& cues_after == cues_before
        }
    } else {
        *after == *before && *now == *was && cues_after == cues_before
    }
}

/// Whether the player `now` is the player `was` after kills were settled,
/// as far as the books go: kills and score did not fall, and but for the
/// score no stat changed; nor did the position, the tallies or the uses.
pub open spec fn scored(was: &Player, now: &Player) -> bool {
    &&& now.x == was.x
    &&& now.y == was.y
    &&& now.running == was.running
    &&& now.upgrades == was.upgrades
    &&& now.progress.used == was.progress.used
    &&& was.progress.killed <= now.progress.killed
    &&& was.stat(Stat::Score) <= now.stat(Stat::Score)
    &&& now.stats@ == was.stats@.update(Stat::Score.slot(), now.stat(Stat::Score) as i32)
}

/// Scoring after scoring is scoring.
pub proof fn lemma_scored_twice(a: &Player, b: &Player, c: &Player)
    requires
        a.wf(),
        scored(a, b),
        scored(b, c),
    ensures
        scored(a, c),
{
    assert(c.stats@ =~= a.stats@.update(Stat::Score.slot(), c.stat(Stat::Score) as i32));
}

/// A shock scores.
pub proof fn lemma_swept_scores(
    before: &Arena,
    after: &Arena,
    was: &Player,
    now: &Player,
    cues_before: Seq<Cue>,
    cues_after: Seq<Cue>,
    cx: int,
    cy: int,
    r: int,
    frame: int,
    s: Shock,
    bonus: Stat,
    x: int,
    y: int,
)
    requires
        was.wf(),
        is_bonus(bonus),
        swept(before, after, was, now, cues_before, cues_after, cx, cy, r, frame, s, bonus, x, y),
    ensures
        scored(was, now),
        now.dead == was.dead,
        was.paused ==> now.paused,
        cues_before.len() <= cues_after.len(),
        cues_after.subrange(0, cues_before.len() as int) == cues_before,
        after.w == before.w,
        after.h == before.h,
        after.bombs == before.bombs,
        after.turrets == before.turrets,
        after.emps == before.emps,
        after.spawned == before.spawned,
{
    let dead = fallen(before, cx, cy, r, frame, s, x, y);
    let dead_bosses = fallen_bosses(before, cx, cy, r, frame, s, x, y);
    let b = was.stat(bonus);
    let n = dead.len() as int;
    let nb = dead_bosses.len() as int;
    assert(0 <= b) by {
        assert(bonus.least() <= was.stat(bonus));
    }
    assert(0 <= was.stat(Stat::Score) <= COUNT_LIMIT) by {
        assert(Stat::Score.least() <= was.stat(Stat::Score) <= Stat::Score.most());
    }
    assert(b * (n - nb) >= 0) by (nonlinear_arith)
        requires
            b >= 0,
            n - nb >= 0,
    ;
    assert(BOSS_SCORE * nb >= 0) by (nonlinear_arith)
        requires
            nb >= 0,
    ;
    lemma_slots_differ(Stat::Score, Stat::Score);
}

/// The enemy `e` after the slow-down of the shock `s` at `frame`.
pub fn apply_shock(e: Enemy, frame: i32, s: Shock) -> (r: Enemy)
    requires
        e.wf(),
        s.wf(),
        0 <= frame <= TICK_LIMIT,
    ensures
        r == shocked(e, frame as int, s),
        r.wf(),
        r.hp == e.hp,
        r.uid == e.uid,
        r.ty == e.ty,
{
    if s.slows {
        let base: i32 = if e.slowed < frame { frame } else { e.slowed };
        let add: i32 = if s.immobilize { s.slow / 2 } else { s.slow };
        Enemy {
            slowed: bounded_add(base, add, -SPAN_LIMIT, STAMP_LIMIT),
            immobilized: s.immobilize,
            ..e
        }
    } else {
        e
    }
}

/// Does the shock `s` around `(cx, cy)` to the cell `(x, y)`: see
/// `cell_struck`.
pub fn strike_cell(
    map: &mut Arena,
    player: &mut Player,
    cues: &mut Vec<Cue>,
    cx: i32,
    cy: i32,
    r: i32,
    frame: i32,
    s: Shock,
    bonus: Stat,
    x: i32,
    y: i32,
    rng: &mut StdRng,
)
    requires
        old(map).wf(),
        old(player).wf(),
        old(map).inside(cx as int, cy as int),
        old(map).inside(x as int, y as int),
        0 <= r <= RADIUS_LIMIT,
        0 <= frame <= TICK_LIMIT,
        s.wf(),
        is_bonus(bonus),
    ensures
        final(map).wf(),
        final(player).wf(),
        cell_struck(
            old(map),
            final(map),
            old(player),
            final(player),
            old(cues)@,
            final(cues)@,
            cx as int,
            cy as int,
            r as int,
            frame as int,
            s,
            bonus,
            x as int,
            y as int,
        ),
{
    if dist(x, y, cx, cy) <= r {
        match map.enemy(x, y) {
            Some(e) => {
                let e2: Enemy = apply_shock(e, frame, s);
                let left: i32 = e2.hp as i32 - s.dmg;
                if left <= 0 {
                    resolve_kill(map, player, cues, x, y, frame, bonus, rng);
                } else {
                    map.replace_enemy(x, y, Enemy { hp: left as i8, ..e2 });
                }
            },
            None => {},
        }
    }
}

/// Adding to a held sum and holding again is holding the whole sum.
pub proof fn lemma_clamp_sum(a: int, b: int, limit: int)
    requires
        0 <= a,
        0 <= b,
        0 <= limit,
    ensures
        clamp(clamp(a, 0, limit) + b, 0, limit) == clamp(a + b, 0, limit),
{
}

/// The shock has reached no cell yet when its visit starts at `(x, y)` and
/// no cell before `(x, y)` holds an enemy within reach.
proof fn lemma_sweep_start(
    before: &Arena,
    was: &Player,
    cues: Seq<Cue>,
    cx: int,
    cy: int,
    r: int,
    frame: int,
    s: Shock,
    bonus: Stat,
    x: int,
    y: int,
)
    requires
        before.wf(),
        was.wf(),
        forall|x2: int, y2: int|
            before.inside(x2, y2) && reached(cx, cy, r, x2, y2) && (#[trigger] before.enemy_at(
                x2,
                y2,
            )) is Some ==> !visited(x2, y2, x, y),
    ensures
        swept(before, before, was, was, cues, cues, cx, cy, r, frame, s, bonus, x, y),
{
    assert(fallen(before, cx, cy, r, frame, s, x, y) =~= Set::empty());
    assert(fallen_bosses(before, cx, cy, r, frame, s, x, y) =~= Set::empty());
    assert(cues.subrange(0, cues.len() as int) =~= cues);
    assert(before.chests@.subrange(0, before.chests@.len() as int) =~= before.chests@);
    assert(was.stats@ =~= was.stats@.update(Stat::Score.slot(), was.stat(Stat::Score) as i32));
    assert(0 <= was.stat(Stat::Score)) by {
        assert(Stat::Score.least() <= was.stat(Stat::Score));
    }
}

/// A shock that is done up to `(xa, ya)` is done up to `(xb, yb)` if the
/// two marks have the same cells with an enemy within reach before them.
proof fn lemma_sweep_shift(
    before: &Arena,
    after: &Arena,
    was: &Player,
    now: &Player,
    cues_before: Seq<Cue>,
    cues_after: Seq<Cue>,
    cx: int,
    cy: int,
    r: int,
    frame: int,
    s: Shock,
    bonus: Stat,
    xa: int,
    ya: int,
    xb: int,
    yb: int,
)
    requires
        swept(before, after, was, now, cues_before, cues_after, cx, cy, r, frame, s, bonus, xa, ya),
        forall|x2: int, y2: int|
            before.inside(x2, y2) && reached(cx, cy, r, x2, y2) && (#[trigger] before.enemy_at(
                x2,
                y2,
            )) is Some ==> visited(x2, y2, xa, ya) == visited(x2, y2, xb, yb),
    ensures
        swept(before, after, was, now, cues_before, cues_after, cx, cy, r, frame, s, bonus, xb, yb),
{
    assert(fallen(before, cx, cy, r, frame, s, xa, ya) =~= fallen(
        before,
        cx,
        cy,
        r,
        frame,
        s,
        xb,
        yb,
    ));
    assert(fallen_bosses(before, cx, cy, r, frame, s, xa, ya) =~= fallen_bosses(
        before,
        cx,
        cy,
        r,
        frame,
        s,
        xb,
        yb,
    ));
    assert(swept_enemies(before, after, cx, cy, r, frame, s, xb, yb));
    assert(swept_tiles(before, after, cx, cy, r, frame, s, xb, yb));
    assert(swept_pass(before, after, cx, cy, r, frame, s, xb, yb));
}

/// One more cell struck: the planes.
proof fn lemma_sweep_step_planes(
    before: &Arena,
    cur: &Arena,
    next: &Arena,
    who: &Player,
    now: &Player,
    heard: Seq<Cue>,
    heard2: Seq<Cue>,
    cx: int,
    cy: int,
    r: int,
    frame: int,
    s: Shock,
    bonus: Stat,
    x: int,
    y: int,
)
    requires
        before.wf(),
        before.inside(x, y),
        cur.w == before.w,
        cur.h == before.h,
        cur.turrets == before.turrets,
        swept_enemies(before, cur, cx, cy, r, frame, s, x, y),
        swept_tiles(before, cur, cx, cy, r, frame, s, x, y),
        swept_pass(before, cur, cx, cy, r, frame, s, x, y),
        cell_struck(cur, next, who, now, heard, heard2, cx, cy, r, frame, s, bonus, x, y),
    ensures
        swept_enemies(before, next, cx, cy, r, frame, s, x, y + 1),
        swept_tiles(before, next, cx, cy, r, frame, s, x, y + 1),
        swept_pass(before, next, cx, cy, r, frame, s, x, y + 1),
{
    assert(cur.enemy_at(x, y) == before.enemy_at(x, y));
    assert(cur.tile_at(x, y) == before.tile_at(x, y));
    assert(cur.pass_at(x, y) == before.pass_at(x, y));
    assert(cur.has_turret(x, y) == before.has_turret(x, y));
    assert forall|x2: int, y2: int| before.inside(x2, y2) implies #[trigger] next.enemy_at(x2, y2)
        == (if reached(cx, cy, r, x2, y2) && visited(x2, y2, x, y + 1) && before.enemy_at(
        x2,
        y2,
    ) is Some {
        struck(before.enemy_at(x2, y2)->0, frame, s)
    } else {
        before.enemy_at(x2, y2)
    }) by {
        if !(x2 == x && y2 == y) {
            assert(next.enemy_at(x2, y2) == cur.enemy_at(x2, y2));
        }
    }
    assert forall|x2: int, y2: int| before.inside(x2, y2) implies (if falls(
        before,
        cx,
        cy,
        r,
        frame,
        s,
        x2,
        y2,
    ) && visited(x2, y2, x, y + 1) {
        if before.enemy_at(x2, y2)->0.is_boss() {
            #[trigger] next.tile_at(x2, y2) == Tile::Chest(fresh_chest(frame, ChestType::Rainbow))
        } else {
            zombie_leaves(next.tile_at(x2, y2), frame)
        }
    } else {
        next.tile_at(x2, y2) == before.tile_at(x2, y2)
    }) by {
        if !(x2 == x && y2 == y) {
            assert(next.tile_at(x2, y2) == cur.tile_at(x2, y2));
        }
    }
    assert forall|x2: int, y2: int| before.inside(x2, y2) implies #[trigger] next.pass_at(x2, y2)
        == (if falls(before, cx, cy, r, frame, s, x2, y2) && visited(x2, y2, x, y + 1) {
        next.tile_at(x2, y2) is Empty && !before.has_turret(x2, y2)
    } else {
        before.pass_at(x2, y2)
    }) by {
        if !(x2 == x && y2 == y) {
            assert(next.pass_at(x2, y2) == cur.pass_at(x2, y2));
            assert(next.tile_at(x2, y2) == cur.tile_at(x2, y2));
        }
    }
}

/// One more cell struck: the books.
#[verifier::rlimit(40)]
proof fn lemma_sweep_step_books(
    before: &Arena,
    cur: &Arena,
    next: &Arena,
    was: &Player,
    who: &Player,
    now: &Player,
    cues: Seq<Cue>,
    heard: Seq<Cue>,
    heard2: Seq<Cue>,
    cx: int,
    cy: int,
    r: int,
    frame: int,
    s: Shock,
    bonus: Stat,
    x: int,
    y: int,
)
    requires
        before.wf(),
        was.wf(),
        is_bonus(bonus),
        before.inside(x, y),
        swept_enemies(before, cur, cx, cy, r, frame, s, x, y),
        swept_books(before, cur, was, who, cues, heard, cx, cy, r, frame, s, bonus, x, y),
        cell_struck(cur, next, who, now, heard, heard2, cx, cy, r, frame, s, bonus, x, y),
    ensures
        swept_books(before, next, was, now, cues, heard2, cx, cy, r, frame, s, bonus, x, y + 1),
{
    let dead = fallen(before, cx, cy, r, frame, s, x, y);
    let dead_bosses = fallen_bosses(before, cx, cy, r, frame, s, x, y);
    let dead2 = fallen(before, cx, cy, r, frame, s, x, y + 1);
    let dead_bosses2 = fallen_bosses(before, cx, cy, r, frame, s, x, y + 1);
    let here: (int, int) = (x, y);
    assert(cur.enemy_at(x, y) == before.enemy_at(x, y));
    let killed = falls(before, cx, cy, r, frame, s, x, y);
    lemma_slots_differ(Stat::Score, bonus);
    assert(0 <= was.stat(Stat::Score)) by {
        assert(Stat::Score.least() <= was.stat(Stat::Score));
    }
    assert(0 <= was.stat(bonus)) by {
        assert(bonus.least() <= was.stat(bonus));
    }
    if killed {
        let e = before.enemy_at(x, y)->0;
        assert(dead2 =~= dead.insert(here));
        assert(!dead.contains(here));
        if e.is_boss() {
            assert(dead_bosses2 =~= dead_bosses.insert(here));
            assert(!dead_bosses.contains(here));
        } else {
            assert(dead_bosses2 =~= dead_bosses);
        }
        let b = was.stat(bonus);
        let n = dead.len() as int;
        let nb = dead_bosses.len() as int;
        assert(who.stat(bonus) == b);
        assert(b * (n + 1 - nb) == b * (n - nb) + b) by (nonlinear_arith);
        assert(BOSS_SCORE * (nb + 1) == BOSS_SCORE * nb + BOSS_SCORE) by (nonlinear_arith);
        assert(b * (n - nb) >= 0) by (nonlinear_arith)
            requires
                b >= 0,
                n - nb >= 0,
        ;
        lemma_clamp_sum(
            was.stat(Stat::Score) + b * (n - nb) + BOSS_SCORE * nb,
            reward(e, who, bonus),
            COUNT_LIMIT as int,
        );
        lemma_clamp_sum(was.progress.killed + n, 1, COUNT_LIMIT as int);
        assert(now.stats@ =~= was.stats@.update(
            Stat::Score.slot(),
            now.stat(Stat::Score) as i32,
        ));
        assert(next.chests@.subrange(0, before.chests@.len() as int) =~= cur.chests@.subrange(
            0,
            before.chests@.len() as int,
        ));
        assert(heard2.subrange(0, cues.len() as int) =~= heard.subrange(0, cues.len() as int));
        if e.is_boss() {
            let u = now.upgrading->0;
            assert forall|i: int| 0 <= i < u.upgrades.len() implies !(
            #[trigger] u.upgrades@[i]).capped(was) by {
                assert(!u.upgrades@[i].capped(who));
            }
        }
    } else {
        assert(dead2 =~= dead);
        assert(dead_bosses2 =~= dead_bosses);
    }
}

/// Does the shock `s` to every enemy within `r` steps of `(cx, cy)`, at
/// `frame`, for the weapon whose score bonus is `bonus`: see `swept`. What
/// the dead leave behind is up to `rng`.
pub fn sweep(
    map: &mut Arena,
    player: &mut Player,
    cues: &mut Vec<Cue>,
    cx: i32,
    cy: i32,
    r: i32,
    frame: i32,
    s: Shock,
    bonus: Stat,
    rng: &mut StdRng,
)
    requires
        old(map).wf(),
        old(player).wf(),
        old(map).inside(cx as int, cy as int),
        0 <= r <= RADIUS_LIMIT,
        0 <= frame <= TICK_LIMIT,
        s.wf(),
        is_bonus(bonus),
    ensures
        final(map).wf(),
        final(player).wf(),
        swept(
            old(map),
            final(map),
            old(player),
            final(player),
            old(cues)@,
            final(cues)@,
            cx as int,
            cy as int,
            r as int,
            frame as int,
            s,
            bonus,
            old(map).w as int,
            0,
        ),
{
    let x_lo: i32 = max(1, cx - r);
    let x_hi: i32 = min(map.w - 2, cx + r);
    let y_lo: i32 = max(1, cy - r);
    let y_hi: i32 = min(map.h - 2, cy + r);
    let mut x: i32 = x_lo;
    proof {
        lemma_sweep_start(
            old(map),
            old(player),
            old(cues)@,
            cx as int,
            cy as int,
            r as int,
            frame as int,
            s,
            bonus,
            x as int,
            y_lo as int,
        );
    }
    while x <= x_hi
        invariant
            x_lo <= x,
            x <= x_hi + 1 || x == x_lo,
            x_lo == (if 1 > cx - r { 1 } else { cx - r }),
            x_hi == (if old(map).w - 2 < cx + r { old(map).w - 2 } else { cx + r }),
            y_lo == (if 1 > cy - r { 1 } else { cy - r }),
            y_hi == (if old(map).h - 2 < cy + r { old(map).h - 2 } else { cy + r }),
            old(map).wf(),
            old(player).wf(),
            map.wf(),
            player.wf(),
            old(map).inside(cx as int, cy as int),
            0 <= r <= RADIUS_LIMIT,
            0 <= frame <= TICK_LIMIT,
            s.wf(),
            is_bonus(bonus),
            swept(
                old(map),
                map,
                old(player),
                player,
                old(cues)@,
                cues@,
                cx as int,
                cy as int,
                r as int,
                frame as int,
                s,
                bonus,
                x as int,
                y_lo as int,
            ),
        decreases x_hi + 1 - x,
    {
        let mut y: i32 = y_lo;
        while y <= y_hi
            invariant
                x_lo <= x <= x_hi,
                y_lo <= y,
                y <= y_hi + 1 || y == y_lo,
                x_lo == (if 1 > cx - r { 1 } else { cx - r }),
                x_hi == (if old(map).w - 2 < cx + r { old(map).w - 2 } else { cx + r }),
                y_lo == (if 1 > cy - r { 1 } else { cy - r }),
                y_hi == (if old(map).h - 2 < cy + r { old(map).h - 2 } else { cy + r }),
                old(map).wf(),
                old(player).wf(),
                map.wf(),
                player.wf(),
                old(map).inside(cx as int, cy as int),
                0 <= r <= RADIUS_LIMIT,
                0 <= frame <= TICK_LIMIT,
                s.wf(),
                is_bonus(bonus),
                swept(
                    old(map),
                    map,
                    old(player),
                    player,
                    old(cues)@,
                    cues@,
                    cx as int,
                    cy as int,
                    r as int,
                    frame as int,
                    s,
                    bonus,
                    x as int,
                    y as int,
                ),
            decreases y_hi + 1 - y,
        {
            let ghost cur = *map;
            let ghost who = *player;
            let ghost heard = cues@;
            strike_cell(map, player, cues, cx, cy, r, frame, s, bonus, x, y, rng);
            proof {
                lemma_sweep_step_planes(
                    old(map),
                    &cur,
                    map,
                    &who,
                    player,
                    heard,
                    cues@,
                    cx as int,
                    cy as int,
                    r as int,
                    frame as int,
                    s,
                    bonus,
                    x as int,
                    y as int,
                );
                lemma_sweep_step_books(
                    old(map),
                    &cur,
                    map,
                    old(player),
                    &who,
                    player,
                    old(cues)@,
                    heard,
                    cues@,
                    cx as int,
                    cy as int,
                    r as int,
                    frame as int,
                    s,
                    bonus,
                    x as int,
                    y as int,
                );
            }
            y = y + 1;
        }
        proof {
            lemma_sweep_shift(
                old(map),
                map,
                old(player),
                player,
                old(cues)@,
                cues@,
                cx as int,
                cy as int,
                r as int,
                frame as int,
                s,
                bonus,
                x as int,
                y as int,
                x + 1,
                y_lo as int,
            );
        }
        x = x + 1;
    }
    proof {
        lemma_sweep_shift(
            old(map),
            map,
            old(player),
            player,
            old(cues)@,
            cues@,
            cx as int,
            cy as int,
            r as int,
            frame as int,
            s,
            bonus,
            x as int,
            y_lo as int,
            old(map).w as int,
            0,
        );
    }
}

} // verus!
