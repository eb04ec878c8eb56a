//! One run of the game: the tick, which runs every system in its turn, the
//! handling of the action keys, and the end of the run.

use crate::arena::{Arena, Boss};
use crate::bomb::{bomb_checked, bomb_of, bomb_ready, bombs_updated, check_bomb, update_bombs};
use crate::bullet::{
    bullets_flown, bullets_resolved, check_bullets, check_shot, shot_checked, update_bullets,
};
use crate::chest::{chest_scattered, expire_chest, head_cleared, spawn_random_chest};
use crate::combat::{lemma_scored_twice, scored};
use crate::emp::{
    check_emp, emp_checked, emp_of, emp_ready, expire_emps, lasting_left, records_kept,
};
use crate::enemy::{
    enemies_updated, hp_for, lemma_herded_keeps_size, spawn_boss, spawn_enemy, spawn_hp,
    update_enemies, zombie_scattered, Enemy,
};
use crate::input::{Hotkey, Nav};
use crate::mapgen::BuildError;
use crate::player::{lemma_wf_carries, Character, Player};
use crate::sound::{Cue, Sound};
use crate::stat::{lemma_slots_differ, Stat, COUNT_LIMIT, TICK_LIMIT};
use crate::storage::{changes_record, settled_highscore, settled_states, Storage};
use crate::turret::{
    check_turret, turret_checked, turret_ready, turrets_updated, update_turrets,
};
use crate::upgrading::Upgrading;
use crate::util::{clamp, manhattan, Position};
use crate::walk::{make_moves, moves_made};
use rand::rngs::StdRng;
use vstd::prelude::*;

verus! {

/// Food that one tick costs; twice as much while the player runs.
pub const TICK_COST: i32 = 85;

/// Ticks between two random chests.
pub const CHEST_PERIOD: i32 = 30;

/// Ticks between two zombies, and between two points for staying alive.
pub const ENEMY_PERIOD: i32 = 60;

/// Score at which the first boss appears.
pub const BOSS_THRESHOLD: i32 = 200;

/// Score between two bosses.
pub const BOSS_STEP: i32 = 400;

/// Hit points of the first boss.
pub const BOSS_HP: i32 = 3;

/// Score between two rises of the enemies' hit points.
pub const HP_STEP: i32 = 1000;

/// One run of the game.
#[derive(Debug)]
pub struct Playing {
    pub frame: i32,
    pub map: Arena,
    pub player: Player,
    pub movement: Vec<u32>,
}

/// The action keys that are held down while they matter.
#[derive(Clone, Copy, Debug, PartialEq, Eq, Structural)]
pub struct Held {
    pub shoot: bool,
    pub turret: bool,
}

/// How the run stands after a tick.
#[derive(Clone, Copy, Debug, PartialEq, Eq, Structural)]
pub enum Signal {
    /// The run goes on.
    Continue,
    /// The run waits for the player to pick an upgrade.
    Pause,
    /// The player is dead.
    Terminate,
}

/// What a tick tells the caller: how the run stands, and whether the
/// persistent record changed and has to be saved.
#[derive(Clone, Copy, Debug, PartialEq, Eq, Structural)]
pub struct Outcome {
    pub signal: Signal,
    pub save: bool,
}

/// Whether the arena and the player fit together between two systems: both
/// are consistent, the player stands on an interior cell, and every bullet
/// is on an interior cell.
pub open spec fn fit(map: &Arena, player: &Player) -> bool {
    &&& map.wf()
    &&& player.wf()
    &&& map.hosts(player)
    &&& map.bullets_settled()
}

/// Whether the cues `before` are the first of the cues `after`.
pub open spec fn heard_on(before: Seq<Cue>, after: Seq<Cue>) -> bool {
    before.len() <= after.len() && after.subrange(0, before.len() as int) == before
}

/// Hearing on after hearing on is hearing on.
pub proof fn lemma_heard_on_twice(a: Seq<Cue>, b: Seq<Cue>, c: Seq<Cue>)
    requires
        heard_on(a, b),
        heard_on(b, c),
    ensures
        heard_on(a, c),
{
    assert(c.subrange(0, a.len() as int) =~= a) by {
        assert forall|k: int| 0 <= k < a.len() implies c[k] == a[k] by {
            assert(c.subrange(0, b.len() as int)[k] == c[k]);
            assert(b.subrange(0, a.len() as int)[k] == b[k]);
        }
    }
}

/// Food that one tick costs the player `p`.
pub open spec fn tick_cost(p: &Player) -> int {
    if p.running {
        2 * TICK_COST
    } else {
        TICK_COST as int
    }
}

/// Whether a boss is due: the score has reached the threshold of the next
/// boss, and no boss is alive.
pub open spec fn boss_due(player: &Player, map: &Arena) -> bool {
    player.stat(Stat::Score) >= BOSS_THRESHOLD + BOSS_STEP * map.boss.nth && map.boss.pos is None
}

/// Hit points of the boss that appears after `nth` others: three and one
/// more for each, up to the most a signed byte holds.
pub open spec fn boss_hp(nth: int) -> int {
    if BOSS_HP + nth > 127 {
        127
    } else {
        BOSS_HP + nth
    }
}

/// Whether an enemy stands on one of the four cells next to `(x, y)`.
pub open spec fn touched(map: &Arena, x: int, y: int) -> bool {
    map.enemy_at(x - 1, y) is Some || map.enemy_at(x + 1, y) is Some || map.enemy_at(x, y - 1) is Some
        || map.enemy_at(x, y + 1) is Some
}

/// Whether an enemy stands on one of the four cells next to the player.
pub fn is_touched(map: &Arena, player: &Player) -> (b: bool)
    requires
        map.wf(),
        map.hosts(player),
    ensures
        b == touched(map, player.x as int, player.y as int),
{
    let (px, py) = (player.x, player.y);
    map.enemy(px - 1, py).is_some() || map.enemy(px + 1, py).is_some() || map.enemy(
        px,
        py - 1,
    ).is_some() || map.enemy(px, py + 1).is_some()
}

/// Sets the full hit points of every enemy to `mhp`.
pub fn rescale_enemies(map: &mut Arena, mhp: i8)
    requires
        old(map).wf(),
        1 <= mhp,
    ensures
        final(map).wf(),
        final(map).same_things(old(map)),
        final(map).tiles == old(map).tiles,
        final(map).pass == old(map).pass,
        forall|x: int, y: int|
            old(map).inside(x, y) ==> #[trigger] final(map).enemy_at(x, y) == (match old(map).enemy_at(x, y) {
                Some(e) => Some(Enemy { mhp, ..e }),
                None => None,
            }),
{
    let mut x: i32 = 1;
    while x < map.w - 1
        invariant
            1 <= x,
            1 <= mhp,
            old(map).wf(),
            map.wf(),
            map.same_things(old(map)),
            map.tiles == old(map).tiles,
            map.pass == old(map).pass,
            forall|x2: int, y2: int|
                old(map).inside(x2, y2) ==> #[trigger] map.enemy_at(x2, y2) == (if x2 < x {
                    match old(map).enemy_at(x2, y2) {
                        Some(e) => Some(Enemy { mhp, ..e }),
                        None => None,
                    }
                } else {
                    old(map).enemy_at(x2, y2)
                }),
        decreases map.w - x,
    {
        let mut y: i32 = 1;
        while y < map.h - 1
            invariant
                1 <= x < map.w - 1,
                1 <= y,
                1 <= mhp,
                old(map).wf(),
                map.wf(),
                map.same_things(old(map)),
                map.tiles == old(map).tiles,
                map.pass == old(map).pass,
                forall|x2: int, y2: int|
                    old(map).inside(x2, y2) ==> #[trigger] map.enemy_at(x2, y2) == (if x2 < x || (x2
                        == x && y2 < y) {
                        match old(map).enemy_at(x2, y2) {
                            Some(e) => Some(Enemy { mhp, ..e }),
                            None => None,
                        }
                    } else {
                        old(map).enemy_at(x2, y2)
                    }),
            decreases map.h - y,
        {
            match map.enemy(x, y) {
                Some(e) => {
                    assert(e.wf());
                    map.replace_enemy(x, y, Enemy { mhp, ..e });
                },
                None => {},
            }
            y = y + 1;
        }
        proof {
            assert forall|x2: int, y2: int| old(map).inside(x2, y2) implies #[trigger] map.enemy_at(
                x2,
                y2,
            ) == (if x2 < x + 1 {
                match old(map).enemy_at(x2, y2) {
                    Some(e) => Some(Enemy { mhp, ..e }),
                    None => None,
                }
            } else {
                old(map).enemy_at(x2, y2)
            }) by {
                if x2 == x && !(y2 < y) {
                    assert(old(map).enemy_at(x2, y2) is None);
                }
            }
        }
        x = x + 1;
    }
    proof {
        assert forall|x2: int, y2: int| old(map).inside(x2, y2) implies #[trigger] map.enemy_at(
            x2,
            y2,
        ) == (match old(map).enemy_at(x2, y2) {
            Some(e) => Some(Enemy { mhp, ..e }),
            None => None,
        }) by {
            if !(x2 < x) {
                assert(old(map).enemy_at(x2, y2) is None);
            }
        }
    }
}

/// Whether the state after is the state before with the boss called at
/// `frame`: if `came`, a boss was due (see `boss_due`) and stands on a cell
/// that could be entered, with `boss_hp` hit points, and the tracker counts
/// it and notes its cell and the tick; if not, nothing changed.
pub open spec fn boss_called(
    before: &Arena,
    player: &Player,
    heard: Seq<Cue>,
    frame: i32,
    after: &Arena,
    heard_after: Seq<Cue>,
    came: bool,
) -> bool {
    &&& after.wf()
    &&& came ==> boss_due(player, before)
    &&& before.spawned >= COUNT_LIMIT ==> !came
    &&& !came ==> *after == *before && heard_after == heard
    &&& came ==> {
        &&& heard_after == heard.push(Cue::flat(Sound::BossAppear, 50))
        &&& after.boss.nth == clamp(before.boss.nth + 1, 0, COUNT_LIMIT as int)
        &&& after.boss.resp == Some(frame)
        &&& after.boss.pos is Some
        &&& before.pass_at(after.boss.pos->0.x as int, after.boss.pos->0.y as int)
        &&& after.enemy_at(
            after.boss.pos->0.x as int,
            after.boss.pos->0.y as int,
        ) == Some(
            Enemy::boss(before.spawned as int, boss_hp(before.boss.nth as int), frame as int),
        )
        &&& after.enemies_but(
            before,
            after.boss.pos->0.x as int,
            after.boss.pos->0.y as int,
        )
        &&& after.pass_but(
            before,
            after.boss.pos->0.x as int,
            after.boss.pos->0.y as int,
        )
        &&& after.tiles == before.tiles
        &&& after.bullets == before.bullets
        &&& after.bombs == before.bombs
        &&& after.turrets == before.turrets
        &&& after.emps == before.emps
        &&& after.chests == before.chests
        &&& after.spawned == before.spawned + 1
        &&& after.w == before.w
        &&& after.h == before.h
    }
}

/// Lets the boss appear at `frame` if one is due (see `boss_due`): it is
/// spawned with `boss_hp` hit points, and the tracker counts it and notes
/// its cell and the tick. If it finds no cell, nothing changes. Returns
/// whether a boss appeared.
pub fn call_boss(
    map: &mut Arena,
    player: &Player,
    cues: &mut Vec<Cue>,
    frame: i32,
    rng: &mut StdRng,
) -> (came: bool)
    requires
        old(map).wf(),
        player.wf(),
        old(map).hosts(player),
        0 <= frame <= TICK_LIMIT,
    ensures
        boss_called(
            old(map),
            player,
            old(cues)@,
            frame,
            final(map),
            final(cues)@,
            came,
        ),
{
    if !is_boss_due(player, map) {
        return false;
    }
    let hp: i8 = next_boss_hp(map.boss.nth);
    match spawn_boss(map, player, cues, frame, hp, rng) {
        Some(c) => {
            note_boss(map, c, frame);
            true
        },
        None => false,
    }
}

/// Whether a boss is due: see `boss_due`.
pub fn is_boss_due(player: &Player, map: &Arena) -> (due: bool)
    requires
        player.wf(),
        map.wf(),
    ensures
        due == boss_due(player, map),
{
    proof {
        assert(Stat::Score.least() <= player.stat(Stat::Score) <= Stat::Score.most());
    }
    player.get(Stat::Score) as i64 >= BOSS_THRESHOLD as i64 + BOSS_STEP as i64 * map.boss.nth as i64
        && map.boss.pos.is_none()
}

/// Hit points of the boss that appears after `nth` others: see `boss_hp`.
pub fn next_boss_hp(nth: i32) -> (hp: i8)
    requires
        0 <= nth,
    ensures
        hp == boss_hp(nth as int),
        1 <= hp,
{
    if nth >= 124 {
        127
    } else {
        (BOSS_HP + nth) as i8
    }
}

/// Notes in the tracker that a boss appeared on the cell `cell` at `frame`:
/// the tracker counts it, up to `COUNT_LIMIT`, and holds its cell and the
/// tick. Nothing else changes.
pub fn note_boss(map: &mut Arena, cell: (i32, i32), frame: i32)
    requires
        old(map).wf(),
        old(map).inside(cell.0 as int, cell.1 as int),
        0 <= frame <= TICK_LIMIT,
    ensures
        final(map).wf(),
        final(map).boss == (Boss {
            nth: clamp(old(map).boss.nth + 1, 0, COUNT_LIMIT as int) as i32,
            resp: Some(frame),
            pos: Some(Position { x: cell.0, y: cell.1 }),
        }),
        final(map).tiles == old(map).tiles,
        final(map).pass == old(map).pass,
        final(map).enemies == old(map).enemies,
        final(map).bullets == old(map).bullets,
        final(map).bombs == old(map).bombs,
        final(map).turrets == old(map).turrets,
        final(map).emps == old(map).emps,
        final(map).chests == old(map).chests,
        final(map).spawned == old(map).spawned,
        final(map).w == old(map).w,
        final(map).h == old(map).h,
{
    let nth: i32 = map.boss.nth;
    map.boss = Boss {
        nth: if nth < COUNT_LIMIT { nth + 1 } else { nth },
        resp: Some(frame),
        pos: Some(Position { x: cell.0, y: cell.1 }),
    };
}

/// Whether the state after is the state before with the first part of a
/// tick done, by way of the state `(m, p, c)` after the shot: the player
/// shoots if the shot key is held (see `shot_checked`), and steps if neither
/// the shot key nor the turret key is (see `moves_made`).
pub open spec fn acted_via(
    before: &Arena,
    was: &Player,
    heard: Seq<Cue>,
    keys: &Vec<u32>,
    storage: &Storage,
    held: Held,
    frame: i32,
    m: &Arena,
    p: &Player,
    c: Seq<Cue>,
    fired: bool,
    after: &Arena,
    now: &Player,
    heard_after: Seq<Cue>,
) -> bool {
    &&& if held.shoot {
        shot_checked(keys, was, before, storage, heard, frame, p, m, c, fired)
    } else {
        *m == *before && *p == *was && c == heard
    }
    &&& if !held.shoot && !held.turret {
        moves_made(p, keys, m, storage, c, frame, now, after, heard_after)
    } else {
        *after == *m && *now == *p && heard_after == c
    }
}

/// Whether the state after is the state before with the first part of a
/// tick done: see `acted_via`.
pub open spec fn player_acted(
    before: &Arena,
    was: &Player,
    heard: Seq<Cue>,
    keys: &Vec<u32>,
    storage: &Storage,
    held: Held,
    frame: i32,
    after: &Arena,
    now: &Player,
    heard_after: Seq<Cue>,
) -> bool {
    exists|m: Arena, p: Player, c: Seq<Cue>, fired: bool| #[trigger]
        acted_via(
            before,
            was,
            heard,
            keys,
            storage,
            held,
            frame,
            &m,
            &p,
            c,
            fired,
            after,
            now,
            heard_after,
        )
}

/// Whether the state after is the state before with the second part of a
/// tick done, by way of the states after the turrets, after the flight of
/// the bullets and after their check: the turrets have their tick (see
/// `turrets_updated`), the bullets fly (see `bullets_flown`) and are
/// checked (see `bullets_resolved`), and the bombs have their tick (see
/// `bombs_updated`).
pub open spec fn weapons_via(
    before: &Arena,
    was: &Player,
    heard: Seq<Cue>,
    frame: i32,
    m1: &Arena,
    c1: Seq<Cue>,
    m2: &Arena,
    m3: &Arena,
    who3: &Player,
    c3: Seq<Cue>,
    after: &Arena,
    now: &Player,
    heard_after: Seq<Cue>,
) -> bool {
    &&& turrets_updated(before, was, heard, frame, m1, c1)
    &&& bullets_flown(m1, frame, m2)
    &&& bullets_resolved(m2, was, c1, frame, m3, who3, c3)
    &&& bombs_updated(m3, who3, c3, frame, after, now, heard_after)
}

/// Whether the state after is the state before with the second part of a
/// tick done: see `weapons_via`.
pub open spec fn weapons_ran(
    before: &Arena,
    was: &Player,
    heard: Seq<Cue>,
    frame: i32,
    after: &Arena,
    now: &Player,
    heard_after: Seq<Cue>,
) -> bool {
    exists|m1: Arena, c1: Seq<Cue>, m2: Arena, m3: Arena, who3: Player, c3: Seq<Cue>| #[trigger]
        weapons_via(before, was, heard, frame, &m1, c1, &m2, &m3, &who3, c3, after, now, heard_after)
}

/// Whether the player `now` is the player `was` with one point for staying
/// alive, up to the most the score holds.
pub open spec fn point_gained(was: &Player, now: &Player) -> bool {
    &&& now.stats@ == was.stats@.update(
        Stat::Score.slot(),
        clamp(was.stat(Stat::Score) + 1, Stat::Score.least(), Stat::Score.most()) as i32,
    )
    &&& now.same_but_stats(was)
}

/// Whether the state after is the state before with the third part of a
/// tick done, by way of the arena `m1` after the chest and the arena `m2`
/// after the zombie: every `CHEST_PERIOD` ticks a random chest is spawned
/// (see `chest_scattered`); every `ENEMY_PERIOD` ticks the player gains a
/// point and a zombie is spawned (see `zombie_scattered`); and the boss is
/// called (see `boss_called`).
pub open spec fn spawned_via(
    before: &Arena,
    was: &Player,
    heard: Seq<Cue>,
    frame: i32,
    m1: &Arena,
    chest: bool,
    m2: &Arena,
    zombie: bool,
    came: bool,
    after: &Arena,
    now: &Player,
    heard_after: Seq<Cue>,
) -> bool {
    &&& if frame % CHEST_PERIOD == 0 {
        chest_scattered(before, was, frame, m1, chest)
    } else {
        *m1 == *before
    }
    &&& if frame % ENEMY_PERIOD == 0 {
        point_gained(was, now) && zombie_scattered(m1, now, m2, zombie)
    } else {
        *now == *was && *m2 == *m1
    }
    &&& boss_called(m2, now, heard, frame, after, heard_after, came)
}

/// Whether the state after is the state before with the third part of a
/// tick done: see `spawned_via`.
pub open spec fn spawns_done(
    before: &Arena,
    was: &Player,
    heard: Seq<Cue>,
    frame: i32,
    after: &Arena,
    now: &Player,
    heard_after: Seq<Cue>,
) -> bool {
    exists|m1: Arena, chest: bool, m2: Arena, zombie: bool, came: bool| #[trigger]
        spawned_via(before, was, heard, frame, &m1, chest, &m2, zombie, came, after, now, heard_after)
}

/// Whether the state after is the state before with the fourth part of a
/// tick done, by way of the state `(m, c)` after the enemies' turns: the
/// enemies around the player have their turns (see `enemies_updated`), and
/// the bullets are checked once more (see `bullets_resolved`).
pub open spec fn enemies_via(
    before: &Arena,
    was: &Player,
    heard: Seq<Cue>,
    frame: i32,
    m: &Arena,
    c: Seq<Cue>,
    after: &Arena,
    now: &Player,
    heard_after: Seq<Cue>,
) -> bool {
    &&& enemies_updated(before, was, heard, frame, m, c)
    &&& bullets_resolved(m, was, c, frame, after, now, heard_after)
}

/// Whether the state after is the state before with the fourth part of a
/// tick done: see `enemies_via`.
pub open spec fn enemies_ran(
    before: &Arena,
    was: &Player,
    heard: Seq<Cue>,
    frame: i32,
    after: &Arena,
    now: &Player,
    heard_after: Seq<Cue>,
) -> bool {
    exists|m: Arena, c: Seq<Cue>| #[trigger]
        enemies_via(before, was, heard, frame, &m, c, after, now, heard_after)
}

/// First part of a tick: the player shoots if the shot key is held, and
/// steps if neither the shot key nor the turret key is.
fn act_phase(
    map: &mut Arena,
    player: &mut Player,
    movement: &Vec<u32>,
    storage: &Storage,
    held: Held,
    cues: &mut Vec<Cue>,
    frame: i32,
    rng: &mut StdRng,
)
    requires
        fit(old(map), old(player)),
        storage.wf(),
        0 <= frame <= TICK_LIMIT,
    ensures
        fit(final(map), final(player)),
        heard_on(old(cues)@, final(cues)@),
        final(player).dead == old(player).dead,
        final(player).paused == old(player).paused,
        final(player).progress.killed == old(player).progress.killed,
        final(player).stat(Stat::Score) == old(player).stat(Stat::Score),
        final(player).upgrades == old(player).upgrades,
        final(player).running == old(player).running,
        manhattan(
            final(player).x as int,
            final(player).y as int,
            old(player).x as int,
            old(player).y as int,
        ) <= 1,
        held.shoot || held.turret ==> final(player).x == old(player).x && final(player).y
            == old(player).y,
        final(map).boss == old(map).boss,
        player_acted(
            old(map),
            old(player),
            old(cues)@,
            movement,
            storage,
            held,
            frame,
            final(map),
            final(player),
            final(cues)@,
        ),
{
    let ghost c0 = cues@;
    proof {
        assert(c0.subrange(0, c0.len() as int) =~= c0);
        lemma_slots_differ(Stat::Score, Stat::LastShot);
        lemma_slots_differ(Stat::Score, Stat::Ammo);
        lemma_slots_differ(Stat::Score, Stat::Score);
    }
    let mut fired: bool = false;
    if held.shoot {
        fired = check_shot(movement, player, map, storage, cues, frame, rng);
    }
    let ghost c1 = cues@;
    let ghost shot = *player;
    let ghost shot_map = *map;
    proof {
        assert(c1.subrange(0, c0.len() as int) =~= c0);
        assert(shot.stat(Stat::Score) == old(player).stat(Stat::Score));
    }
    if !held.shoot && !held.turret {
        make_moves(player, movement, map, storage, cues, frame);
        proof {
            assert(map.bullets == old(map).bullets && map.w == old(map).w && map.h == old(map).h);
        }
    }
    proof {
        assert(cues@.subrange(0, c1.len() as int) =~= c1);
        lemma_heard_on_twice(c0, c1, cues@);
        assert(acted_via(
            old(map),
            old(player),
            c0,
            movement,
            storage,
            held,
            frame,
            &shot_map,
            &shot,
            c1,
            fired,
            map,
            player,
            cues@,
        ));
    }
}

/// Second part of a tick: turrets, bullets and bombs.
fn weapons_phase(
    map: &mut Arena,
    player: &mut Player,
    cues: &mut Vec<Cue>,
    frame: i32,
    rng: &mut StdRng,
)
    requires
        fit(old(map), old(player)),
        0 <= frame <= TICK_LIMIT,
    ensures
        fit(final(map), final(player)),
        heard_on(old(cues)@, final(cues)@),
        old(player).dead ==> final(player).dead,
        old(player).paused ==> final(player).paused,
        scored(old(player), final(player)),
        final(map).boss.nth == old(map).boss.nth,
        final(map).boss.resp == old(map).boss.resp,
        weapons_ran(
            old(map),
            old(player),
            old(cues)@,
            frame,
            final(map),
            final(player),
            final(cues)@,
        ),
{
    let ghost c0 = cues@;
    update_turrets(map, player, cues, frame);
    let ghost c1 = cues@;
    let ghost m1 = *map;
    update_bullets(map, frame);
    let ghost m2 = *map;
    check_bullets(map, player, cues, frame, rng);
    let ghost c2 = cues@;
    let ghost shot = *player;
    let ghost m3 = *map;
    update_bombs(map, player, cues, frame, rng);
    proof {
        lemma_heard_on_twice(c0, c1, c2);
        lemma_heard_on_twice(c0, c2, cues@);
        lemma_scored_twice(old(player), &shot, player);
        assert(weapons_via(
            old(map),
            old(player),
            c0,
            frame,
            &m1,
            c1,
            &m2,
            &m3,
            &shot,
            c2,
            map,
            player,
            cues@,
        ));
    }
}

/// Third part of a tick: a random chest every `CHEST_PERIOD` ticks; a point
/// and a zombie every `ENEMY_PERIOD` ticks; and the boss when it is due.
fn spawn_phase(
    map: &mut Arena,
    player: &mut Player,
    cues: &mut Vec<Cue>,
    frame: i32,
    rng: &mut StdRng,
)
    requires
        fit(old(map), old(player)),
        0 <= frame <= TICK_LIMIT,
    ensures
        fit(final(map), final(player)),
        heard_on(old(cues)@, final(cues)@),
        final(player).dead == old(player).dead,
        final(player).paused == old(player).paused,
        final(player).upgrading == old(player).upgrading,
        scored(old(player), final(player)),
        final(player).progress.killed == old(player).progress.killed,
        final(player).stat(Stat::Score) == (if frame % ENEMY_PERIOD == 0 {
            clamp(old(player).stat(Stat::Score) + 1, 0, COUNT_LIMIT as int)
        } else {
            old(player).stat(Stat::Score)
        }),
        final(map).boss == old(map).boss || (boss_due(final(player), old(map)) && final(map).boss.nth
            == clamp(old(map).boss.nth + 1, 0, COUNT_LIMIT as int) && final(map).boss.resp == Some(
            frame,
        ) && final(map).boss.pos is Some),
        spawns_done(
            old(map),
            old(player),
            old(cues)@,
            frame,
            final(map),
            final(player),
            final(cues)@,
        ),
{
    proof {
        assert(cues@.subrange(0, cues@.len() as int) =~= cues@);
        assert(Stat::Score.least() <= player.stat(Stat::Score) <= Stat::Score.most());
        lemma_slots_differ(Stat::Score, Stat::Score);
        assert(player.stats@ =~= player.stats@.update(
            Stat::Score.slot(),
            player.stat(Stat::Score) as i32,
        ));
    }
    let mut chest: bool = false;
    if frame % CHEST_PERIOD == 0 {
        chest = spawn_random_chest(map, player, frame, rng);
    }
    let ghost m1 = *map;
    let mut zombie: bool = false;
    if frame % ENEMY_PERIOD == 0 {
        player.gain(Stat::Score, 1);
        zombie = spawn_enemy(map, player, rng);
    }
    let ghost m2 = *map;
    let came: bool = call_boss(map, player, cues, frame, rng);
    proof {
        assert(cues@.subrange(0, old(cues)@.len() as int) =~= old(cues)@);
        assert(spawned_via(
            old(map),
            old(player),
            old(cues)@,
            frame,
            &m1,
            chest,
            &m2,
            zombie,
            came,
            map,
            player,
            cues@,
        ));
    }
}

/// Fourth part of a tick: the enemies act, and the bullets are checked
/// once more.
fn enemy_phase(
    map: &mut Arena,
    player: &mut Player,
    cues: &mut Vec<Cue>,
    frame: i32,
    rng: &mut StdRng,
)
    requires
        fit(old(map), old(player)),
        0 <= frame <= TICK_LIMIT,
    ensures
        fit(final(map), final(player)),
        heard_on(old(cues)@, final(cues)@),
        final(player).dead == old(player).dead,
        old(player).paused ==> final(player).paused,
        scored(old(player), final(player)),
        final(map).boss.nth == old(map).boss.nth,
        final(map).boss.resp == old(map).boss.resp,
        enemies_ran(
            old(map),
            old(player),
            old(cues)@,
            frame,
            final(map),
            final(player),
            final(cues)@,
        ),
{
    let ghost c0 = cues@;
    update_enemies(map, player, cues, frame, rng);
    let ghost c1 = cues@;
    let ghost m1 = *map;
    proof {
        lemma_herded_keeps_size(old(map), map);
    }
    check_bullets(map, player, cues, frame, rng);
    proof {
        lemma_heard_on_twice(c0, c1, cues@);
        assert(enemies_via(old(map), old(player), c0, frame, &m1, c1, map, player, cues@));
    }
}

/// Whether the score `score` lies in another thousand than `score_before`,
/// so that the enemies' full hit points have to follow it.
pub open spec fn crossed(score_before: int, score: int) -> bool {
    score_before / (HP_STEP as int) != score / (HP_STEP as int)
}

/// The enemy slot `slot` after the full hit points were set to `mhp`.
pub open spec fn rescaled(slot: Option<Enemy>, mhp: int) -> Option<Enemy> {
    match slot {
        Some(e) => Some(Enemy { mhp: mhp as i8, ..e }),
        None => None,
    }
}

/// Whether the arena `after` is `before` with the end of a tick cleaned up
/// at `frame`, for a player whose score was `score_before` when the tick
/// began: the chest at the head of the queue is cleared if it has expired
/// (see `head_cleared`); the pulse records left are those still to be drawn
/// (see `records_kept`); every enemy has the full hit points that follow the
/// score, if the score crossed a thousand, and is as it was otherwise; and
/// nothing else differs.
pub open spec fn cleaned_up(
    before: &Arena,
    player: &Player,
    frame: i32,
    score_before: i32,
    after: &Arena,
) -> bool {
    &&& fit(after, player)
    &&& head_cleared(before, after, frame as int)
    &&& records_kept(before.emps@, after.emps@, frame as int)
    &&& after.emps@ == lasting_left(before.emps@, 0, frame as int)
    &&& forall|x: int, y: int|
        before.inside(x, y) ==> #[trigger] after.enemy_at(x, y) == (if crossed(
            score_before as int,
            player.stat(Stat::Score),
        ) {
            rescaled(before.enemy_at(x, y), spawn_hp(player.stat(Stat::Score)))
        } else {
            before.enemy_at(x, y)
        })
    &&& after.bullets == before.bullets
    &&& after.bombs == before.bombs
    &&& after.turrets == before.turrets
    &&& after.boss == before.boss
    &&& after.spawned == before.spawned
    &&& after.w == before.w
    &&& after.h == before.h
}

/// Fifth part of a tick: the oldest chest and the old pulse records expire,
/// and the enemies' full hit points follow the score if it crossed a
/// thousand since `score_before`.
///
/// The chest at the head of the queue is cleared if it has expired (see
/// `head_cleared`); the pulse records left are those still to be drawn (see
/// `records_kept`); every enemy has the full hit points that follow the
/// score, if the score crossed a thousand, and is as it was otherwise; and
/// nothing else differs.
fn cleanup_phase(map: &mut Arena, player: &Player, frame: i32, score_before: i32)
    requires
        fit(old(map), player),
        0 <= frame <= TICK_LIMIT,
        0 <= score_before,
    ensures
        cleaned_up(
            old(map),
            player,
            frame,
            score_before,
            final(map),
        ),
{
    proof {
        assert(Stat::Score.least() <= player.stat(Stat::Score) <= Stat::Score.most());
    }
    expire_chest(map, frame);
    let ghost cleared = *map;
    expire_emps(map, frame);
    let ghost kept = *map;
    if score_before / HP_STEP != player.get(Stat::Score) / HP_STEP {
        rescale_enemies(map, hp_for(player.get(Stat::Score)));
    }
    proof {
        assert(kept.tiles == cleared.tiles && kept.pass == cleared.pass && kept.chests
            == cleared.chests);
        assert(map.tiles == cleared.tiles && map.pass == cleared.pass && map.chests
            == cleared.chests);
        assert(map.emps == kept.emps);
    }
}

/// Whether the state after is the state before with the end of a tick
/// settled, and `out` is what the tick tells the caller: the tick costs
/// food, twice as much while the player runs; the player dies of hunger or
/// of an enemy next to it; and the end of the run is settled.
pub open spec fn tick_ended(
    map: &Arena,
    was: &Player,
    kept: &Storage,
    heard: Seq<Cue>,
    now: &Player,
    kept_after: &Storage,
    heard_after: Seq<Cue>,
    out: Outcome,
) -> bool {
    &&& fit(map, now)
    &&& kept_after.wf()
    &&& kept_after.hotkeys == kept.hotkeys
    &&& now.stats@ == was.stats@.update(
        Stat::Food.slot(),
        clamp(
            was.stat(Stat::Food) - tick_cost(was),
            Stat::Food.least(),
            Stat::Food.most(),
        ) as i32,
    )
    &&& now.dead == (was.dead || now.stat(Stat::Food) <= 0 || touched(
        map,
        was.x as int,
        was.y as int,
    ))
    &&& now.paused == (was.paused || now.dead)
    &&& now.x == was.x
    &&& now.y == was.y
    &&& now.progress == was.progress
    &&& now.running == was.running
    &&& now.upgrading == was.upgrading
    &&& now.upgrades == was.upgrades
    &&& out.signal == (if now.dead {
        Signal::Terminate
    } else if now.paused {
        Signal::Pause
    } else {
        Signal::Continue
    })
    &&& if now.dead {
        &&& heard_after == heard.push(Cue::flat(Sound::Defeat, 50))
        &&& kept_after.highscore == settled_highscore(
            kept.highscore as int,
            now.stat(Stat::Score),
        )
        &&& kept_after.achievements@ == settled_states(
            kept.achievements@,
            now.stat(Stat::Score),
            now.progress.killed as int,
            now.progress.used@,
        )
        &&& out.save == changes_record(
            kept.achievements@,
            kept.highscore as int,
            now.stat(Stat::Score),
            now.progress.killed as int,
            now.progress.used@,
        )
    } else {
        &&& heard_after == heard
        &&& *kept_after == *kept
        &&& !out.save
    }
}

/// Last part of a tick: the tick costs food, twice as much while the player
/// runs; the player dies of hunger or
/// of an enemy next to it; and the end of the run is settled. Returns what
/// the tick tells the caller.
pub fn end_phase(map: &Arena, player: &mut Player, storage: &mut Storage, cues: &mut Vec<Cue>) -> (out:
    Outcome)
    requires
        fit(map, old(player)),
        old(storage).wf(),
    ensures
        tick_ended(
            map,
            old(player),
            old(storage),
            old(cues)@,
            final(player),
            final(storage),
            final(cues)@,
            out,
        ),
{
    let hit: bool = is_touched(map, player);
    let cost: i32 = if player.running { 2 * TICK_COST } else { TICK_COST };
    player.gain(Stat::Food, -cost);
    let ghost fed = *player;
    proof {
        lemma_slots_differ(Stat::Food, Stat::Score);
        lemma_slots_differ(Stat::Food, Stat::Food);
    }
    if hit || player.get(Stat::Food) <= 0 {
        player.dead = true;
    }
    let mut save: bool = false;
    if player.dead {
        cues.push(Cue { sound: Sound::Defeat, level: 50, near: 0, dist: 0 });
        player.paused = true;
        let score: i32 = player.get(Stat::Score);
        let killed: i32 = player.progress.killed;
        let used: [i32; 4] = player.progress.used;
        save = storage.settle(score, killed, &used);
    }
    proof {
        lemma_wf_carries(&fed, player);
    }
    let signal = if player.dead {
        Signal::Terminate
    } else if player.paused {
        Signal::Pause
    } else {
        Signal::Continue
    };
    Outcome { signal, save }
}

/// Whether the list `keys` holds the key `key`.
pub fn has_key(keys: &Vec<u32>, key: u32) -> (b: bool)
    ensures
        b == keys@.contains(key),
{
    let mut i: usize = 0;
    while i < keys.len()
        invariant
            i <= keys.len(),
            forall|k: int| 0 <= k < i ==> keys@[k] != key,
        decreases keys.len() - i,
    {
        if keys[i] == key {
            return true;
        }
        i = i + 1;
    }
    false
}

/// Whether the key `key` is bound to one of the four movements.
pub open spec fn steers(key: u32, hotkeys: Seq<u32>) -> bool {
    key == hotkeys[Hotkey::Up.slot()] || key == hotkeys[Hotkey::Right.slot()] || key
        == hotkeys[Hotkey::Down.slot()] || key == hotkeys[Hotkey::Left.slot()]
}

/// Whether `j` is the first position of the key `key` among `keys`.
pub open spec fn first_at(keys: Seq<u32>, key: u32, j: int) -> bool {
    0 <= j < keys.len() && keys[j] == key && forall|k: int| 0 <= k < j ==> keys[k] != key
}

/// Whether `after` is `keys` without the first `key` among them.
pub open spec fn without(keys: Seq<u32>, key: u32, after: Seq<u32>) -> bool {
    if keys.contains(key) {
        exists|j: int| #[trigger] first_at(keys, key, j) && after == keys.remove(j)
    } else {
        after == keys
    }
}

/// Whether the run `after` is the run `before` with one tick passed while
/// the game runs, by way of the states after each part of the tick, and
/// `out` is what the tick tells the caller.
///
/// The parts are, in their order: the player's shot and step (see
/// `player_acted`); turrets, bullets and bombs (see `weapons_ran`); spawns
/// and the boss (see `spawns_done`); enemies, and bullets again (see
/// `enemies_ran`); expiry of chests and pulse records and the rise of hit
/// points (see `cleaned_up`); and then the tick is counted, up to
/// `TICK_LIMIT`, and its end settled (see `tick_ended`).
pub open spec fn tick_via(
    before: &Playing,
    kept: &Storage,
    heard: Seq<Cue>,
    held: Held,
    m1: &Arena,
    who1: &Player,
    c1: Seq<Cue>,
    m2: &Arena,
    who2: &Player,
    c2: Seq<Cue>,
    m3: &Arena,
    who3: &Player,
    c3: Seq<Cue>,
    m4: &Arena,
    who4: &Player,
    c4: Seq<Cue>,
    after: &Playing,
    kept_after: &Storage,
    heard_after: Seq<Cue>,
    out: Outcome,
) -> bool {
    &&& player_acted(
        &before.map,
        &before.player,
        heard,
        &before.movement,
        kept,
        held,
        before.frame,
        m1,
        who1,
        c1,
    )
    &&& weapons_ran(m1, who1, c1, before.frame, m2, who2, c2)
    &&& spawns_done(m2, who2, c2, before.frame, m3, who3, c3)
    &&& enemies_ran(m3, who3, c3, before.frame, m4, who4, c4)
    &&& cleaned_up(m4, who4, before.frame, before.player.stat(Stat::Score) as i32, &after.map)
    &&& after.frame == clamp(before.frame + 1, 0, TICK_LIMIT as int)
    &&& after.movement == before.movement
    &&& tick_ended(&after.map, who4, kept, c4, &after.player, kept_after, heard_after, out)
}

/// Whether the run `after` is the run `before` with one tick passed while
/// the game runs, and `out` is what the tick tells the caller: see
/// `tick_via`.
pub open spec fn tick_run(
    before: &Playing,
    kept: &Storage,
    heard: Seq<Cue>,
    held: Held,
    after: &Playing,
    kept_after: &Storage,
    heard_after: Seq<Cue>,
    out: Outcome,
) -> bool {
    exists|
        m1: Arena,
        who1: Player,
        c1: Seq<Cue>,
        m2: Arena,
        who2: Player,
        c2: Seq<Cue>,
        m3: Arena,
        who3: Player,
        c3: Seq<Cue>,
        m4: Arena,
        who4: Player,
        c4: Seq<Cue>,
    | #[trigger]
        tick_via(
            before,
            kept,
            heard,
            held,
            &m1,
            &who1,
            c1,
            &m2,
            &who2,
            c2,
            &m3,
            &who3,
            c3,
            &m4,
            &who4,
            c4,
            after,
            kept_after,
            heard_after,
            out,
        )
}

impl Playing {
    /// The run is consistent: arena and player fit, and the tick is in
    /// range.
    pub open spec fn wf(&self) -> bool {
        fit(&self.map, &self.player) && 0 <= self.frame <= TICK_LIMIT
    }

    /// Starts a run on the arena `map` with the character `ch`: at tick
    /// zero, with the player at the centre and no movement key held.
    pub fn start(ch: Character, map: Arena) -> (run: Playing)
        requires
            map.wf(),
            map.bullets_settled(),
        ensures
            run.wf(),
            run.frame == 0,
            run.map == map,
            run.movement@.len() == 0,
            run.player.x == map.w / 2,
            run.player.y == map.h / 2,
            forall|s: Stat| #[trigger] run.player.stat(s) == crate::player::starting(ch, s),
            !run.player.dead,
            !run.player.paused,
            !run.player.running,
            run.player.upgrading is None,
    {
        let x: i32 = map.w / 2;
        let y: i32 = map.h / 2;
        Playing { frame: 0, player: Player::new(ch, x, y), map, movement: Vec::new() }
    }

    /// Starts a run on a standard arena with the character `ch`. Fails if
    /// the arena cannot be built.
    pub fn new(ch: Character, rng: &mut StdRng) -> (r: Result<Playing, BuildError>)
        ensures
            r matches Ok(run) ==> run.wf() && run.frame == 0 && crate::mapgen::built(
                &run.map,
                crate::mapgen::STANDARD_SIDE as int,
                crate::mapgen::STANDARD_SIDE as int,
                crate::mapgen::STANDARD_ENEMIES as int,
                crate::mapgen::STANDARD_CHESTS as int,
            ) && run.player.x == 200 && run.player.y == 200 && forall|s: Stat| #[trigger]
                run.player.stat(s) == crate::player::starting(ch, s),
    {
        match Arena::new(rng) {
            Ok(map) => Ok(Playing::start(ch, map)),
            Err(e) => Err(e),
        }
    }

    /// Lets one tick pass.
    ///
    /// A run that is over stays as it is. A run that waits for an upgrade
    /// lets the session's clock tick, and takes the upgrade once one is
    /// picked: the upgrade is applied, the session closed and the game
    /// resumed. Any other run goes through the systems in their order: the
    /// player's shot and step; turrets, bullets and bombs; spawns and the
    /// boss; enemies and bullets again; expiry of chests and pulse records
    /// and the rise of hit points; and then the tick is counted and the end
    /// of the tick settled (see `end_phase`). What that makes of the run is
    /// `tick_run`. In particular the boss tracker counts at most one boss
    /// more, noting the tick, and none while the score is below the
    /// threshold of the next boss.
    pub fn update(
        &mut self,
        storage: &mut Storage,
        held: Held,
        cues: &mut Vec<Cue>,
        rng: &mut StdRng,
    ) -> (out: Outcome)
        requires
            old(self).wf(),
            old(storage).wf(),
        ensures
            final(self).wf(),
            final(storage).wf(),
            final(storage).hotkeys == old(storage).hotkeys,
            final(self).movement == old(self).movement,
            heard_on(old(cues)@, final(cues)@),
            old(self).player.dead ==> final(self).player.dead,
            if old(self).player.paused && old(self).player.dead {
                &&& *final(self) == *old(self)
                &&& *final(storage) == *old(storage)
                &&& final(cues)@ == old(cues)@
                &&& out == (Outcome { signal: Signal::Terminate, save: false })
            } else if old(self).player.paused && old(self).player.upgrading is Some {
                let u = old(self).player.upgrading->0;
                &&& final(self).map == old(self).map
                &&& final(self).frame == old(self).frame
                &&& *final(storage) == *old(storage)
                &&& final(cues)@ == old(cues)@
                &&& !out.save
                &&& final(self).player.x == old(self).player.x
                &&& final(self).player.y == old(self).player.y
                &&& final(self).player.progress == old(self).player.progress
                &&& final(self).player.running == old(self).player.running
                &&& !final(self).player.dead
                &&& match u.ret {
                    Some(r) => {
                        &&& out.signal == Signal::Continue
                        &&& !final(self).player.paused
                        &&& final(self).player.upgrading is None
                        &&& forall|s: Stat| #[trigger]
                            final(self).player.stat(s) == clamp(
                                old(self).player.stat(s) + r.delta(s),
                                s.least(),
                                s.most(),
                            )
                        &&& final(self).player.upgrades@ == old(self).player.upgrades@.update(
                            r.slot(),
                            clamp(old(self).player.tally(r.slot()) + 1, 0, COUNT_LIMIT as int) as i32,
                        )
                    },
                    None => {
                        &&& out.signal == Signal::Pause
                        &&& final(self).player.paused
                        &&& final(self).player.stats == old(self).player.stats
                        &&& final(self).player.upgrades == old(self).player.upgrades
                        &&& final(self).player.upgrading is Some
                        &&& final(self).player.upgrading->0.frame == clamp(
                            u.frame + 1,
                            0,
                            TICK_LIMIT as int,
                        )
                        &&& final(self).player.upgrading->0.ups == u.ups
                        &&& final(self).player.upgrading->0.upgrades == u.upgrades
                        &&& final(self).player.upgrading->0.ret == u.ret
                    },
                }
            } else {
                &&& tick_run(
                    old(self),
                    old(storage),
                    old(cues)@,
                    held,
                    final(self),
                    final(storage),
                    final(cues)@,
                    out,
                )
                &&& final(self).frame == clamp(old(self).frame + 1, 0, TICK_LIMIT as int)
                &&& (final(self).map.boss.nth == old(self).map.boss.nth && final(self).map.boss.resp
                    == old(self).map.boss.resp) || (final(self).map.boss.nth == clamp(
                    old(self).map.boss.nth + 1,
                    0,
                    COUNT_LIMIT as int,
                ) && final(self).map.boss.resp == Some(old(self).frame))
                &&& final(self).player.stat(Stat::Score) < BOSS_THRESHOLD + BOSS_STEP
                    * old(self).map.boss.nth ==> final(self).map.boss.nth == old(self).map.boss.nth
                    && final(self).map.boss.resp == old(self).map.boss.resp
                &&& manhattan(
                    final(self).player.x as int,
                    final(self).player.y as int,
                    old(self).player.x as int,
                    old(self).player.y as int,
                ) <= 1
                &&& held.shoot || held.turret ==> final(self).player.x == old(self).player.x
                    && final(self).player.y == old(self).player.y
                &&& final(self).player.running == old(self).player.running
                &&& final(self).player.upgrades == old(self).player.upgrades
                &&& old(self).player.progress.killed <= final(self).player.progress.killed
                &&& old(self).player.stat(Stat::Score) <= final(self).player.stat(Stat::Score)
                &&& old(self).frame % ENEMY_PERIOD == 0 ==> clamp(
                    old(self).player.stat(Stat::Score) + 1,
                    0,
                    COUNT_LIMIT as int,
                ) <= final(self).player.stat(Stat::Score)
                &&& old(self).player.paused ==> final(self).player.paused
                &&& final(self).player.dead ==> final(self).player.paused
                &&& (final(self).player.stat(Stat::Food) <= 0 || touched(
                    &final(self).map,
                    final(self).player.x as int,
                    final(self).player.y as int,
                )) ==> final(self).player.dead
                &&& out.signal == (if final(self).player.dead {
                    Signal::Terminate
                } else if final(self).player.paused {
                    Signal::Pause
                } else {
                    Signal::Continue
                })
                &&& if final(self).player.dead {
                    &&& final(cues)@.len() > 0
                    &&& final(cues)@.last() == Cue::flat(Sound::Defeat, 50)
                    &&& final(storage).highscore == settled_highscore(
                        old(storage).highscore as int,
                        final(self).player.stat(Stat::Score),
                    )
                    &&& final(storage).achievements@ == settled_states(
                        old(storage).achievements@,
                        final(self).player.stat(Stat::Score),
                        final(self).player.progress.killed as int,
                        final(self).player.progress.used@,
                    )
                    &&& out.save == changes_record(
                        old(storage).achievements@,
                        old(storage).highscore as int,
                        final(self).player.stat(Stat::Score),
                        final(self).player.progress.killed as int,
                        final(self).player.progress.used@,
                    )
                } else {
                    *final(storage) == *old(storage) && !out.save
                }
            },
    {
        proof {
            assert(cues@.subrange(0, cues@.len() as int) =~= cues@);
            assert(Stat::Score.least() <= self.player.stat(Stat::Score) <= Stat::Score.most());
        }
        if self.player.paused && self.player.dead {
            return Outcome { signal: Signal::Terminate, save: false };
        }
        if self.player.paused && self.player.upgrading.is_some() {
            let ghost before = self.player;
            let mut session: Upgrading = self.player.upgrading.take().unwrap();
            proof {
                lemma_wf_carries(&before, &self.player);
            }
            session.update();
            match session.ret {
                Some(r) => {
                    let ghost bare = self.player;
                    r.apply(&mut self.player);
                    let ghost applied = self.player;
                    self.player.paused = false;
                    proof {
                        lemma_wf_carries(&applied, &self.player);
                        assert forall|s: Stat| #[trigger]
                            self.player.stat(s) == clamp(
                                old(self).player.stat(s) + r.delta(s),
                                s.least(),
                                s.most(),
                            ) by {
                            assert(self.player.stat(s) == applied.stat(s));
                            assert(bare.stat(s) == old(self).player.stat(s));
                        }
                        assert(bare.tally(r.slot()) == old(self).player.tally(r.slot()));
                        assert(old(self).player.upgrading->0.ret == Some(r));
                    }
                    return Outcome { signal: Signal::Continue, save: false };
                },
                None => {
                    let ghost bare = self.player;
                    self.player.upgrading = Some(session);
                    proof {
                        lemma_wf_carries(&bare, &self.player);
                    }
                    return Outcome { signal: Signal::Pause, save: false };
                },
            }
        }
        let score_before: i32 = self.player.get(Stat::Score);
        let ghost c0 = cues@;
        act_phase(
            &mut self.map,
            &mut self.player,
            &self.movement,
            storage,
            held,
            cues,
            self.frame,
            rng,
        );
        let ghost c1 = cues@;
        let ghost acted = self.player;
        let ghost m1 = self.map;
        proof {
            lemma_slots_differ(Stat::Score, Stat::Score);
        }
        weapons_phase(&mut self.map, &mut self.player, cues, self.frame, rng);
        let ghost c2 = cues@;
        let ghost m2 = self.map;
        let ghost who2 = self.player;
        spawn_phase(&mut self.map, &mut self.player, cues, self.frame, rng);
        let ghost c3 = cues@;
        let ghost m3 = self.map;
        let ghost who3 = self.player;
        enemy_phase(&mut self.map, &mut self.player, cues, self.frame, rng);
        let ghost c4 = cues@;
        let ghost m4 = self.map;
        let ghost who4 = self.player;
        cleanup_phase(&mut self.map, &self.player, self.frame, score_before);
        if self.frame < TICK_LIMIT {
            self.frame = self.frame + 1;
        }
        let out = end_phase(&self.map, &mut self.player, storage, cues);
        proof {
            lemma_heard_on_twice(c0, c1, c2);
            lemma_heard_on_twice(c0, c2, c3);
            lemma_heard_on_twice(c0, c3, c4);
            assert(heard_on(c4, cues@)) by {
                assert(cues@.subrange(0, c4.len() as int) =~= c4);
            }
            lemma_heard_on_twice(c0, c4, cues@);
            lemma_slots_differ(Stat::Score, Stat::Food);
            assert(tick_via(
                old(self),
                old(storage),
                c0,
                held,
                &m1,
                &acted,
                c1,
                &m2,
                &who2,
                c2,
                &m3,
                &who3,
                c3,
                &m4,
                &who4,
                c4,
                self,
                storage,
                cues@,
                out,
            ));
        }
        out
    }

    /// Handles the press of the key `key`, which steers a list of choices as
    /// `nav` says.
    ///
    /// While a level-up session is open, the key goes to the session. While
    /// the game is paused, nothing happens. A movement key that is not held
    /// yet joins the keys held, and places a turret if the turret key is
    /// held. Otherwise the run key makes the player run, the bomb key
    /// places a bomb, and the pulse key casts a pulse, each if it can (see
    /// `turret_checked`, `bomb_checked` and `emp_checked` for what that
    /// does).
    pub fn pressed(
        &mut self,
        key: u32,
        nav: Nav,
        storage: &Storage,
        held: Held,
        cues: &mut Vec<Cue>,
        rng: &mut StdRng,
    )
        requires
            old(self).wf(),
            storage.wf(),
        ensures
            final(self).wf(),
            final(self).frame == old(self).frame,
            heard_on(old(cues)@, final(cues)@),
            final(self).movement@ == (if old(self).player.upgrading is None && !old(self).player.paused && steers(key, storage.hotkeys@) && !old(self).movement@.contains(key) {
                old(self).movement@.push(key)
            } else {
                old(self).movement@
            }),
            old(self).player.upgrading is Some ==> {
                let u = old(self).player.upgrading->0;
                &&& final(self).map == old(self).map
                &&& final(self).player.stats == old(self).player.stats
                &&& final(self).player.running == old(self).player.running
                &&& final(self).player.paused == old(self).player.paused
                &&& final(self).player.upgrading is Some
                &&& final(self).player.upgrading->0.upgrades == u.upgrades
                &&& final(self).player.upgrading->0.ups == (if nav == Nav::Up && u.ups > 0 {
                    u.ups - 1
                } else if nav == Nav::Down && u.ups + 1 < u.upgrades.len() {
                    u.ups + 1
                } else {
                    u.ups as int
                })
                &&& final(self).player.upgrading->0.ret == (if nav == Nav::Select {
                    Some(u.upgrades@[u.ups as int])
                } else {
                    u.ret
                })
            },
            old(self).player.upgrading is None && old(self).player.paused ==> *final(self) == *old(self) && final(cues)@ == old(cues)@,
            old(self).player.upgrading is None && !old(self).player.paused ==> {
                let steering = steers(key, storage.hotkeys@) && !old(self).movement@.contains(key);
                let runs = !steering && key == storage.hotkeys@[Hotkey::Run.slot()];
                let bombs = !steering && !runs && key == storage.hotkeys@[Hotkey::Bomb.slot()];
                let pulses = !steering && !runs && !bombs && key
                    == storage.hotkeys@[Hotkey::Emp.slot()];
                &&& final(self).player.running == (old(self).player.running || runs)
                &&& final(self).map.bombs@ == (if bombs && bomb_ready(
                    &old(self).player,
                    &old(self).map,
                    old(self).frame as int,
                ) {
                    old(self).map.bombs@.push(bomb_of(&old(self).player, old(self).frame as int))
                } else {
                    old(self).map.bombs@
                })
                &&& final(self).map.emps@ == (if pulses && emp_ready(
                    &old(self).player,
                    old(self).frame as int,
                ) {
                    old(self).map.emps@.push(emp_of(&old(self).player, old(self).frame as int))
                } else {
                    old(self).map.emps@
                })
                &&& final(self).map.turrets@.len() == old(self).map.turrets@.len() + (if steering
                    && held.turret && turret_ready(
                    &old(self).player,
                    &old(self).map,
                    old(self).frame as int,
                ) {
                    1int
                } else {
                    0int
                })
                &&& !steering && !runs && !bombs && !pulses ==> final(self).map == old(self).map
                    && final(self).player == old(self).player && final(cues)@ == old(cues)@
                &&& steering ==> if held.turret {
                    turret_checked(
                        &final(self).movement,
                        &old(self).player,
                        &old(self).map,
                        storage,
                        old(cues)@,
                        old(self).frame,
                        &final(self).player,
                        &final(self).map,
                        final(cues)@,
                        turret_ready(&old(self).player, &old(self).map, old(self).frame as int),
                    )
                } else {
                    final(self).map == old(self).map && final(self).player == old(self).player
                        && final(cues)@ == old(cues)@
                }
                &&& runs ==> final(self).map == old(self).map && final(self).player == (Player {
                    running: true,
                    ..old(self).player
                }) && final(cues)@ == old(cues)@
                &&& bombs ==> bomb_checked(
                    &old(self).player,
                    &old(self).map,
                    old(cues)@,
                    old(self).frame,
                    &final(self).player,
                    &final(self).map,
                    final(cues)@,
                    bomb_ready(&old(self).player, &old(self).map, old(self).frame as int),
                )
                &&& pulses ==> emp_checked(
                    &old(self).player,
                    &old(self).map,
                    old(cues)@,
                    old(self).frame,
                    &final(self).player,
                    &final(self).map,
                    final(cues)@,
                    emp_ready(&old(self).player, old(self).frame as int),
                )
            },
    {
        proof {
            assert(cues@.subrange(0, cues@.len() as int) =~= cues@);
        }
        if self.player.upgrading.is_some() {
            let ghost before = self.player;
            let mut session: Upgrading = self.player.upgrading.take().unwrap();
            session.pressed(nav, cues);
            self.player.upgrading = Some(session);
            proof {
                lemma_wf_carries(&before, &self.player);
                assert(cues@.subrange(0, old(cues)@.len() as int) =~= old(cues)@);
            }
            return ;
        }
        if self.player.paused {
            return ;
        }
        let hotkeys = &storage.hotkeys;
        let steering: bool = key == hotkeys[Hotkey::Up.index()] || key
            == hotkeys[Hotkey::Right.index()] || key == hotkeys[Hotkey::Down.index()] || key
            == hotkeys[Hotkey::Left.index()];
        if steering && !has_key(&self.movement, key) {
            self.movement.push(key);
            if held.turret {
                check_turret(
                    &self.movement,
                    &mut self.player,
                    &mut self.map,
                    storage,
                    cues,
                    self.frame,
                    rng,
                );
                proof {
                    assert(cues@.subrange(0, old(cues)@.len() as int) =~= old(cues)@);
                }
            }
            return ;
        }
        if key == hotkeys[Hotkey::Run.index()] {
            let ghost before = self.player;
            self.player.running = true;
            proof {
                lemma_wf_carries(&before, &self.player);
            }
        } else if key == hotkeys[Hotkey::Bomb.index()] {
            check_bomb(&mut self.player, &mut self.map, cues, self.frame);
            proof {
                assert(cues@.subrange(0, old(cues)@.len() as int) =~= old(cues)@);
            }
        } else if key == hotkeys[Hotkey::Emp.index()] {
            let ghost c0 = cues@;
            check_emp(&mut self.player, &mut self.map, cues, self.frame, rng);
            proof {
                if emp_ready(&old(self).player, old(self).frame as int) {
                    let c1 = c0.push(Cue::flat(Sound::UseEmp, 100));
                    assert(c1.subrange(0, c0.len() as int) =~= c0);
                    assert(heard_on(c1, cues@));
                    lemma_heard_on_twice(c0, c1, cues@);
                }
            }
        }
    }

    /// Handles the release of the key `key`: it leaves the keys held. Unless
    /// the game is paused, releasing the run key stops the player running,
    /// and releasing the turret key places a turret if the player can (see
    /// `turret_checked`).
    pub fn released(&mut self, key: u32, storage: &Storage, cues: &mut Vec<Cue>, rng: &mut StdRng)
        requires
            old(self).wf(),
            storage.wf(),
        ensures
            final(self).wf(),
            final(self).frame == old(self).frame,
            heard_on(old(cues)@, final(cues)@),
            without(old(self).movement@, key, final(self).movement@),
            old(self).player.paused ==> final(self).map == old(self).map && final(self).player
                == old(self).player && final(cues)@ == old(cues)@,
            !old(self).player.paused ==> final(self).player.running == (old(self).player.running
                && key != storage.hotkeys@[Hotkey::Run.slot()]),
            !old(self).player.paused ==> final(self).map.turrets@.len() == old(self).map.turrets@.len() + (if key != storage.hotkeys@[Hotkey::Run.slot()] && key
                == storage.hotkeys@[Hotkey::Turret.slot()] && turret_ready(
                &old(self).player,
                &old(self).map,
                old(self).frame as int,
            ) {
                1int
            } else {
                0int
            }),
            !old(self).player.paused && key != storage.hotkeys@[Hotkey::Run.slot()] && key
                != storage.hotkeys@[Hotkey::Turret.slot()] ==> final(self).map == old(self).map
                && final(self).player == old(self).player && final(cues)@ == old(cues)@,
            !old(self).player.paused && key == storage.hotkeys@[Hotkey::Run.slot()]
                ==> final(self).map == old(self).map && final(self).player == (Player {
                running: false,
                ..old(self).player
            }) && final(cues)@ == old(cues)@,
            !old(self).player.paused && key != storage.hotkeys@[Hotkey::Run.slot()] && key
                == storage.hotkeys@[Hotkey::Turret.slot()] ==> turret_checked(
                &final(self).movement,
                &old(self).player,
                &old(self).map,
                storage,
                old(cues)@,
                old(self).frame,
                &final(self).player,
                &final(self).map,
                final(cues)@,
                turret_ready(&old(self).player, &old(self).map, old(self).frame as int),
            ),
    {
        proof {
            assert(cues@.subrange(0, cues@.len() as int) =~= cues@);
        }
        let mut i: usize = 0;
        let mut at: Option<usize> = None;
        while i < self.movement.len() && at.is_none()
            invariant
                i <= self.movement.len(),
                *self == *old(self),
                forall|k: int| 0 <= k < i ==> self.movement@[k] != key,
                at matches Some(j) ==> j == i && i < self.movement.len() && self.movement@[i as int]
                    == key,
            decreases self.movement.len() - i + (if at is None { 1int } else { 0int }),
        {
            if self.movement[i] == key {
                at = Some(i);
            } else {
                i = i + 1;
            }
        }
        match at {
            Some(j) => {
                assert(first_at(old(self).movement@, key, j as int));
                self.movement.remove(j);
            },
            None => {},
        }
        if self.player.paused {
            return ;
        }
        let hotkeys = &storage.hotkeys;
        if key == hotkeys[Hotkey::Run.index()] {
            let ghost before = self.player;
            self.player.running = false;
            proof {
                lemma_wf_carries(&before, &self.player);
            }
        } else if key == hotkeys[Hotkey::Turret.index()] {
            check_turret(
                &self.movement,
                &mut self.player,
                &mut self.map,
                storage,
                cues,
                self.frame,
                rng,
            );
            proof {
                assert(cues@.subrange(0, old(cues)@.len() as int) =~= old(cues)@);
            }
        }
    }
}

} // verus!
