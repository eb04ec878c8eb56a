//! The player's steps: walking, pushing walls and picking up chests.

use crate::arena::Arena;
use crate::chest::{Chest, ChestType};
use crate::input::{aim, aim_of, step, step_of};
use crate::player::{lemma_wf_carries, Player};
use crate::sound::{Cue, Sound};
use crate::stat::{lemma_slots_differ, Stat, TICK_LIMIT};
use crate::storage::Storage;
use crate::tile::{MovableWall, Tile};
use crate::util::clamp;
use vstd::prelude::*;

verus! {

/// Food that one step costs while running.
pub const RUN_COST: i32 = 2000;

/// Whether `s` is a stock that chests refill.
pub open spec fn is_stock(s: Stat) -> bool {
    s == Stat::Ammo || s == Stat::Bomb || s == Stat::Turret || s == Stat::Emp || s == Stat::Food
}

/// The capacity of the stock `s`.
pub open spec fn cap_of(s: Stat) -> Stat {
    if s == Stat::Ammo {
        Stat::MaxAmmo
    } else if s == Stat::Bomb {
        Stat::MaxBomb
    } else if s == Stat::Turret {
        Stat::MaxTurret
    } else if s == Stat::Emp {
        Stat::MaxEmp
    } else {
        Stat::MaxFood
    }
}

/// What a chest with the loot `ty` adds to the stock `s`, before the
/// capacity is applied.
pub open spec fn loot_of(ty: ChestType, s: Stat) -> int {
    let wanted = match ty {
        ChestType::Ammo => s == Stat::Ammo,
        ChestType::Bomb => s == Stat::Bomb,
        ChestType::Turret => s == Stat::Turret,
        ChestType::Emp => s == Stat::Emp,
        ChestType::Food => s == Stat::Food,
        ChestType::Rainbow => is_stock(s),
    };
    if !wanted {
        0
    } else if s == Stat::Ammo {
        3
    } else if s == Stat::Food {
        500_000
    } else {
        1
    }
}

/// The value of the stat `s` after the player `was` picked up a chest with
/// the loot `ty`: a stock that the chest refills grows by the loot, up to
/// its capacity; every other stat stays.
pub open spec fn looted(was: &Player, ty: ChestType, s: Stat) -> int {
    if is_stock(s) && loot_of(ty, s) > 0 {
        if was.stat(cap_of(s)) < was.stat(s) + loot_of(ty, s) {
            was.stat(cap_of(s))
        } else {
            was.stat(s) + loot_of(ty, s)
        }
    } else {
        was.stat(s)
    }
}

/// Refills the stock `s` by `k`, up to its capacity.
fn refill(player: &mut Player, s: Stat, k: i32)
    requires
        old(player).wf(),
        is_stock(s),
        0 < k <= 500_000,
    ensures
        final(player).wf(),
        final(player).same_but_stats(old(player)),
        final(player).stats@ == old(player).stats@.update(
            s.slot(),
            (if old(player).stat(cap_of(s)) < old(player).stat(s) + k {
                old(player).stat(cap_of(s))
            } else {
                old(player).stat(s) + k
            }) as i32,
        ),
{
    let cap_stat: Stat = match s {
        Stat::Ammo => Stat::MaxAmmo,
        Stat::Bomb => Stat::MaxBomb,
        Stat::Turret => Stat::MaxTurret,
        Stat::Emp => Stat::MaxEmp,
        _ => Stat::MaxFood,
    };
    proof {
        assert(s.least() <= player.stat(s) <= s.most());
        assert(cap_stat.least() <= player.stat(cap_stat) <= cap_stat.most());
    }
    let cap: i32 = player.get(cap_stat);
    let grown: i32 = player.get(s) + k;
    let v: i32 = if cap < grown { cap } else { grown };
    player.set(s, v);
}

/// Lets the player pick up a chest with the loot `ty`: see `looted`.
pub fn loot(player: &mut Player, ty: ChestType)
    requires
        old(player).wf(),
    ensures
        final(player).wf(),
        final(player).same_but_stats(old(player)),
        forall|s: Stat| #[trigger] final(player).stat(s) == looted(old(player), ty, s),
        forall|i: int| 42 <= i < 64 ==> #[trigger] final(player).stats@[i] == old(player).stats@[i],
{
    let all: bool = matches!(ty, ChestType::Rainbow);
    if all || matches!(ty, ChestType::Ammo) {
        refill(player, Stat::Ammo, 3);
    }
    let ghost with_ammo = *player;
    if all || matches!(ty, ChestType::Bomb) {
        refill(player, Stat::Bomb, 1);
    }
    let ghost with_bombs = *player;
    if all || matches!(ty, ChestType::Turret) {
        refill(player, Stat::Turret, 1);
    }
    let ghost with_turrets = *player;
    if all || matches!(ty, ChestType::Emp) {
        refill(player, Stat::Emp, 1);
    }
    let ghost with_pulses = *player;
    if all || matches!(ty, ChestType::Food) {
        refill(player, Stat::Food, 500_000);
    }
    proof {
        assert forall|s: Stat| #[trigger] player.stat(s) == looted(old(player), ty, s) by {
            lemma_slots_differ(s, Stat::Ammo);
            lemma_slots_differ(s, Stat::Bomb);
            lemma_slots_differ(s, Stat::Turret);
            lemma_slots_differ(s, Stat::Emp);
            lemma_slots_differ(s, Stat::Food);
            assert(with_ammo.stat(s) == if s == Stat::Ammo {
                looted(old(player), ty, s)
            } else {
                old(player).stat(s)
            });
            assert(with_bombs.stat(s) == if s == Stat::Ammo || s == Stat::Bomb {
                looted(old(player), ty, s)
            } else {
                old(player).stat(s)
            });
            assert(with_turrets.stat(s) == if s == Stat::Ammo || s == Stat::Bomb || s == Stat::Turret {
                looted(old(player), ty, s)
            } else {
                old(player).stat(s)
            });
            assert(with_pulses.stat(s) == if s == Stat::Ammo || s == Stat::Bomb || s == Stat::Turret || s
                == Stat::Emp {
                looted(old(player), ty, s)
            } else {
                old(player).stat(s)
            });
        }
        lemma_slots_differ(Stat::Ammo, Stat::Ammo);
        lemma_slots_differ(Stat::Bomb, Stat::Bomb);
        lemma_slots_differ(Stat::Turret, Stat::Turret);
        lemma_slots_differ(Stat::Emp, Stat::Emp);
        lemma_slots_differ(Stat::Food, Stat::Food);
    }
}

/// The ticks that the player `p` has to wait between two steps, onto a wall
/// that can be pushed if `pushing`: the move cooldown, doubled for pushing,
/// halved for running.
pub open spec fn move_cost(p: &Player, pushing: bool) -> int {
    (if pushing {
        2 * p.stat(Stat::CdMove)
    } else {
        p.stat(Stat::CdMove)
    }) / (if p.running {
        2int
    } else {
        1int
    })
}

/// What a step of the player does.
pub enum Step {
    /// No direction is aimed at, or the move cooldown has not passed.
    Waits,
    /// The way is blocked: only the tick is noted.
    Blocked,
    /// The player steps onto an empty cell.
    Walks,
    /// The player pushes a wall one cell on and steps where it stood.
    Pushes,
    /// The player steps onto a chest and picks it up.
    Picks,
}

/// What the step of the player `p` at `frame` does, aiming where the keys
/// `keys` say.
pub open spec fn step_kind(map: &Arena, p: &Player, keys: Seq<u32>, hotkeys: Seq<u32>, frame: int) -> Step {
    match aim_of(keys, hotkeys) {
        None => Step::Waits,
        Some(d) => {
            let tx = p.x + step_of(d).0;
            let ty = p.y + step_of(d).1;
            let tile = map.tile_at(tx, ty);
            if frame < p.stat(Stat::LastMove) + move_cost(p, tile is MovableWall) {
                Step::Waits
            } else {
                match tile {
                    Tile::Empty => if map.pass_at(tx, ty) {
                        Step::Walks
                    } else {
                        Step::Blocked
                    },
                    Tile::Wall(_) => Step::Blocked,
                    Tile::MovableWall(_) => if map.pass_at(tx + step_of(d).0, ty + step_of(d).1) {
                        Step::Pushes
                    } else {
                        Step::Blocked
                    },
                    Tile::Chest(_) => Step::Picks,
                }
            }
        },
    }
}

/// The value of the stat `s` after the step `kind` of the player `was` at
/// `frame`, picking up the loot `ty` if it picks a chest: the tick is
/// noted, a step taken while running costs food, and a chest picked up
/// refills the stocks.
pub open spec fn stat_after_step(was: &Player, kind: Step, ty: ChestType, frame: int, s: Stat) -> int {
    if kind is Waits {
        was.stat(s)
    } else if s == Stat::LastMove {
        frame
    } else {
        let tired = if s == Stat::Food && was.running && !(kind is Blocked) {
            clamp(was.stat(s) - RUN_COST, s.least(), s.most())
        } else {
            was.stat(s)
        };
        if kind is Picks && is_stock(s) && loot_of(ty, s) > 0 {
            if was.stat(cap_of(s)) < tired + loot_of(ty, s) {
                was.stat(cap_of(s))
            } else {
                tired + loot_of(ty, s)
            }
        } else {
            tired
        }
    }
}

/// Whether the arena `after` is `before` after the step `kind` from the
/// cell `(x, y)` in the turret direction `d`.
///
/// Walking, waiting and a blocked way leave the arena alone. Pushing
/// moves the wall from the next cell to the one behind it, which is blocked
/// by it, and the cell it left is empty and can be entered unless a turret
/// stands there. Picking empties the next cell and takes it off the chest
/// queue.
pub open spec fn arena_after_step(before: &Arena, after: &Arena, kind: Step, x: int, y: int, d: int) -> bool {
    let tx = x + step_of(d).0;
    let ty = y + step_of(d).1;
    let bx = tx + step_of(d).0;
    let by = ty + step_of(d).1;
    match kind {
        Step::Waits | Step::Blocked | Step::Walks => *after == *before,
        Step::Pushes => {
            &&& after.tile_at(tx, ty) is Empty
            &&& after.tile_at(bx, by) == before.tile_at(tx, ty)
            &&& forall|x2: int, y2: int|
                before.inside(x2, y2) && !(x2 == tx && y2 == ty) && !(x2 == bx && y2 == by)
                    ==> #[trigger] after.tile_at(x2, y2) == before.tile_at(x2, y2)
            &&& after.pass_at(tx, ty) == !before.has_turret(tx, ty)
            &&& !after.pass_at(bx, by)
            &&& forall|x2: int, y2: int|
                before.inside(x2, y2) && !(x2 == tx && y2 == ty) && !(x2 == bx && y2 == by)
                    ==> #[trigger] after.pass_at(x2, y2) == before.pass_at(x2, y2)
            &&& after.enemies == before.enemies
            &&& after.same_things(before)
        },
        Step::Picks => {
            &&& after.tile_at(tx, ty) is Empty
            &&& after.tiles_but(before, tx, ty)
            &&& after.pass_at(tx, ty) == !before.has_turret(tx, ty)
            &&& after.pass_but(before, tx, ty)
            &&& after.enemies == before.enemies
            &&& exists|idx: int|
                0 <= idx < before.chests@.len() && before.chests@[idx] == (tx as i32, ty as i32)
                    && after.chests@ == #[trigger] before.chests@.remove(idx)
            &&& after.bullets == before.bullets
            &&& after.bombs == before.bombs
            &&& after.turrets == before.turrets
            &&& after.emps == before.emps
            &&& after.boss == before.boss
            &&& after.spawned == before.spawned
            &&& after.w == before.w
            &&& after.h == before.h
        },
    }
}

/// Whether the state after is the state before with the player's step at
/// `frame` taken: see `step_kind` for what the step does, `arena_after_step`
/// for what it does to the arena, and `stat_after_step` for what it does to
/// the stats.
pub open spec fn moves_made(
    was: &Player,
    keys: &Vec<u32>,
    before: &Arena,
    storage: &Storage,
    heard: Seq<Cue>,
    frame: i32,
    now: &Player,
    after: &Arena,
    heard_after: Seq<Cue>,
) -> bool {
    &&& after.wf()
    &&& now.wf()
    &&& after.hosts(now)
    &&& ({
        let kind = step_kind(before, was, keys@, storage.hotkeys@, frame as int);
        let d = aim_of(keys@, storage.hotkeys@);
        let moves = kind is Walks || kind is Pushes || kind is Picks;
        let tx = was.x + step_of(d->0).0;
        let ty = was.y + step_of(d->0).1;
        &&& kind is Waits ==> *now == *was
        &&& arena_after_step(
            before,
            after,
            kind,
            was.x as int,
            was.y as int,
            d->0,
        )
        &&& now.x == (if moves {
            tx
        } else {
            was.x as int
        })
        &&& now.y == (if moves {
            ty
        } else {
            was.y as int
        })
        &&& forall|s: Stat| #[trigger]
            now.stat(s) == stat_after_step(
                was,
                kind,
                before.tile_at(tx, ty)->Chest_0.ty,
                frame as int,
                s,
            )
        &&& forall|i: int|
            42 <= i < 64 ==> #[trigger] now.stats@[i] == was.stats@[i]
        &&& now.progress == was.progress
        &&& now.running == was.running
        &&& now.dead == was.dead
        &&& now.paused == was.paused
        &&& now.upgrading == was.upgrading
        &&& now.upgrades == was.upgrades
        &&& heard_after == (if kind is Picks {
            heard.push(Cue::flat(Sound::PickChest, 25))
        } else {
            heard
        })
    })
}

/// Lets the player take a step at `frame` in the direction aimed at: see
/// `step_kind` for what the step does, `arena_after_step` for what it does
/// to the arena, and `stat_after_step` for what it does to the stats. The
/// player moves one cell unless it waits or is blocked. Picking up a chest
/// asks for its sound.
pub fn make_moves(
    player: &mut Player,
    keys: &Vec<u32>,
    map: &mut Arena,
    storage: &Storage,
    cues: &mut Vec<Cue>,
    frame: i32,
)
    requires
        old(map).wf(),
        old(player).wf(),
        old(map).hosts(old(player)),
        storage.wf(),
        0 <= frame <= TICK_LIMIT,
    ensures
        moves_made(
            old(player),
            keys,
            old(map),
            storage,
            old(cues)@,
            frame,
            final(player),
            final(map),
            final(cues)@,
        ),
{
    let d: usize = match aim(keys, &storage.hotkeys) {
        Some(d) => d,
        None => {
            return ;
        },
    };
    let (dx, dy) = step(d);
    let tx: i32 = player.x + dx;
    let ty: i32 = player.y + dy;
    let tile: Tile = map.tile(tx, ty);
    proof {
        assert(Stat::CdMove.least() <= player.stat(Stat::CdMove) <= Stat::CdMove.most());
        assert(Stat::LastMove.least() <= player.stat(Stat::LastMove) <= Stat::LastMove.most());
        assert(tile.wf());
    }
    let base: i32 = match tile {
        Tile::MovableWall(_) => 2 * player.get(Stat::CdMove),
        _ => player.get(Stat::CdMove),
    };
    let cost: i32 = if player.running { base / 2 } else { base };
    if frame < player.get(Stat::LastMove) + cost {
        return ;
    }
    let ghost kind = step_kind(old(map), old(player), keys@, storage.hotkeys@, frame as int);
    let mut moved: bool = false;
    let mut picked: Option<ChestType> = None;
    match tile {
        Tile::Empty => {
            if map.passable(tx, ty) {
                moved = true;
            }
        },
        Tile::Wall(_) => {},
        Tile::MovableWall(w) => {
            assert(map.interior(tx as int, ty as int));
            if map.passable(tx + dx, ty + dy) {
                moved = true;
                assert(map.enemy_at(tx as int, ty as int) is None);
                map.put_tile(tx, ty, Tile::Empty);
                let ghost lifted = *map;
                map.put_tile(tx + dx, ty + dy, Tile::MovableWall(MovableWall { bullets: w.bullets }));
                proof {
                    assert forall|x2: int, y2: int|
                        old(map).inside(x2, y2) && !(x2 == tx && y2 == ty) && !(x2 == tx + dx && y2
                            == ty + dy) implies #[trigger] map.tile_at(x2, y2) == old(map).tile_at(
                        x2,
                        y2,
                    ) by {
                        assert(lifted.tile_at(x2, y2) == old(map).tile_at(x2, y2));
                    }
                    assert forall|x2: int, y2: int|
                        old(map).inside(x2, y2) && !(x2 == tx && y2 == ty) && !(x2 == tx + dx && y2
                            == ty + dy) implies #[trigger] map.pass_at(x2, y2) == old(map).pass_at(
                        x2,
                        y2,
                    ) by {
                        assert(lifted.pass_at(x2, y2) == old(map).pass_at(x2, y2));
                    }
                    assert(map.tile_at(tx as int, ty as int) == lifted.tile_at(tx as int, ty as int));
                    assert(map.pass_at(tx as int, ty as int) == lifted.pass_at(tx as int, ty as int));
                }
            }
        },
        Tile::Chest(c) => {
            assert(map.interior(tx as int, ty as int));
            moved = true;
            picked = Some(c.ty);
            cues.push(Cue { sound: Sound::PickChest, level: 25, near: 0, dist: 0 });
            map.clear_chest(tx, ty);
        },
    }
    if moved && player.running {
        player.gain(Stat::Food, -RUN_COST);
    }
    let ghost tired = *player;
    match picked {
        Some(ty) => {
            loot(player, ty);
        },
        None => {},
    }
    let ghost fed = *player;
    player.set(Stat::LastMove, frame);
    let ghost noted = *player;
    if moved {
        player.x = tx;
        player.y = ty;
    }
    proof {
        lemma_wf_carries(&noted, player);
        assert forall|s: Stat| #[trigger]
            player.stat(s) == stat_after_step(
                old(player),
                kind,
                old(map).tile_at(tx as int, ty as int)->Chest_0.ty,
                frame as int,
                s,
            ) by {
            lemma_slots_differ(s, Stat::LastMove);
            lemma_slots_differ(s, Stat::Food);
            assert(player.stat(s) == noted.stat(s));
            assert(noted.stat(s) == if s == Stat::LastMove { frame as int } else { fed.stat(s) });
            assert(tired.stat(s) == if s == Stat::Food && moved && old(player).running {
                clamp(old(player).stat(s) - RUN_COST, s.least(), s.most())
            } else {
                old(player).stat(s)
            });
            if picked is Some {
                assert(fed.stat(s) == looted(&tired, picked->0, s));
                lemma_slots_differ(cap_of(s), Stat::Food);
                assert(tired.stat(cap_of(s)) == old(player).stat(cap_of(s)));
            }
        }
        lemma_slots_differ(Stat::LastMove, Stat::LastMove);
        lemma_slots_differ(Stat::Food, Stat::Food);
    }
}

} // verus!
