//! Loot chests: what they hold and how long they stay.

use crate::arena::Arena;
use crate::dice::roll;
use crate::player::Player;
use crate::stat::{SPAN_LIMIT, STAMP_LIMIT, TICK_LIMIT};
use crate::tile::Tile;
use crate::util::{dist, manhattan};
use rand::rngs::StdRng;
use vstd::prelude::*;

verus! {

/// Ticks a chest stays on the ground.
pub const CHEST_DURATION: i32 = 14_400;

/// Number of loot types that a random chest can hold: all but `Rainbow`.
pub const RANDOM_KINDS: i32 = 5;

/// How close to the player a random chest may not appear.
pub const CHEST_CLEARANCE: i32 = 16;

/// How many cells are tried before a random placement gives up.
pub const PLACEMENT_TRIES: u32 = 100_000;

/// What a chest holds. `Rainbow` grants all of the others at once.
#[derive(Clone, Copy, Debug, PartialEq, Eq, Structural)]
pub enum ChestType {
    Ammo,
    Bomb,
    Turret,
    Emp,
    Food,
    Rainbow,
}

/// A chest lying on a tile since tick `start`, for `duration` ticks.
#[derive(Clone, Copy, Debug, PartialEq, Eq, Structural)]
pub struct Chest {
    pub start: i32,
    pub duration: i32,
    pub ty: ChestType,
}

impl ChestType {
    /// The loot type numbered `value`, in declaration order.
    pub open spec fn of(value: int) -> ChestType {
        if value == 0 {
            ChestType::Ammo
        } else if value == 1 {
            ChestType::Bomb
        } else if value == 2 {
            ChestType::Turret
        } else if value == 3 {
            ChestType::Emp
        } else if value == 4 {
            ChestType::Food
        } else {
            ChestType::Rainbow
        }
    }

    /// The loot type numbered `value`; there are six, numbered from zero.
    pub fn from(value: i32) -> (ty: ChestType)
        requires
            0 <= value <= 5,
        ensures
            ty == ChestType::of(value as int),
    {
        match value {
            0 => ChestType::Ammo,
            1 => ChestType::Bomb,
            2 => ChestType::Turret,
            3 => ChestType::Emp,
            4 => ChestType::Food,
            _ => ChestType::Rainbow,
        }
    }
}

impl Chest {
    /// Start and duration are in range, so that the tick of expiry can be
    /// computed.
    pub open spec fn wf(&self) -> bool {
        &&& -SPAN_LIMIT <= self.start <= STAMP_LIMIT
        &&& 0 <= self.duration <= SPAN_LIMIT
    }

    /// The tick from which the chest is gone.
    pub open spec fn expiry(&self) -> int {
        self.start + self.duration
    }
}

impl ChestType {
    /// A loot type picked by `rng` among all but `Rainbow`.
    pub fn random(rng: &mut StdRng) -> (ty: ChestType)
        ensures
            ty != ChestType::Rainbow,
    {
        ChestType::from(roll(rng, 0, RANDOM_KINDS))
    }
}

/// The chest that is spawned at `frame` with the loot `ty`.
pub open spec fn fresh_chest(frame: int, ty: ChestType) -> Chest {
    Chest { start: frame as i32, duration: CHEST_DURATION, ty }
}

/// Whether `after` is `before` with the chest `chest` laid on the empty cell
/// `(x, y)`: the tile holds the chest, the cell is appended to the chest
/// queue and can no longer be entered, and nothing else differs.
pub open spec fn chest_laid(before: &Arena, after: &Arena, x: int, y: int, chest: Chest) -> bool {
    &&& after.tile_at(x, y) == Tile::Chest(chest)
    &&& after.tiles_but(before, x, y)
    &&& !after.pass_at(x, y)
    &&& after.pass_but(before, x, y)
    &&& after.chests@ == before.chests@.push((x as i32, y as i32))
    &&& after.enemies == before.enemies
    &&& after.bullets == before.bullets
    &&& after.bombs == before.bombs
    &&& after.turrets == before.turrets
    &&& after.emps == before.emps
    &&& after.boss == before.boss
    &&& after.spawned == before.spawned
    &&& after.w == before.w
    &&& after.h == before.h
}

/// Spawns a chest with the loot `ty` on the cell `(x, y)` at `frame`, if the
/// cell is empty and no enemy stands on it; otherwise nothing happens.
/// Returns whether the chest was spawned.
///
/// A chest is never laid over a wall, over another chest, or under an
/// enemy: that would take the tile or the enemy out of step with the chest
/// queue and with what can be entered. The spawners only try cells that can
/// be entered, and a kill lays its chest on the cell that the enemy left,
/// so for them the chest is always laid.
pub fn spawn_chest(map: &mut Arena, frame: i32, x: i32, y: i32, ty: ChestType) -> (placed: bool)
    requires
        old(map).wf(),
        old(map).inside(x as int, y as int),
        0 <= frame <= TICK_LIMIT,
    ensures
        final(map).wf(),
        placed == (old(map).tile_at(x as int, y as int) is Empty && old(map).enemy_at(
            x as int,
            y as int,
        ) is None),
        placed ==> chest_laid(old(map), final(map), x as int, y as int, fresh_chest(frame as int, ty)),
        !placed ==> *final(map) == *old(map),
{
    let free: bool = match map.tile(x, y) {
        Tile::Empty => map.enemy(x, y).is_none(),
        _ => false,
    };
    if free {
        map.place_chest(x, y, Chest { start: frame, duration: CHEST_DURATION, ty });
    }
    free
}

/// Whether the arena `after` is `before` with a random chest spawned at
/// `frame`, if `placed`, and as it was if not.
pub open spec fn chest_scattered(
    before: &Arena,
    player: &Player,
    frame: i32,
    after: &Arena,
    placed: bool,
) -> bool {
    &&& after.wf()
    &&& placed ==> exists|x: int, y: int, ty: ChestType|
        {
            &&& before.inside(x, y)
            &&& chest_fits(before, player, x, y)
            &&& ty != ChestType::Rainbow
            &&& #[trigger] chest_laid(before, after, x, y, fresh_chest(frame as int, ty))
        }
    &&& !placed ==> *after == *before
}

/// Spawns a chest with random loot on a random cell that can be entered and
/// lies at least `CHEST_CLEARANCE` steps from the player. Cells are tried
/// until one fits or `PLACEMENT_TRIES` cells were tried; if none fits, the
/// arena stays as it is. Returns whether a chest was spawned.
pub fn spawn_random_chest(map: &mut Arena, player: &Player, frame: i32, rng: &mut StdRng) -> (placed:
    bool)
    requires
        old(map).wf(),
        old(map).inside(player.x as int, player.y as int),
        0 <= frame <= TICK_LIMIT,
    ensures
        chest_scattered(
            old(map),
            player,
            frame,
            final(map),
            placed,
        ),
{
    let mut tries: u32 = 0;
    while tries < PLACEMENT_TRIES
        invariant
            *map == *old(map),
            map.wf(),
            map.inside(player.x as int, player.y as int),
            0 <= frame <= TICK_LIMIT,
        decreases PLACEMENT_TRIES - tries,
    {
        let x: i32 = roll(rng, 0, map.w);
        let y: i32 = roll(rng, 0, map.h);
        if fits_chest(map, player, x, y) {
            let ty: ChestType = ChestType::random(rng);
            let placed: bool = spawn_chest(map, frame, x, y, ty);
            assert(placed);
            assert(chest_laid(old(map), map, x as int, y as int, fresh_chest(frame as int, ty)));
            return true;
        }
        tries = tries + 1;
    }
    false
}

/// Removes the chest at the head of the queue if it has expired at `frame`:
/// its cell becomes empty, and can be entered unless a turret stands on it.
/// Returns whether a chest was removed.
pub fn expire_chest(map: &mut Arena, frame: i32) -> (removed: bool)
    requires
        old(map).wf(),
        0 <= frame <= TICK_LIMIT,
    ensures
        final(map).wf(),
        removed == (old(map).chests@.len() > 0 && frame >= old(map).tile_at(
            old(map).chests@[0].0 as int,
            old(map).chests@[0].1 as int,
        )->Chest_0.expiry()),
        removed ==> {
            let x = old(map).chests@[0].0 as int;
            let y = old(map).chests@[0].1 as int;
            &&& final(map).chests@ == old(map).chests@.skip(1)
            &&& final(map).tile_at(x, y) is Empty
            &&& final(map).tiles_but(old(map), x, y)
            &&& final(map).pass_at(x, y) == !old(map).has_turret(x, y)
            &&& final(map).pass_but(old(map), x, y)
            &&& final(map).enemies == old(map).enemies
            &&& final(map).bullets == old(map).bullets
            &&& final(map).bombs == old(map).bombs
            &&& final(map).turrets == old(map).turrets
            &&& final(map).emps == old(map).emps
            &&& final(map).boss == old(map).boss
            &&& final(map).spawned == old(map).spawned
            &&& final(map).w == old(map).w
            &&& final(map).h == old(map).h
        },
        !removed ==> *final(map) == *old(map),
{
    if map.chests.len() == 0 {
        return false;
    }
    let head: (i32, i32) = map.chests[0];
    let ghost q = map.chests@;
    assert(map.inside(q[0].0 as int, q[0].1 as int));
    match map.tile(head.0, head.1) {
        Tile::Chest(chest) => {
            if frame >= chest.start + chest.duration {
                map.clear_chest(head.0, head.1);
                proof {
                    let idx = choose|idx: int|
                        0 <= idx < q.len() && q[idx] == head && map.chests@ == q.remove(idx);
                    if idx != 0 {
                        assert(q[0] != q[idx]);
                    }
                    assert(q.remove(0) =~= q.skip(1));
                }
                true
            } else {
                false
            }
        },
        _ => false,
    }
}

/// The queue `q` after its head was removed `k` times.
pub open spec fn after_removals(q: Seq<(i32, i32)>, k: nat) -> Seq<(i32, i32)>
    decreases k,
{
    if k == 0 {
        q
    } else {
        after_removals(q, (k - 1) as nat).skip(1)
    }
}

/// Chests leave the queue in the order in which they were spawned: after
/// `k` removals at the head, the `k` cells spawned first are gone, the next
/// one to go is the cell spawned after them, and the cells spawned later
/// keep their order.
pub proof fn lemma_chests_leave_in_order(q: Seq<(i32, i32)>, k: nat)
    requires
        k <= q.len(),
    ensures
        after_removals(q, k) == q.skip(k as int),
        k < q.len() ==> after_removals(q, k)[0] == q[k as int],
    decreases k,
{
    if k > 0 {
        lemma_chests_leave_in_order(q, (k - 1) as nat);
        assert(q.skip(k - 1).skip(1) =~= q.skip(k as int));
    }
}

/// Whether the cell `(x, y)` fits a random chest: it can be entered, and
/// lies at least `CHEST_CLEARANCE` steps from the player.
pub open spec fn chest_fits(map: &Arena, player: &Player, x: int, y: int) -> bool {
    map.pass_at(x, y) && manhattan(x, y, player.x as int, player.y as int) >= CHEST_CLEARANCE
}

/// Whether the cell `(x, y)` fits a random chest.
pub fn fits_chest(map: &Arena, player: &Player, x: i32, y: i32) -> (b: bool)
    requires
        map.wf(),
        map.inside(player.x as int, player.y as int),
        map.inside(x as int, y as int),
    ensures
        b == chest_fits(map, player, x as int, y as int),
{
    map.passable(x, y) && dist(x, y, player.x, player.y) >= CHEST_CLEARANCE
}

/// Whether the chest at the head of the queue of `map` has expired at
/// `frame`.
pub open spec fn head_expired(map: &Arena, frame: int) -> bool {
    map.chests@.len() > 0 && frame >= map.tile_at(
        map.chests@[0].0 as int,
        map.chests@[0].1 as int,
    )->Chest_0.expiry()
}

/// Whether the tiles, the passability and the chest queue of `after` are
/// those of `before` after the head of the queue was looked at at `frame`:
/// if it has expired, it is gone from the queue, its cell is empty and can
/// be entered unless a turret stands on it; else nothing differs.
pub open spec fn head_cleared(before: &Arena, after: &Arena, frame: int) -> bool {
    if head_expired(before, frame) {
        let x = before.chests@[0].0 as int;
        let y = before.chests@[0].1 as int;
        &&& after.chests@ == before.chests@.skip(1)
        &&& after.tile_at(x, y) is Empty
        &&& after.tiles_but(before, x, y)
        &&& after.pass_at(x, y) == !before.has_turret(x, y)
        &&& after.pass_but(before, x, y)
    } else {
        &&& after.chests@ == before.chests@
        &&& after.tiles == before.tiles
        &&& after.pass == before.pass
    }
}

} // verus!
