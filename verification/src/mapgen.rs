//! Building an arena: the wall structure, then the first enemies and chests.

use crate::arena::{lemma_cells_finite, Arena, Boss, SIDE_LIMIT};
use crate::chest::{Chest, ChestType, CHEST_DURATION, PLACEMENT_TRIES};
use crate::dice::roll;
use crate::enemy::{add_enemy, Enemy, EnemyType, ZOMBIE_COOLDOWN};
use crate::grid::{lemma_offset_inside, MultiVec};
use crate::stat::COUNT_LIMIT;
use crate::tile::{MovableWall, Tile, Wall};
use crate::util::{chance_met, dist, manhattan, passes};
use rand::rngs::StdRng;
use std::collections::VecDeque;
use vstd::prelude::*;

verus! {

/// Width and height of the standard arena.
pub const STANDARD_SIDE: i32 = 400;

/// Number of zombies the standard arena starts with.
pub const STANDARD_ENEMIES: i32 = 1024;

/// Number of chests the standard arena starts with.
pub const STANDARD_CHESTS: i32 = 480;

/// Cells closer to the centre than this stay free of walls.
pub const SAFE_RADIUS: i32 = 10;

/// The first zombies keep further from the centre than this.
pub const START_CLEARANCE: i32 = 20;

/// Chance in percent that a wall grows on a cell next to a wall.
pub const GROW_CHANCE: i32 = 35;

/// Share in percent of the grown walls that are permanent.
pub const WALL_SHARE: i32 = 70;

/// Chance in percent that a permanent wall sprouts on any other cell.
pub const SPROUT_CHANCE: i32 = 3;

/// The wall that grows on a cell, given the roll `kind` out of a hundred:
/// a permanent one if the roll meets `WALL_SHARE`, and else one that can be
/// pushed.
pub open spec fn grown_wall(kind: int) -> Tile {
    if chance_met(kind, WALL_SHARE as int) {
        Tile::Wall(Wall { bullets: 0 })
    } else {
        Tile::MovableWall(MovableWall { bullets: 0 })
    }
}

/// The wall that grows on a cell, given the roll `kind` out of a hundred.
pub fn wall_for(kind: i32) -> (t: Tile)
    ensures
        t == grown_wall(kind as int),
{
    if passes(kind, WALL_SHARE) {
        Tile::Wall(Wall { bullets: 0 })
    } else {
        Tile::MovableWall(MovableWall { bullets: 0 })
    }
}

/// The wall that the generator lays on a cell with `walls` permanent walls
/// on and around it, given three rolls out of a hundred. If a wall is near
/// and `grow` meets `GROW_CHANCE`, a wall grows, of the kind that `kind`
/// picks (see `grown_wall`). Otherwise a permanent wall sprouts if `sprout`
/// meets `SPROUT_CHANCE`, and else the cell stays empty.
pub open spec fn growth(walls: int, grow: int, kind: int, sprout: int) -> Option<Tile> {
    if walls > 0 && chance_met(grow, GROW_CHANCE as int) {
        Some(grown_wall(kind))
    } else if chance_met(sprout, SPROUT_CHANCE as int) {
        Some(Tile::Wall(Wall { bullets: 0 }))
    } else {
        None
    }
}

/// The wall that the generator lays on a cell: see `growth`.
pub fn grow_wall(walls: i32, grow: i32, kind: i32, sprout: i32) -> (place: Option<Tile>)
    ensures
        place == growth(walls as int, grow as int, kind as int, sprout as int),
        place matches Some(t) ==> plain(t) && t.is_solid(),
{
    if walls > 0 && passes(grow, GROW_CHANCE) {
        Some(wall_for(kind))
    } else if passes(sprout, SPROUT_CHANCE) {
        Some(Tile::Wall(Wall { bullets: 0 }))
    } else {
        None
    }
}

/// Why an arena could not be built.
#[derive(Clone, Copy, Debug, PartialEq, Eq, Structural)]
pub enum BuildError {
    /// The tries ran out before every enemy and chest had a cell: the
    /// counts are too large for the arena.
    NoRoom,
}

/// Whether `t` is a tile as the generator lays it: empty, or a wall of
/// either kind with no bullet in it.
pub open spec fn plain(t: Tile) -> bool {
    t == Tile::Empty || t == Tile::Wall(Wall { bullets: 0 }) || t == Tile::MovableWall(
        MovableWall { bullets: 0 },
    )
}

/// Whether `(x, y)` is an interior cell of a plane of `w` by `h` cells.
pub open spec fn inner_cell(w: int, h: int, x: int, y: int) -> bool {
    1 <= x <= w - 2 && 1 <= y <= h - 2
}

/// Whether `(x, y)` lies in the zone around the centre that stays free.
pub open spec fn in_safe_zone(w: int, h: int, x: int, y: int) -> bool {
    manhattan(w / 2, h / 2, x, y) < SAFE_RADIUS
}

/// Whether the four cells next to `(x, y)` all hold a wall of either kind.
pub open spec fn enclosed(t: &MultiVec<Tile>, x: int, y: int) -> bool {
    t.at(x - 1, y).is_solid() && t.at(x + 1, y).is_solid() && t.at(x, y - 1).is_solid() && t.at(
        x,
        y + 1,
    ).is_solid()
}

/// Whether the cells to the left, above, and left above `(x, y)` all hold a
/// permanent wall.
pub open spec fn cornered(t: &MultiVec<Tile>, x: int, y: int) -> bool {
    t.at(x - 1, y - 1) is Wall && t.at(x - 1, y) is Wall && t.at(x, y - 1) is Wall
}

/// Whether the plane has `w` by `h` cells.
pub open spec fn sized(t: &MultiVec<Tile>, w: int, h: int) -> bool {
    &&& t.w == w
    &&& t.inner.len() == w * h
    &&& forall|x: int, y: int| 0 <= x < w && 0 <= y < h ==> #[trigger] t.holds(x, y)
}

/// What holds of every generated plane of `w` by `h` cells: all tiles are
/// plain, the border is permanent wall, the safe zone is empty, no
/// permanent wall is enclosed, and a cell whose left, upper and upper left
/// neighbours are all permanent walls is empty.
pub open spec fn generated(t: &MultiVec<Tile>, w: int, h: int) -> bool {
    &&& sized(t, w, h)
    &&& forall|x: int, y: int|
        0 <= x < w && 0 <= y < h ==> plain(#[trigger] t.at(x, y)) && (!inner_cell(w, h, x, y)
            ==> t.at(x, y) is Wall) && (inner_cell(w, h, x, y) && in_safe_zone(w, h, x, y)
            ==> t.at(x, y) is Empty)
    &&& forall|x: int, y: int|
        inner_cell(w, h, x, y) && (#[trigger] t.at(x, y)) is Wall ==> !enclosed(t, x, y)
    &&& forall|x: int, y: int|
        inner_cell(w, h, x, y) && cornered(t, x, y) ==> (#[trigger] t.at(x, y)) is Empty
}

/// Whether the cell `(x, y)` fits one of the zombies that an arena starts
/// with: it can be entered, and lies more than `START_CLEARANCE` steps from
/// the centre.
pub open spec fn start_fits(map: &Arena, x: int, y: int) -> bool {
    map.pass_at(x, y) && manhattan(x, y, map.w / 2, map.h / 2) > START_CLEARANCE
}

/// The cells of `map` that fit one of the zombies that an arena starts
/// with: see `start_fits`.
pub open spec fn fitting(map: &Arena) -> Set<(int, int)> {
    Set::new(|c: (int, int)| map.inside(c.0, c.1) && start_fits(map, c.0, c.1))
}

/// The cells on which an enemy stands in the arena `after` and none stood
/// in the arena `before`.
pub open spec fn newly_manned(before: &Arena, after: &Arena) -> Set<(int, int)> {
    Set::new(
        |c: (int, int)|
            before.inside(c.0, c.1) && before.enemy_at(c.0, c.1) is None && after.enemy_at(
                c.0,
                c.1,
            ) is Some,
    )
}

/// No more cells are newly manned than fit.
proof fn lemma_newly_fits(before: &Arena, after: &Arena)
    requires
        before.wf(),
        after.w == before.w,
        after.h == before.h,
        forall|x: int, y: int|
            after.inside(x, y) ==> #[trigger] after.enemy_at(x, y) == before.enemy_at(x, y)
                || start_fits(before, x, y),
    ensures
        fitting(before).finite(),
        newly_manned(before, after).finite(),
        newly_manned(before, after).len() <= fitting(before).len(),
{
    lemma_cells_finite(before.w as int, before.h as int, fitting(before));
    assert forall|c: (int, int)| newly_manned(before, after).contains(c) implies fitting(
        before,
    ).contains(c) by {
        assert(after.enemy_at(c.0, c.1) != before.enemy_at(c.0, c.1));
    }
    vstd::set_lib::lemma_set_subset_finite(fitting(before), newly_manned(before, after));
    vstd::set_lib::lemma_len_subset(newly_manned(before, after), fitting(before));
}

/// Whether an arena of `w` by `h` cells is too small for a zombie to start
/// in: every interior cell lies within `START_CLEARANCE` steps of the
/// centre.
pub open spec fn crowded(w: int, h: int) -> bool {
    forall|x: int, y: int| #[trigger]
        inner_cell(w, h, x, y) ==> manhattan(x, y, w / 2, h / 2) <= START_CLEARANCE
}

/// Whether `e` is a zombie as an arena starts with: one hit point, a number
/// from `first` on, and a first move within the first 120 ticks.
pub open spec fn first_zombie(e: Enemy, first: int) -> bool {
    &&& first <= e.uid
    &&& 0 <= e.last <= 120
    &&& e == Enemy::zombie(e.uid as int, 1, e.last as int)
}

/// Whether `t` is a chest as an arena starts with: lying since tick zero,
/// for the usual time, with loot other than `Rainbow`.
pub open spec fn first_chest(t: Tile) -> bool {
    t matches Tile::Chest(c) && c.start == 0 && c.duration == CHEST_DURATION && c.ty
        != ChestType::Rainbow
}

/// What holds of every arena that was built with `w` by `h` cells, `enemies`
/// zombies and `chests` chests: it is consistent and holds exactly these,
/// the zombies on as many cells and under different numbers;
/// its tiles are those of a generated plane, with chests on some of the
/// empty cells; its enemies are first zombies away from the centre; and a
/// cell can be entered if and only if it is empty and free of enemies.
pub open spec fn built(a: &Arena, w: int, h: int, enemies: int, chests: int) -> bool {
    &&& a.wf()
    &&& a.w == w
    &&& a.h == h
    &&& a.spawned == enemies
    &&& a.manned().finite()
    &&& a.manned().len() == enemies
    &&& a.chests@.len() == chests
    &&& a.bullets@.len() == 0
    &&& a.bombs@.len() == 0
    &&& a.turrets@.len() == 0
    &&& a.emps@.len() == 0
    &&& a.boss == (Boss { nth: 0, resp: None, pos: None })
    &&& exists|t: MultiVec<Tile>|
        #![trigger generated(&t, w, h)]
        generated(&t, w, h) && forall|x: int, y: int|
            a.inside(x, y) ==> #[trigger] a.tile_at(x, y) == t.at(x, y) || (t.at(x, y) is Empty
                && first_chest(a.tile_at(x, y)))
    &&& forall|x: int, y: int|
        a.inside(x, y) && (#[trigger] a.enemy_at(x, y)) is Some ==> manhattan(x, y, w / 2, h / 2)
            > START_CLEARANCE && first_zombie(a.enemy_at(x, y)->0, 0)
    &&& forall|x: int, y: int|
        a.inside(x, y) ==> #[trigger] a.pass_at(x, y) == (a.tile_at(x, y) is Empty && a.enemy_at(
            x,
            y,
        ) is None)
}

/// Whether `t` is a plane of `w` by `h` cells with a border of permanent
/// walls and nothing inside it.
pub open spec fn bordered(t: &MultiVec<Tile>, w: int, h: int) -> bool {
    &&& sized(t, w, h)
    &&& forall|x: int, y: int|
        0 <= x < w && 0 <= y < h ==> #[trigger] t.at(x, y) == (if inner_cell(w, h, x, y) {
            Tile::Empty
        } else {
            Tile::Wall(Wall { bullets: 0 })
        })
}

/// The wall that the generator lays on the cell `(x, y)` of the plane `t`,
/// given three rolls out of a hundred: none in the safe zone, none on a cell
/// whose left, upper and upper left neighbours are all permanent walls, and
/// else what `growth` makes of the walls counted around the cell.
pub open spec fn cell_growth(
    t: &MultiVec<Tile>,
    w: int,
    h: int,
    x: int,
    y: int,
    grow: int,
    kind: int,
    sprout: int,
) -> Option<Tile> {
    if in_safe_zone(w, h, x, y) || cornered(t, x, y) {
        None
    } else {
        growth(walls_near(t, x, y), grow, kind, sprout)
    }
}

/// Whether the plane `after` is the plane `before` with the cell `(x, y)`
/// having had its turn to grow, given three rolls out of a hundred: see
/// `cell_growth`.
pub open spec fn cell_grown(
    before: &MultiVec<Tile>,
    after: &MultiVec<Tile>,
    w: int,
    h: int,
    x: int,
    y: int,
    grow: int,
    kind: int,
    sprout: int,
) -> bool {
    &&& 0 <= grow < 100
    &&& 0 <= kind < 100
    &&& 0 <= sprout < 100
    &&& after.w == before.w
    &&& after.inner@ == (match cell_growth(before, w, h, x, y, grow, kind, sprout) {
        Some(tile) => before.inner@.update(before.offset(x, y), tile),
        None => before.inner@,
    })
}

/// Whether the plane `t1` is reached from the plane `t0` by letting the
/// cells of the column `x` from the first row up to, and without, the row
/// `y` have their turns to grow, one after the other, each with rolls of its
/// own (see `cell_grown`).
pub open spec fn column_grown(
    t0: &MultiVec<Tile>,
    w: int,
    h: int,
    x: int,
    y: int,
    t1: &MultiVec<Tile>,
) -> bool
    decreases y,
{
    if y <= 1 {
        *t1 == *t0
    } else {
        exists|t: MultiVec<Tile>, grow: int, kind: int, sprout: int|
            {
                &&& column_grown(t0, w, h, x, y - 1, &t)
                &&& #[trigger] cell_grown(&t, t1, w, h, x, y - 1, grow, kind, sprout)
            }
    }
}

/// Whether the plane `t1` is reached from the plane `t0` by letting the
/// columns from the first up to, and without, the column `x` grow, one
/// after the other, each over its interior rows (see `column_grown`).
pub open spec fn columns_grown(
    t0: &MultiVec<Tile>,
    w: int,
    h: int,
    x: int,
    t1: &MultiVec<Tile>,
) -> bool
    decreases x,
{
    if x <= 1 {
        *t1 == *t0
    } else {
        exists|t: MultiVec<Tile>|
            {
                &&& columns_grown(t0, w, h, x - 1, &t)
                &&& #[trigger] column_grown(&t, w, h, x - 1, h - 1, t1)
            }
    }
}

/// The tile of the cell `(x, y)` after the plane `rough` was tidied: a
/// permanent wall of the interior that is enclosed (see `enclosed`) becomes
/// one that can be pushed, and every other tile stays.
pub open spec fn tidy_at(rough: &MultiVec<Tile>, w: int, h: int, x: int, y: int) -> Tile {
    if inner_cell(w, h, x, y) && rough.at(x, y) is Wall && enclosed(rough, x, y) {
        Tile::MovableWall(MovableWall { bullets: 0 })
    } else {
        rough.at(x, y)
    }
}

/// Whether the plane `t` is the plane `rough` tidied: see `tidy_at`.
pub open spec fn tidied(rough: &MultiVec<Tile>, t: &MultiVec<Tile>, w: int, h: int) -> bool {
    &&& sized(t, w, h)
    &&& forall|x: int, y: int|
        0 <= x < w && 0 <= y < h ==> #[trigger] t.at(x, y) == tidy_at(rough, w, h, x, y)
}

/// Whether the plane `t` of `w` by `h` cells is laid out by way of the
/// planes `bare` and `rough`: `bare` is the border alone, `rough` is what
/// growing column after column makes of it, and `t` is `rough` tidied.
pub open spec fn laid_out(
    bare: &MultiVec<Tile>,
    rough: &MultiVec<Tile>,
    t: &MultiVec<Tile>,
    w: int,
    h: int,
) -> bool {
    &&& bordered(bare, w, h)
    &&& columns_grown(bare, w, h, w - 1, rough)
    &&& tidied(rough, t, w, h)
}

/// Whether the plane `t` of `w` by `h` cells is one that the generator
/// lays out, for some rolls: see `laid_out`.
pub open spec fn grown_from_rolls(t: &MultiVec<Tile>, w: int, h: int) -> bool {
    exists|bare: MultiVec<Tile>, rough: MultiVec<Tile>| #[trigger] laid_out(&bare, &rough, t, w, h)
}

/// Whether the cell `(x2, y2)` comes before `(x, y)` when the interior is
/// walked column by column.
pub open spec fn walked(x2: int, y2: int, x: int, y: int) -> bool {
    x2 < x || (x2 == x && y2 < y)
}

/// A plane of `w` by `h` empty tiles.
fn blank(w: i32, h: i32) -> (t: MultiVec<Tile>)
    requires
        3 <= w <= SIDE_LIMIT,
        3 <= h <= SIDE_LIMIT,
    ensures
        sized(&t, w as int, h as int),
        forall|x: int, y: int| 0 <= x < w && 0 <= y < h ==> #[trigger] t.at(x, y) is Empty,
{
    assert(w * h <= 100_000_000) by (nonlinear_arith)
        requires
            3 <= w <= 10_000,
            3 <= h <= 10_000,
    ;
    let n: usize = (w as usize) * (h as usize);
    let mut inner: Vec<Tile> = Vec::new();
    let mut i: usize = 0;
    while i < n
        invariant
            i <= n,
            inner.len() == i,
            forall|k: int| 0 <= k < i ==> inner@[k] is Empty,
        decreases n - i,
    {
        inner.push(Tile::Empty);
        i = i + 1;
    }
    let t = MultiVec { inner, w: w as usize };
    proof {
        assert forall|x: int, y: int| 0 <= x < w && 0 <= y < h implies #[trigger] t.holds(x, y) by {
            lemma_offset_inside(w as int, h as int, x, y);
        }
        assert forall|x: int, y: int| 0 <= x < w && 0 <= y < h implies #[trigger] t.at(
            x,
            y,
        ) is Empty by {
            lemma_offset_inside(w as int, h as int, x, y);
        }
    }
    t
}

/// One if the cell `(x, y)` holds a permanent wall, and else zero.
pub open spec fn wall_bit(t: &MultiVec<Tile>, x: int, y: int) -> int {
    if t.at(x, y) is Wall {
        1
    } else {
        0
    }
}

/// Number of permanent walls among the first `k` of the three cells of the
/// column `x` around the row `y`, from the top down.
pub open spec fn walls_in_column(t: &MultiVec<Tile>, x: int, y: int, k: int) -> int
    decreases k,
{
    if k <= 0 {
        0
    } else {
        walls_in_column(t, x, y, k - 1) + wall_bit(t, x, y - 2 + k)
    }
}

/// Number of permanent walls in the first `c` of the three columns around
/// the cell `(x, y)`, each taken three cells high.
pub open spec fn walls_in_columns(t: &MultiVec<Tile>, x: int, y: int, c: int) -> int
    decreases c,
{
    if c <= 0 {
        0
    } else {
        walls_in_columns(t, x, y, c - 1) + walls_in_column(t, x - 2 + c, y, 3)
    }
}

/// Number of permanent walls among the cell `(x, y)` and the eight cells
/// around it.
pub open spec fn walls_near(t: &MultiVec<Tile>, x: int, y: int) -> int {
    walls_in_columns(t, x, y, 3)
}

/// Number of permanent walls among the cell `(x, y)` and the eight cells
/// around it.
fn walls_around(t: &MultiVec<Tile>, w: i32, h: i32, x: i32, y: i32) -> (n: i32)
    requires
        sized(t, w as int, h as int),
        inner_cell(w as int, h as int, x as int, y as int),
        w <= SIDE_LIMIT,
        h <= SIDE_LIMIT,
    ensures
        n == walls_near(t, x as int, y as int),
        0 <= n <= 9,
{
    let mut n: i32 = 0;
    let mut z: i32 = -1;
    while z <= 1
        invariant
            -1 <= z <= 2,
            0 <= n <= 3 * (z + 1),
            n == walls_in_columns(t, x as int, y as int, z + 1),
            sized(t, w as int, h as int),
            inner_cell(w as int, h as int, x as int, y as int),
            w <= SIDE_LIMIT,
            h <= SIDE_LIMIT,
        decreases 2 - z,
    {
        let mut k: i32 = -1;
        while k <= 1
            invariant
                -1 <= k <= 2,
                -1 <= z <= 1,
                0 <= n <= 3 * (z + 1) + (k + 1),
                n == walls_in_columns(t, x as int, y as int, z + 1) + walls_in_column(
                    t,
                    x + z,
                    y as int,
                    k + 1,
                ),
                sized(t, w as int, h as int),
                inner_cell(w as int, h as int, x as int, y as int),
                w <= SIDE_LIMIT,
                h <= SIDE_LIMIT,
            decreases 2 - k,
        {
            assert(t.holds((x + z) as int, (y + k) as int));
            match t.get(x + z, y + k) {
                Tile::Wall(_) => {
                    n = n + 1;
                },
                _ => {},
            }
            k = k + 1;
        }
        z = z + 1;
    }
    n
}

impl Arena {
    /// Generates the walls of an arena of `w` by `h` cells: a border of
    /// permanent walls, and inside it, outside the safe zone around the
    /// centre, walls that grow next to walls. The interior is walked column
    /// by column; each cell outside the safe zone whose left, upper and upper
    /// left neighbours are not all permanent walls gets what `growth` makes
    /// of the walls counted around it and of three rolls. Then every
    /// permanent wall that is enclosed becomes one that can be pushed. Where
    /// the walls are is up to `rng`: the plane is what these steps make of
    /// some rolls (see `grown_from_rolls`), and what holds of every outcome
    /// is `generated`.
    pub fn generate(w: i32, h: i32, rng: &mut StdRng) -> (t: MultiVec<Tile>)
        requires
            3 <= w <= SIDE_LIMIT,
            3 <= h <= SIDE_LIMIT,
        ensures
            generated(&t, w as int, h as int),
            grown_from_rolls(&t, w as int, h as int),
    {
        let mut t: MultiVec<Tile> = blank(w, h);
        let wall: Tile = Tile::Wall(Wall { bullets: 0 });
        let movable: Tile = Tile::MovableWall(MovableWall { bullets: 0 });
        let mut i: i32 = 0;
        while i < w
            invariant
                0 <= i <= w,
                3 <= w <= SIDE_LIMIT,
                3 <= h <= SIDE_LIMIT,
                sized(&t, w as int, h as int),
                wall == Tile::Wall(Wall { bullets: 0 }),
                forall|x: int, y: int|
                    0 <= x < w && 0 <= y < h ==> #[trigger] t.at(x, y) == (if x < i && (y == 0 || y
                        == h - 1) {
                        wall
                    } else {
                        Tile::Empty
                    }),
            decreases w - i,
        {
            t.set(i, 0, wall);
            t.set(i, h - 1, wall);
            i = i + 1;
        }
        i = 0;
        while i < h
            invariant
                0 <= i <= h,
                3 <= w <= SIDE_LIMIT,
                3 <= h <= SIDE_LIMIT,
                sized(&t, w as int, h as int),
                wall == Tile::Wall(Wall { bullets: 0 }),
                forall|x: int, y: int|
                    0 <= x < w && 0 <= y < h ==> #[trigger] t.at(x, y) == (if (y == 0 || y == h - 1)
                        || (y < i && (x == 0 || x == w - 1)) {
                        wall
                    } else {
                        Tile::Empty
                    }),
            decreases h - i,
        {
            t.set(0, i, wall);
            t.set(w - 1, i, wall);
            i = i + 1;
        }
        let ghost bare = t;
        proof {
            assert(bordered(&bare, w as int, h as int));
        }
        let mut x: i32 = 1;
        while x < w - 1
            invariant
                1 <= x <= w - 1,
                3 <= w <= SIDE_LIMIT,
                3 <= h <= SIDE_LIMIT,
                sized(&t, w as int, h as int),
                wall == Tile::Wall(Wall { bullets: 0 }),
                movable == Tile::MovableWall(MovableWall { bullets: 0 }),
                columns_grown(&bare, w as int, h as int, x as int, &t),
                forall|x2: int, y2: int|
                    0 <= x2 < w && 0 <= y2 < h ==> plain(#[trigger] t.at(x2, y2)) && (!inner_cell(
                        w as int,
                        h as int,
                        x2,
                        y2,
                    ) ==> t.at(x2, y2) is Wall) && (inner_cell(w as int, h as int, x2, y2) && (
                    in_safe_zone(w as int, h as int, x2, y2) || !walked(x2, y2, x as int, 1))
                        ==> t.at(x2, y2) is Empty),
                forall|x2: int, y2: int|
                    inner_cell(w as int, h as int, x2, y2) && walked(x2, y2, x as int, 1)
                        && cornered(&t, x2, y2) ==> (#[trigger] t.at(x2, y2)) is Empty,
            decreases w - x,
        {
            let ghost col = t;
            let mut y: i32 = 1;
            while y < h - 1
                invariant
                    1 <= x < w - 1,
                    1 <= y <= h - 1,
                    3 <= w <= SIDE_LIMIT,
                    3 <= h <= SIDE_LIMIT,
                    sized(&t, w as int, h as int),
                    wall == Tile::Wall(Wall { bullets: 0 }),
                    movable == Tile::MovableWall(MovableWall { bullets: 0 }),
                    column_grown(&col, w as int, h as int, x as int, y as int, &t),
                    forall|x2: int, y2: int|
                        0 <= x2 < w && 0 <= y2 < h ==> plain(#[trigger] t.at(x2, y2)) && (
                        !inner_cell(w as int, h as int, x2, y2) ==> t.at(x2, y2) is Wall) && (
                        inner_cell(w as int, h as int, x2, y2) && (in_safe_zone(
                            w as int,
                            h as int,
                            x2,
                            y2,
                        ) || !walked(x2, y2, x as int, y as int)) ==> t.at(x2, y2) is Empty),
                    forall|x2: int, y2: int|
                        inner_cell(w as int, h as int, x2, y2) && walked(x2, y2, x as int, y as int)
                            && cornered(&t, x2, y2) ==> (#[trigger] t.at(x2, y2)) is Empty,
                decreases h - y,
            {
                let ghost before = t;
                let ghost mut rolls: (int, int, int) = (0, 0, 0);
                let mut place: Option<Tile> = None;
                if dist(w / 2, h / 2, x, y) >= SAFE_RADIUS {
                    let cornered_here: bool = matches!(t.get(x - 1, y - 1), Tile::Wall(_))
                        && matches!(t.get(x - 1, y), Tile::Wall(_)) && matches!(
                        t.get(x, y - 1),
                        Tile::Wall(_)
                    );
                    if !cornered_here {
                        let walls: i32 = walls_around(&t, w, h, x, y);
                        let grow: i32 = roll(rng, 0, 100);
                        let kind: i32 = roll(rng, 0, 100);
                        let sprout: i32 = roll(rng, 0, 100);
                        place = grow_wall(walls, grow, kind, sprout);
                        proof {
                            rolls = (grow as int, kind as int, sprout as int);
                        }
                    }
                }
                match place {
                    Some(tile) => {
                        t.set(x, y, tile);
                    },
                    None => {},
                }
                proof {
                    assert(before.holds(x - 1, y - 1) && before.holds(x - 1, y as int)
                        && before.holds(x as int, y - 1));
                    assert(place == cell_growth(
                        &before,
                        w as int,
                        h as int,
                        x as int,
                        y as int,
                        rolls.0,
                        rolls.1,
                        rolls.2,
                    ));
                    assert(column_grown(&col, w as int, h as int, x as int, y + 1 - 1, &before));
                    assert(cell_grown(
                        &before,
                        &t,
                        w as int,
                        h as int,
                        x as int,
                        y + 1 - 1,
                        rolls.0,
                        rolls.1,
                        rolls.2,
                    ));
                    assert(column_grown(&col, w as int, h as int, x as int, y + 1, &t));
                    assert forall|x2: int, y2: int|
                        inner_cell(w as int, h as int, x2, y2) && walked(
                            x2,
                            y2,
                            x as int,
                            y as int + 1,
                        ) && cornered(&t, x2, y2) implies (#[trigger] t.at(x2, y2)) is Empty by {
                        assert(before.holds(x2 - 1, y2 - 1));
                        assert(before.holds(x2 - 1, y2));
                        assert(before.holds(x2, y2 - 1));
                        assert(before.holds(x2, y2));
                        if x2 == x && y2 == y {
                        } else {
                            assert(cornered(&before, x2, y2));
                        }
                    }
                }
                y = y + 1;
            }
            proof {
                assert(columns_grown(&bare, w as int, h as int, x + 1 - 1, &col));
                assert(column_grown(&col, w as int, h as int, x + 1 - 1, h - 1, &t));
                assert(columns_grown(&bare, w as int, h as int, x + 1, &t));
            }
            x = x + 1;
        }
        let ghost rough = t;
        x = 1;
        while x < w - 1
            invariant
                1 <= x <= w - 1,
                3 <= w <= SIDE_LIMIT,
                3 <= h <= SIDE_LIMIT,
                sized(&t, w as int, h as int),
                sized(&rough, w as int, h as int),
                movable == Tile::MovableWall(MovableWall { bullets: 0 }),
                forall|x2: int, y2: int|
                    0 <= x2 < w && 0 <= y2 < h ==> plain(#[trigger] t.at(x2, y2)) && (!inner_cell(
                        w as int,
                        h as int,
                        x2,
                        y2,
                    ) ==> t.at(x2, y2) is Wall) && (inner_cell(w as int, h as int, x2, y2)
                        && in_safe_zone(w as int, h as int, x2, y2) ==> t.at(x2, y2) is Empty),
                forall|x2: int, y2: int|
                    0 <= x2 < w && 0 <= y2 < h ==> (#[trigger] t.at(x2, y2)).is_solid() == rough.at(
                        x2,
                        y2,
                    ).is_solid() && (t.at(x2, y2) is Wall ==> rough.at(x2, y2) is Wall),
                forall|x2: int, y2: int|
                    inner_cell(w as int, h as int, x2, y2) && cornered(&rough, x2, y2) ==> (
                    #[trigger] rough.at(x2, y2)) is Empty,
                forall|x2: int, y2: int|
                    inner_cell(w as int, h as int, x2, y2) && walked(x2, y2, x as int, 1) && (
                    #[trigger] t.at(x2, y2)) is Wall ==> !enclosed(&rough, x2, y2),
                forall|x2: int, y2: int|
                    0 <= x2 < w && 0 <= y2 < h ==> #[trigger] t.at(x2, y2) == (if walked(
                        x2,
                        y2,
                        x as int,
                        1,
                    ) {
                        tidy_at(&rough, w as int, h as int, x2, y2)
                    } else {
                        rough.at(x2, y2)
                    }),
            decreases w - x,
        {
            let mut y: i32 = 1;
            while y < h - 1
                invariant
                    1 <= x < w - 1,
                    1 <= y <= h - 1,
                    3 <= w <= SIDE_LIMIT,
                    3 <= h <= SIDE_LIMIT,
                    sized(&t, w as int, h as int),
                    sized(&rough, w as int, h as int),
                    movable == Tile::MovableWall(MovableWall { bullets: 0 }),
                    forall|x2: int, y2: int|
                        0 <= x2 < w && 0 <= y2 < h ==> plain(#[trigger] t.at(x2, y2)) && (
                        !inner_cell(w as int, h as int, x2, y2) ==> t.at(x2, y2) is Wall) && (
                        inner_cell(w as int, h as int, x2, y2) && in_safe_zone(
                            w as int,
                            h as int,
                            x2,
                            y2,
                        ) ==> t.at(x2, y2) is Empty),
                    forall|x2: int, y2: int|
                        0 <= x2 < w && 0 <= y2 < h ==> (#[trigger] t.at(x2, y2)).is_solid()
                            == rough.at(x2, y2).is_solid() && (t.at(x2, y2) is Wall ==> rough.at(
                            x2,
                            y2,
                        ) is Wall),
                    forall|x2: int, y2: int|
                        inner_cell(w as int, h as int, x2, y2) && cornered(&rough, x2, y2) ==> (
                        #[trigger] rough.at(x2, y2)) is Empty,
                    forall|x2: int, y2: int|
                        inner_cell(w as int, h as int, x2, y2) && walked(x2, y2, x as int, y as int)
                            && (#[trigger] t.at(x2, y2)) is Wall ==> !enclosed(&rough, x2, y2),
                    forall|x2: int, y2: int|
                        0 <= x2 < w && 0 <= y2 < h ==> #[trigger] t.at(x2, y2) == (if walked(
                            x2,
                            y2,
                            x as int,
                            y as int,
                        ) {
                            tidy_at(&rough, w as int, h as int, x2, y2)
                        } else {
                            rough.at(x2, y2)
                        }),
                decreases h - y,
            {
                let boxed: bool = matches!(
                    t.get(x - 1, y),
                    Tile::Wall(_) | Tile::MovableWall(_)
                ) && matches!(t.get(x + 1, y), Tile::Wall(_) | Tile::MovableWall(_)) && matches!(
                    t.get(x, y - 1),
                    Tile::Wall(_) | Tile::MovableWall(_)
                ) && matches!(t.get(x, y + 1), Tile::Wall(_) | Tile::MovableWall(_));
                if boxed && matches!(t.get(x, y), Tile::Wall(_)) {
                    t.set(x, y, movable);
                }
                proof {
                    assert(t.holds(x - 1, y as int) && t.holds(x + 1, y as int) && t.holds(
                        x as int,
                        y - 1,
                    ) && t.holds(x as int, y + 1));
                }
                y = y + 1;
            }
            x = x + 1;
        }
        proof {
            assert forall|x2: int, y2: int|
                inner_cell(w as int, h as int, x2, y2) && (#[trigger] t.at(x2, y2)) is Wall implies !enclosed(
                &t,
                x2,
                y2,
            ) by {
                assert(t.holds(x2 - 1, y2) && t.holds(x2 + 1, y2) && t.holds(x2, y2 - 1) && t.holds(
                    x2,
                    y2 + 1,
                ));
            }
            assert forall|x2: int, y2: int|
                inner_cell(w as int, h as int, x2, y2) && cornered(&t, x2, y2) implies (
            #[trigger] t.at(x2, y2)) is Empty by {
                assert(t.holds(x2 - 1, y2 - 1) && t.holds(x2 - 1, y2) && t.holds(x2, y2 - 1)
                    && t.holds(x2, y2));
                assert(cornered(&rough, x2, y2));
                assert(rough.at(x2, y2) is Empty);
            }
            assert(tidied(&rough, &t, w as int, h as int));
            assert(laid_out(&bare, &rough, &t, w as int, h as int));
        }
        t
    }

    /// Whether the cell `(x, y)` fits one of the zombies that an arena
    /// starts with: see `start_fits`.
    pub fn fits_start(&self, x: i32, y: i32) -> (b: bool)
        requires
            self.wf(),
            self.inside(x as int, y as int),
        ensures
            b == start_fits(self, x as int, y as int),
    {
        self.passable(x, y) && dist(x, y, self.w / 2, self.h / 2) > START_CLEARANCE
    }

    /// Puts one of the zombies that an arena starts with on the cell
    /// `(x, y)`, if an enemy number is left and the cell fits (see
    /// `start_fits`): the zombie gets the next number and one hit point, and
    /// made its last move at `last`. Otherwise nothing happens. Returns
    /// whether the zombie was put there.
    pub fn start_zombie_at(&mut self, x: i32, y: i32, last: i32) -> (placed: bool)
        requires
            old(self).wf(),
            old(self).inside(x as int, y as int),
            0 <= last <= 120,
        ensures
            final(self).wf(),
            placed == (old(self).spawned < COUNT_LIMIT && start_fits(old(self), x as int, y as int)),
            placed ==> crate::enemy::enemy_added(
                old(self),
                final(self),
                x as int,
                y as int,
                Enemy::zombie(old(self).spawned as int, 1, last as int),
            ),
            !placed ==> *final(self) == *old(self),
    {
        if self.spawned < COUNT_LIMIT && self.fits_start(x, y) {
            let e = Enemy {
                uid: self.spawned,
                hp: 1,
                mhp: 1,
                last,
                cd: ZOMBIE_COOLDOWN,
                slowed: 0,
                immobilized: false,
                ty: EnemyType::Zombie,
            };
            add_enemy(self, x, y, e);
            true
        } else {
            false
        }
    }

    /// Lays one of the chests that an arena starts with, with the loot `ty`,
    /// on the cell `(x, y)` if the cell can be entered: the chest lies since
    /// tick zero for the usual time. Otherwise nothing happens. Returns
    /// whether the chest was laid.
    pub fn start_chest_at(&mut self, x: i32, y: i32, ty: ChestType) -> (placed: bool)
        requires
            old(self).wf(),
            old(self).inside(x as int, y as int),
        ensures
            final(self).wf(),
            placed == old(self).pass_at(x as int, y as int),
            placed ==> crate::chest::chest_laid(
                old(self),
                final(self),
                x as int,
                y as int,
                (Chest { start: 0, duration: CHEST_DURATION, ty }),
            ),
            !placed ==> *final(self) == *old(self),
    {
        if self.passable(x, y) {
            self.place_chest(x, y, Chest { start: 0, duration: CHEST_DURATION, ty });
            true
        } else {
            false
        }
    }

    /// Scatters `n` zombies with one hit point over cells that can be
    /// entered and lie more than `START_CLEARANCE` steps from the centre.
    /// For each zombie cells are tried until one fits or `PLACEMENT_TRIES`
    /// cells were tried; the scattering stops at the first zombie that finds
    /// no cell, or when no enemy number is left. Returns whether all `n`
    /// were placed.
    ///
    /// Each zombie placed mans a cell of its own that fitted, so no more are
    /// placed than cells fit (see `fitting`): with fewer than `n` such
    /// cells the scattering fails.
    pub fn spawn_enemies(&mut self, n: i32, rng: &mut StdRng) -> (done: bool)
        requires
            old(self).wf(),
            0 <= n,
        ensures
            final(self).wf(),
            final(self).tiles == old(self).tiles,
            final(self).chests == old(self).chests,
            final(self).bullets == old(self).bullets,
            final(self).bombs == old(self).bombs,
            final(self).turrets == old(self).turrets,
            final(self).emps == old(self).emps,
            final(self).boss == old(self).boss,
            final(self).w == old(self).w,
            final(self).h == old(self).h,
            old(self).spawned <= final(self).spawned <= old(self).spawned + n,
            done == (final(self).spawned == old(self).spawned + n),
            final(self).spawned > old(self).spawned ==> exists|x: int, y: int|
                old(self).inside(x, y) && #[trigger] start_fits(old(self), x, y),
            newly_manned(old(self), final(self)).finite(),
            newly_manned(old(self), final(self)).len() == final(self).spawned - old(self).spawned,
            fitting(old(self)).finite(),
            final(self).spawned - old(self).spawned <= fitting(old(self)).len(),
            forall|x: int, y: int|
                final(self).inside(x, y) ==> #[trigger] final(self).enemy_at(x, y) == old(
                    self,
                ).enemy_at(x, y) || (old(self).pass_at(x, y) && manhattan(
                    x,
                    y,
                    old(self).w / 2,
                    old(self).h / 2,
                ) > START_CLEARANCE && final(self).enemy_at(x, y) is Some && first_zombie(
                    final(self).enemy_at(x, y)->0,
                    old(self).spawned as int,
                )),
            forall|x: int, y: int|
                final(self).inside(x, y) ==> #[trigger] final(self).pass_at(x, y) == (old(
                    self,
                ).pass_at(x, y) && final(self).enemy_at(x, y) is None),
    {
        proof {
            assert(newly_manned(old(self), self) =~= Set::empty());
        }
        let mut i: i32 = 0;
        while i < n
            invariant
                0 <= i <= n,
                self.wf(),
                self.tiles == old(self).tiles,
                self.chests == old(self).chests,
                self.bullets == old(self).bullets,
                self.bombs == old(self).bombs,
                self.turrets == old(self).turrets,
                self.emps == old(self).emps,
                self.boss == old(self).boss,
                self.w == old(self).w,
                self.h == old(self).h,
                self.spawned == old(self).spawned + i,
                self.spawned > old(self).spawned ==> exists|x: int, y: int|
                    old(self).inside(x, y) && #[trigger] start_fits(old(self), x, y),
                old(self).wf(),
                newly_manned(old(self), self).finite(),
                newly_manned(old(self), self).len() == i,
                forall|x: int, y: int|
                    self.inside(x, y) ==> #[trigger] self.enemy_at(x, y) == old(self).enemy_at(x, y)
                        || (old(self).pass_at(x, y) && manhattan(
                        x,
                        y,
                        old(self).w / 2,
                        old(self).h / 2,
                    ) > START_CLEARANCE && self.enemy_at(x, y) is Some && first_zombie(
                        self.enemy_at(x, y)->0,
                        old(self).spawned as int,
                    )),
                forall|x: int, y: int|
                    self.inside(x, y) ==> #[trigger] self.pass_at(x, y) == (old(self).pass_at(x, y)
                        && self.enemy_at(x, y) is None),
            decreases n - i,
        {
            if self.spawned >= COUNT_LIMIT {
                proof {
                    lemma_newly_fits(old(self), self);
                }
                return false;
            }
            let mut placed: bool = false;
            let mut tries: u32 = 0;
            let ghost before = *self;
            while !placed && tries < PLACEMENT_TRIES
                invariant
                    0 <= i < n,
                    tries <= PLACEMENT_TRIES,
                    before.wf(),
                    self.wf(),
                    !placed ==> *self == before,
                    before.spawned < COUNT_LIMIT,
                    placed ==> exists|x: int, y: int|
                        {
                            &&& before.inside(x, y)
                            &&& before.pass_at(x, y)
                            &&& manhattan(x, y, before.w / 2, before.h / 2) > START_CLEARANCE
                            &&& self.enemy_at(x, y) is Some
                            &&& first_zombie(self.enemy_at(x, y)->0, before.spawned as int)
                            &&& #[trigger] crate::enemy::enemy_added(
                                &before,
                                self,
                                x,
                                y,
                                self.enemy_at(x, y)->0,
                            )
                        },
                decreases (if placed { 0 } else { PLACEMENT_TRIES - tries + 1 }),
            {
                let x: i32 = roll(rng, 0, self.w);
                let y: i32 = roll(rng, 0, self.h);
                if self.fits_start(x, y) {
                    let last: i32 = roll(rng, 0, 121);
                    placed = self.start_zombie_at(x, y, last);
                    assert(crate::enemy::enemy_added(
                        &before,
                        self,
                        x as int,
                        y as int,
                        self.enemy_at(x as int, y as int)->0,
                    ));
                } else {
                    tries = tries + 1;
                }
            }
            if !placed {
                proof {
                    lemma_newly_fits(old(self), self);
                }
                return false;
            }
            proof {
                let (x, y) = choose|x: int, y: int|
                    {
                        &&& before.inside(x, y)
                        &&& before.pass_at(x, y)
                        &&& manhattan(x, y, before.w / 2, before.h / 2) > START_CLEARANCE
                        &&& self.enemy_at(x, y) is Some
                        &&& first_zombie(self.enemy_at(x, y)->0, before.spawned as int)
                        &&& #[trigger] crate::enemy::enemy_added(
                            &before,
                            self,
                            x,
                            y,
                            self.enemy_at(x, y)->0,
                        )
                    };
                assert(old(self).pass_at(x, y));
                assert(start_fits(old(self), x, y));
                assert(newly_manned(old(self), self) =~= newly_manned(old(self), &before).insert(
                    (x, y),
                )) by {
                    assert forall|c: (int, int)|
                        newly_manned(old(self), self).contains(c) == newly_manned(
                            old(self),
                            &before,
                        ).insert((x, y)).contains(c) by {
                        if !(c.0 == x && c.1 == y) && old(self).inside(c.0, c.1) {
                            assert(self.enemy_at(c.0, c.1) == before.enemy_at(c.0, c.1));
                        }
                    }
                }
                assert(!newly_manned(old(self), &before).contains((x, y)));
            }
            i = i + 1;
        }
        proof {
            lemma_newly_fits(old(self), self);
        }
        true
    }

    /// Scatters `n` chests with random loot over cells that can be entered.
    /// For each chest cells are tried until one fits or `PLACEMENT_TRIES`
    /// cells were tried; the scattering stops at the first chest that finds
    /// no cell. Returns whether all `n` were placed.
    pub fn spawn_chests(&mut self, n: i32, rng: &mut StdRng) -> (done: bool)
        requires
            old(self).wf(),
            0 <= n,
        ensures
            final(self).wf(),
            final(self).enemies == old(self).enemies,
            final(self).bullets == old(self).bullets,
            final(self).bombs == old(self).bombs,
            final(self).turrets == old(self).turrets,
            final(self).emps == old(self).emps,
            final(self).boss == old(self).boss,
            final(self).spawned == old(self).spawned,
            final(self).w == old(self).w,
            final(self).h == old(self).h,
            old(self).chests@.len() <= final(self).chests@.len() <= old(self).chests@.len() + n,
            done == (final(self).chests@.len() == old(self).chests@.len() + n),
            final(self).chests@.subrange(0, old(self).chests@.len() as int) == old(self).chests@,
            forall|x: int, y: int|
                final(self).inside(x, y) ==> #[trigger] final(self).tile_at(x, y) == old(
                    self,
                ).tile_at(x, y) || (old(self).pass_at(x, y) && first_chest(
                    final(self).tile_at(x, y),
                )),
            forall|x: int, y: int|
                final(self).inside(x, y) ==> #[trigger] final(self).pass_at(x, y) == (old(
                    self,
                ).pass_at(x, y) && final(self).tile_at(x, y) is Empty),
    {
        let mut i: i32 = 0;
        while i < n
            invariant
                0 <= i <= n,
                self.wf(),
                self.enemies == old(self).enemies,
                self.bullets == old(self).bullets,
                self.bombs == old(self).bombs,
                self.turrets == old(self).turrets,
                self.emps == old(self).emps,
                self.boss == old(self).boss,
                self.spawned == old(self).spawned,
                self.w == old(self).w,
                self.h == old(self).h,
                self.chests@.len() == old(self).chests@.len() + i,
                self.chests@.subrange(0, old(self).chests@.len() as int) == old(self).chests@,
                forall|x: int, y: int|
                    self.inside(x, y) ==> #[trigger] self.tile_at(x, y) == old(self).tile_at(x, y)
                        || (old(self).pass_at(x, y) && first_chest(self.tile_at(x, y))),
                forall|x: int, y: int|
                    self.inside(x, y) ==> #[trigger] self.pass_at(x, y) == (old(self).pass_at(x, y)
                        && self.tile_at(x, y) is Empty),
            decreases n - i,
        {
            let mut placed: bool = false;
            let mut tries: u32 = 0;
            let ghost before = *self;
            while !placed && tries < PLACEMENT_TRIES
                invariant
                    0 <= i < n,
                    tries <= PLACEMENT_TRIES,
                    before.wf(),
                    self.wf(),
                    !placed ==> *self == before,
                    placed ==> exists|x: int, y: int|
                        {
                            &&& before.inside(x, y)
                            &&& before.pass_at(x, y)
                            &&& first_chest(self.tile_at(x, y))
                            &&& #[trigger] crate::chest::chest_laid(
                                &before,
                                self,
                                x,
                                y,
                                self.tile_at(x, y)->Chest_0,
                            )
                        },
                decreases (if placed { 0 } else { PLACEMENT_TRIES - tries + 1 }),
            {
                let x: i32 = roll(rng, 0, self.w);
                let y: i32 = roll(rng, 0, self.h);
                if self.passable(x, y) {
                    let ty: ChestType = ChestType::random(rng);
                    placed = self.start_chest_at(x, y, ty);
                    assert(crate::chest::chest_laid(
                        &before,
                        self,
                        x as int,
                        y as int,
                        self.tile_at(x as int, y as int)->Chest_0,
                    ));
                } else {
                    tries = tries + 1;
                }
            }
            if !placed {
                return false;
            }
            proof {
                assert(self.chests@.subrange(0, old(self).chests@.len() as int)
                    =~= before.chests@.subrange(0, old(self).chests@.len() as int));
            }
            i = i + 1;
        }
        true
    }

    /// Builds an arena of `w` by `h` cells: generates its walls, and
    /// scatters `enemies` zombies and then `chests` chests over it. Fails
    /// with `NoRoom` if one of them finds no cell within its tries.
    ///
    /// An arena without zombies and chests is always built. The building
    /// always fails if there are more zombies than enemy numbers, if a
    /// zombie is asked for and the arena is too small for one (see
    /// `crowded`), and if there are more chests than interior cells. In
    /// every other case the rolls decide.
    pub fn build(w: i32, h: i32, enemies: i32, chests: i32, rng: &mut StdRng) -> (r: Result<
        Arena,
        BuildError,
    >)
        requires
            3 <= w <= SIDE_LIMIT,
            3 <= h <= SIDE_LIMIT,
            0 <= enemies,
            0 <= chests,
        ensures
            r matches Ok(a) ==> built(&a, w as int, h as int, enemies as int, chests as int),
            enemies == 0 && chests == 0 ==> r is Ok,
            enemies > COUNT_LIMIT ==> r is Err,
            enemies > 0 && crowded(w as int, h as int) ==> r is Err,
            chests > (w - 2) * (h - 2) ==> r is Err,
    {
        let tiles: MultiVec<Tile> = Arena::generate(w, h, rng);
        let ghost plan = tiles;
        let n: usize = tiles.inner.len();
        let mut pass: Vec<bool> = Vec::new();
        let mut occupants: Vec<Option<Enemy>> = Vec::new();
        let mut i: usize = 0;
        while i < n
            invariant
                i <= n,
                n == tiles.inner.len(),
                pass.len() == i,
                occupants.len() == i,
                forall|k: int| 0 <= k < i ==> pass@[k] == (tiles.inner@[k] is Empty),
                forall|k: int| 0 <= k < i ==> occupants@[k] is None,
            decreases n - i,
        {
            pass.push(matches!(tiles.inner[i], Tile::Empty));
            occupants.push(None);
            i = i + 1;
        }
        let mut a = Arena {
            bullets: Vec::new(),
            pass: MultiVec { inner: pass, w: w as usize },
            enemies: MultiVec { inner: occupants, w: w as usize },
            tiles,
            bombs: Vec::new(),
            turrets: Vec::new(),
            emps: Vec::new(),
            chests: VecDeque::new(),
            boss: Boss { nth: 0, resp: None, pos: None },
            spawned: 0,
            w,
            h,
        };
        proof {
            assert forall|x: int, y: int| a.inside(x, y) implies #[trigger] a.pass_at(x, y) == (
            a.tile_at(x, y) is Empty) by {
                lemma_offset_inside(w as int, h as int, x, y);
            }
            assert forall|x: int, y: int| a.inside(x, y) implies (#[trigger] a.enemy_at(
                x,
                y,
            )) is None by {
                lemma_offset_inside(w as int, h as int, x, y);
            }
            assert forall|x: int, y: int| a.inside(x, y) implies plain(#[trigger] a.tiles.at(x, y))
                && (!inner_cell(w as int, h as int, x, y) ==> a.tiles.at(x, y) is Wall) by {
                assert(plain(plan.at(x, y)));
            }
            assert(a.cells_ok());
            assert(a.chests_ok());
        }
        let ghost bare = a;
        if !a.spawn_enemies(enemies, rng) {
            return Err(BuildError::NoRoom);
        }
        let ghost manned = a;
        if !a.spawn_chests(chests, rng) {
            return Err(BuildError::NoRoom);
        }
        proof {
            assert forall|x: int, y: int| a.inside(x, y) implies a.tile_at(x, y) == plan.at(x, y)
                || (plan.at(x, y) is Empty && first_chest(a.tile_at(x, y))) by {
                assert(manned.tile_at(x, y) == plan.at(x, y));
                assert(manned.pass_at(x, y) ==> plan.at(x, y) is Empty);
            }
            assert forall|x: int, y: int|
                a.inside(x, y) && (#[trigger] a.enemy_at(x, y)) is Some implies manhattan(
                x,
                y,
                w / 2,
                h / 2,
            ) > START_CLEARANCE && first_zombie(a.enemy_at(x, y)->0, 0) by {
                assert(bare.enemy_at(x, y) is None);
                assert(manned.enemy_at(x, y) == a.enemy_at(x, y));
            }
            assert forall|x: int, y: int| a.inside(x, y) implies #[trigger] a.pass_at(x, y) == (
            a.tile_at(x, y) is Empty && a.enemy_at(x, y) is None) by {
                lemma_offset_inside(w as int, h as int, x, y);
                assert(bare.pass_at(x, y) == (plan.at(x, y) is Empty));
                assert(manned.pass_at(x, y) == (bare.pass_at(x, y) && manned.enemy_at(
                    x,
                    y,
                ) is None));
                assert(manned.tile_at(x, y) == plan.at(x, y));
                assert(a.enemy_at(x, y) == manned.enemy_at(x, y));
            }
            assert(generated(&plan, w as int, h as int));
            assert(a.spawned == enemies);
            assert(a.manned() =~= newly_manned(&bare, &manned)) by {
                assert forall|c: (int, int)|
                    a.manned().contains(c) == newly_manned(&bare, &manned).contains(c) by {
                    if a.inside(c.0, c.1) {
                        assert(bare.enemy_at(c.0, c.1) is None);
                        assert(manned.enemy_at(c.0, c.1) == a.enemy_at(c.0, c.1));
                    }
                }
            }
            assert(a.chests@.len() == chests);
            a.lemma_chests_fit();
            if enemies > 0 {
                let (x, y) = choose|x: int, y: int|
                    bare.inside(x, y) && #[trigger] start_fits(&bare, x, y);
                assert(bare.interior(x, y));
                assert(inner_cell(w as int, h as int, x, y));
            }
        }
        Ok(a)
    }

    /// Builds the standard arena: 400 by 400 cells, 1024 zombies and 480
    /// chests.
    pub fn new(rng: &mut StdRng) -> (r: Result<Arena, BuildError>)
        ensures
            r matches Ok(a) ==> built(
                &a,
                STANDARD_SIDE as int,
                STANDARD_SIDE as int,
                STANDARD_ENEMIES as int,
                STANDARD_CHESTS as int,
            ),
    {
        Arena::build(STANDARD_SIDE, STANDARD_SIDE, STANDARD_ENEMIES, STANDARD_CHESTS, rng)
    }
}

} // verus!
