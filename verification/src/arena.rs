//! The arena: the tile plane with its passability and occupancy planes, and
//! the collections of everything that lives on it.

use crate::bomb::Bomb;
use crate::bullet::Bullet;
use crate::emp::Emp;
use crate::enemy::Enemy;
use crate::grid::{lemma_offset_inside, MultiVec};
use crate::stat::{COUNT_LIMIT, SPAN_LIMIT, STAMP_LIMIT};
use crate::tile::Tile;
use crate::turret::Turret;
use crate::util::Position;
use std::collections::VecDeque;
use vstd::prelude::*;

verus! {

/// Largest width and height of an arena.
pub const SIDE_LIMIT: i32 = 10_000;

/// The boss tracker: how many bosses appeared, when the last one did, and
/// where the live one stands.
#[derive(Clone, Copy, Debug, PartialEq, Eq, Structural)]
pub struct Boss {
    pub nth: i32,
    pub resp: Option<i32>,
    pub pos: Option<Position>,
}

/// The arena and all that lives on it.
#[derive(Debug)]
pub struct Arena {
    pub bullets: Vec<Bullet>,
    pub pass: MultiVec<bool>,
    pub enemies: MultiVec<Option<Enemy>>,
    pub tiles: MultiVec<Tile>,
    pub bombs: Vec<Bomb>,
    pub turrets: Vec<Turret>,
    pub emps: Vec<Emp>,
    pub chests: VecDeque<(i32, i32)>,
    pub boss: Boss,
    pub spawned: i32,
    pub w: i32,
    pub h: i32,
}

/// In a plane of `w` columns and `w * h` cells, an offset below `w * h`
/// belongs to a row below `h`.
proof fn lemma_row_inside(w: int, h: int, x: int, y: int)
    requires
        0 <= x < w,
        0 <= y,
        y * w + x < w * h,
    ensures
        y < h,
{
    if y >= h {
        assert(y * w >= h * w) by (nonlinear_arith)
            requires
                y >= h,
                w > 0,
        ;
        assert(h * w == w * h) by (nonlinear_arith);
    }
}

/// The number of the enemy on the cell `(x, y)` of the plane `plane`, or
/// `-1` if there is none.
pub open spec fn uid_in(plane: &MultiVec<Option<Enemy>>, x: int, y: int) -> int {
    match plane.at(x, y) {
        Some(e) => e.uid as int,
        None => -1,
    }
}

/// Whether no two cells of the plane `plane` of `w` by `h` cells hold
/// enemies with the same number.
pub open spec fn distinct_uids(plane: &MultiVec<Option<Enemy>>, w: int, h: int) -> bool {
    forall|x1: int, y1: int, x2: int, y2: int|
        #![trigger uid_in(plane, x1, y1), uid_in(plane, x2, y2)]
        0 <= x1 < w && 0 <= y1 < h && 0 <= x2 < w && 0 <= y2 < h && uid_in(plane, x1, y1) >= 0
            && uid_in(plane, x1, y1) == uid_in(plane, x2, y2) ==> x1 == x2 && y1 == y2
}

/// Whether no cell of the plane `plane` of `w` by `h` cells holds an enemy
/// with the number `uid`.
pub open spec fn lacks_uid(plane: &MultiVec<Option<Enemy>>, w: int, h: int, uid: int) -> bool {
    forall|x: int, y: int| 0 <= x < w && 0 <= y < h ==> #[trigger] uid_in(plane, x, y) != uid
}

/// A plane stays free of double numbers when a cell is emptied, and the
/// number of the enemy that stood there is on no cell any more.
pub proof fn lemma_uids_cleared(
    was: &MultiVec<Option<Enemy>>,
    now: &MultiVec<Option<Enemy>>,
    w: int,
    h: int,
    x: int,
    y: int,
)
    requires
        distinct_uids(was, w, h),
        0 <= x < w && 0 <= y < h,
        now.at(x, y) is None,
        forall|x2: int, y2: int|
            0 <= x2 < w && 0 <= y2 < h && !(x2 == x && y2 == y) ==> #[trigger] now.at(x2, y2)
                == was.at(x2, y2),
    ensures
        distinct_uids(now, w, h),
        uid_in(was, x, y) >= 0 ==> lacks_uid(now, w, h, uid_in(was, x, y)),
{
    assert forall|x1: int, y1: int, x2: int, y2: int|
        #![trigger uid_in(now, x1, y1), uid_in(now, x2, y2)]
        0 <= x1 < w && 0 <= y1 < h && 0 <= x2 < w && 0 <= y2 < h && uid_in(now, x1, y1) >= 0
            && uid_in(now, x1, y1) == uid_in(now, x2, y2) implies x1 == x2 && y1 == y2 by {
        assert(uid_in(was, x1, y1) == uid_in(now, x1, y1));
        assert(uid_in(was, x2, y2) == uid_in(now, x2, y2));
    }
    if uid_in(was, x, y) >= 0 {
        assert forall|x2: int, y2: int| 0 <= x2 < w && 0 <= y2 < h implies #[trigger] uid_in(
            now,
            x2,
            y2,
        ) != uid_in(was, x, y) by {
            if !(x2 == x && y2 == y) {
                assert(uid_in(was, x2, y2) == uid_in(now, x2, y2));
            }
        }
    }
}

/// A plane stays free of double numbers when the cell `(x, y)` takes an
/// enemy whose number no other cell holds.
pub proof fn lemma_uids_put(
    was: &MultiVec<Option<Enemy>>,
    now: &MultiVec<Option<Enemy>>,
    w: int,
    h: int,
    x: int,
    y: int,
)
    requires
        distinct_uids(was, w, h),
        0 <= x < w && 0 <= y < h,
        forall|x2: int, y2: int|
            0 <= x2 < w && 0 <= y2 < h && !(x2 == x && y2 == y) ==> #[trigger] now.at(x2, y2)
                == was.at(x2, y2),
        forall|x2: int, y2: int|
            0 <= x2 < w && 0 <= y2 < h && !(x2 == x && y2 == y) ==> #[trigger] uid_in(was, x2, y2)
                != uid_in(now, x, y),
    ensures
        distinct_uids(now, w, h),
{
    assert forall|x1: int, y1: int, x2: int, y2: int|
        #![trigger uid_in(now, x1, y1), uid_in(now, x2, y2)]
        0 <= x1 < w && 0 <= y1 < h && 0 <= x2 < w && 0 <= y2 < h && uid_in(now, x1, y1) >= 0
            && uid_in(now, x1, y1) == uid_in(now, x2, y2) implies x1 == x2 && y1 == y2 by {
        if !(x1 == x && y1 == y) {
            assert(uid_in(was, x1, y1) == uid_in(now, x1, y1));
        }
        if !(x2 == x && y2 == y) {
            assert(uid_in(was, x2, y2) == uid_in(now, x2, y2));
        }
    }
}

/// A set of cells of a plane of `w` by `h` cells is finite.
pub proof fn lemma_cells_finite(w: int, h: int, s: Set<(int, int)>)
    requires
        0 < w,
        0 <= h,
        forall|c: (int, int)| s.contains(c) ==> 0 <= c.0 < w && 0 <= c.1 < h,
    ensures
        s.finite(),
{
    assert(w * h >= 0) by (nonlinear_arith)
        requires
            0 < w,
            0 <= h,
    ;
    let r = vstd::set_lib::set_int_range(0, w * h);
    vstd::set_lib::lemma_int_range(0, w * h);
    let f = |k: int| (k % w, k / w);
    r.lemma_map_finite(f);
    assert forall|c: (int, int)| s.contains(c) implies r.map(f).contains(c) by {
        let k = c.1 * w + c.0;
        assert(0 <= k < w * h) by (nonlinear_arith)
            requires
                0 <= c.0 < w,
                0 <= c.1 < h,
                k == c.1 * w + c.0,
        ;
        vstd::arithmetic::div_mod::lemma_fundamental_div_mod_converse(k, w, c.1, c.0);
        assert(r.contains(k) && c == f(k));
    }
    vstd::set_lib::lemma_set_subset_finite(r.map(f), s);
}

impl Arena {
    /// Whether `(x, y)` is a cell of the arena.
    pub open spec fn inside(&self, x: int, y: int) -> bool {
        0 <= x < self.w && 0 <= y < self.h
    }

    /// Whether `(x, y)` is a cell of the arena that is not on its border.
    pub open spec fn interior(&self, x: int, y: int) -> bool {
        1 <= x <= self.w - 2 && 1 <= y <= self.h - 2
    }

    /// The tile of the cell `(x, y)`.
    #[verifier::inline]
    pub open spec fn tile_at(&self, x: int, y: int) -> Tile {
        self.tiles.at(x, y)
    }

    /// Whether the cell `(x, y)` can be entered.
    #[verifier::inline]
    pub open spec fn pass_at(&self, x: int, y: int) -> bool {
        self.pass.at(x, y)
    }

    /// The enemy on the cell `(x, y)`, if there is one.
    #[verifier::inline]
    pub open spec fn enemy_at(&self, x: int, y: int) -> Option<Enemy> {
        self.enemies.at(x, y)
    }

    /// Whether a turret stands on the cell `(x, y)`.
    pub open spec fn has_turret(&self, x: int, y: int) -> bool {
        exists|i: int|
            0 <= i < self.turrets.len() && (#[trigger] self.turrets@[i]).x == x
                && self.turrets@[i].y == y
    }

    /// Whether a bomb lies on the cell `(x, y)`.
    pub open spec fn has_bomb(&self, x: int, y: int) -> bool {
        exists|i: int|
            0 <= i < self.bombs.len() && (#[trigger] self.bombs@[i]).x == x && self.bombs@[i].y
                == y
    }

    /// The cells on which an enemy stands.
    pub open spec fn manned(&self) -> Set<(int, int)> {
        Set::new(|c: (int, int)| self.inside(c.0, c.1) && self.enemy_at(c.0, c.1) is Some)
    }

    /// Whether the player `p` stands on an interior cell of the arena.
    pub open spec fn hosts(&self, p: &crate::player::Player) -> bool {
        self.interior(p.x as int, p.y as int)
    }

    /// The three planes have the arena's width and height, and these are in
    /// range.
    pub open spec fn shaped(&self) -> bool {
        &&& 3 <= self.w <= SIDE_LIMIT
        &&& 3 <= self.h <= SIDE_LIMIT
        &&& self.tiles.w == self.w
        &&& self.pass.w == self.w
        &&& self.enemies.w == self.w
        &&& self.tiles.inner.len() == self.w * self.h
        &&& self.pass.inner.len() == self.w * self.h
        &&& self.enemies.inner.len() == self.w * self.h
    }

    /// The planes agree with each other: a cell that can be entered is an
    /// empty interior cell without an enemy; an enemy stands on an empty
    /// interior cell, is alive and has a number that was handed out; every
    /// tile is in range and the border is all wall; and no two enemies have
    /// the same number.
    pub open spec fn cells_ok(&self) -> bool {
        &&& forall|x: int, y: int|
            self.inside(x, y) && #[trigger] self.pass_at(x, y) ==> self.interior(x, y)
                && self.tile_at(x, y) is Empty && self.enemy_at(x, y) is None
        &&& forall|x: int, y: int|
            self.inside(x, y) && (#[trigger] self.enemy_at(x, y)) is Some ==> self.interior(x, y)
                && self.tile_at(x, y) is Empty && self.enemy_at(x, y)->0.wf() && self.enemy_at(
                x,
                y,
            )->0.uid < self.spawned
        &&& forall|x: int, y: int|
            self.inside(x, y) ==> (#[trigger] self.tile_at(x, y)).wf() && (!self.interior(x, y)
                ==> self.tile_at(x, y) is Wall)
        &&& distinct_uids(&self.enemies, self.w as int, self.h as int)
    }

    /// The chest queue agrees with the tiles: it names cells with a chest,
    /// names each such cell, and names none twice.
    pub open spec fn chests_ok(&self) -> bool {
        &&& forall|i: int|
            0 <= i < self.chests@.len() ==> self.inside(
                (#[trigger] self.chests@[i]).0 as int,
                self.chests@[i].1 as int,
            ) && self.tile_at(self.chests@[i].0 as int, self.chests@[i].1 as int) is Chest
        &&& forall|x: int, y: int|
            self.inside(x, y) && (#[trigger] self.tile_at(x, y)) is Chest ==> self.chests@.contains(
                (x as i32, y as i32),
            )
        &&& forall|i: int, j: int|
            0 <= i < j < self.chests@.len() ==> self.chests@[i] != self.chests@[j]
    }

    /// Every bullet is well formed and on a cell of the arena.
    pub open spec fn bullets_ok(&self) -> bool {
        forall|i: int|
            0 <= i < self.bullets.len() ==> (#[trigger] self.bullets@[i]).wf() && self.inside(
                self.bullets@[i].x as int,
                self.bullets@[i].y as int,
            )
    }

    /// Every bullet is on an interior cell, so that it can take one more
    /// step.
    pub open spec fn bullets_settled(&self) -> bool {
        forall|i: int|
            0 <= i < self.bullets.len() ==> self.interior(
                (#[trigger] self.bullets@[i]).x as int,
                self.bullets@[i].y as int,
            )
    }

    /// Every bomb is well formed and on an interior cell.
    pub open spec fn bombs_ok(&self) -> bool {
        forall|i: int|
            0 <= i < self.bombs.len() ==> (#[trigger] self.bombs@[i]).wf() && self.interior(
                self.bombs@[i].x as int,
                self.bombs@[i].y as int,
            )
    }

    /// Every turret is well formed and blocks the interior cell it stands
    /// on.
    pub open spec fn turrets_ok(&self) -> bool {
        forall|i: int|
            0 <= i < self.turrets.len() ==> (#[trigger] self.turrets@[i]).wf() && self.interior(
                self.turrets@[i].x as int,
                self.turrets@[i].y as int,
            ) && !self.pass_at(self.turrets@[i].x as int, self.turrets@[i].y as int)
    }

    /// Every pulse record is well formed.
    pub open spec fn emps_ok(&self) -> bool {
        forall|i: int| 0 <= i < self.emps.len() ==> (#[trigger] self.emps@[i]).wf()
    }

    /// The boss tracker and the enemy numbering are in range.
    pub open spec fn counters_ok(&self) -> bool {
        &&& 0 <= self.spawned <= COUNT_LIMIT
        &&& 0 <= self.boss.nth <= COUNT_LIMIT
        &&& self.boss.resp matches Some(t) ==> -SPAN_LIMIT <= t <= STAMP_LIMIT
        &&& self.boss.pos matches Some(p) ==> self.inside(p.x as int, p.y as int)
    }

    /// The arena is consistent: all of the above.
    pub open spec fn wf(&self) -> bool {
        &&& self.shaped()
        &&& self.cells_ok()
        &&& self.chests_ok()
        &&& self.bullets_ok()
        &&& self.bombs_ok()
        &&& self.turrets_ok()
        &&& self.emps_ok()
        &&& self.counters_ok()
    }

    /// Whether `other` has the same collections, tracker and size as `self`,
    /// so that the two differ in the three planes at most.
    pub open spec fn same_things(&self, other: &Arena) -> bool {
        &&& self.bullets == other.bullets
        &&& self.bombs == other.bombs
        &&& self.turrets == other.turrets
        &&& self.emps == other.emps
        &&& self.chests == other.chests
        &&& self.boss == other.boss
        &&& self.spawned == other.spawned
        &&& self.w == other.w
        &&& self.h == other.h
    }

    /// Whether `other` differs from `self` in the pulse records at most,
    /// leaving the planes aside.
    pub open spec fn same_but_emps(&self, other: &Arena) -> bool {
        &&& self.bullets == other.bullets
        &&& self.bombs == other.bombs
        &&& self.turrets == other.turrets
        &&& self.chests == other.chests
        &&& self.boss == other.boss
        &&& self.spawned == other.spawned
        &&& self.w == other.w
        &&& self.h == other.h
    }

    /// Whether the tile plane of `other` equals that of `self` everywhere but
    /// at `(x, y)`.
    pub open spec fn tiles_but(&self, other: &Arena, x: int, y: int) -> bool {
        forall|x2: int, y2: int|
            self.inside(x2, y2) && !(x2 == x && y2 == y) ==> #[trigger] self.tile_at(x2, y2)
                == other.tile_at(x2, y2)
    }

    /// Whether the passability plane of `other` equals that of `self`
    /// everywhere but at `(x, y)`.
    pub open spec fn pass_but(&self, other: &Arena, x: int, y: int) -> bool {
        forall|x2: int, y2: int|
            self.inside(x2, y2) && !(x2 == x && y2 == y) ==> #[trigger] self.pass_at(x2, y2)
                == other.pass_at(x2, y2)
    }

    /// Whether the occupancy plane of `other` equals that of `self`
    /// everywhere but at `(x, y)`.
    pub open spec fn enemies_but(&self, other: &Arena, x: int, y: int) -> bool {
        forall|x2: int, y2: int|
            self.inside(x2, y2) && !(x2 == x && y2 == y) ==> #[trigger] self.enemy_at(x2, y2)
                == other.enemy_at(x2, y2)
    }

    /// A cell that can be entered is empty, and no enemy stands on it.
    pub proof fn lemma_passable_is_free(&self, x: int, y: int)
        requires
            self.wf(),
            self.inside(x, y),
            self.pass_at(x, y),
        ensures
            self.tile_at(x, y) is Empty,
            self.enemy_at(x, y) is None,
            !self.has_turret(x, y),
            self.interior(x, y),
    {
        if self.has_turret(x, y) {
            let i = choose|i: int|
                0 <= i < self.turrets.len() && (#[trigger] self.turrets@[i]).x == x
                    && self.turrets@[i].y == y;
            assert(!self.pass_at(self.turrets@[i].x as int, self.turrets@[i].y as int));
        }
    }

    /// There are no more chests than interior cells.
    pub proof fn lemma_chests_fit(&self)
        requires
            self.wf(),
        ensures
            self.chests@.len() <= (self.w - 2) * (self.h - 2),
    {
        let q = self.chests@;
        let w2 = self.w - 2;
        let h2 = self.h - 2;
        let offs = Seq::new(q.len(), |i: int| (q[i].1 - 1) * w2 + (q[i].0 - 1));
        assert(w2 * h2 >= 0) by (nonlinear_arith)
            requires
                w2 >= 1,
                h2 >= 1,
        ;
        assert forall|i: int| 0 <= i < q.len() implies self.interior(
            (#[trigger] q[i]).0 as int,
            q[i].1 as int,
        ) by {
            assert(self.tile_at(q[i].0 as int, q[i].1 as int) is Chest);
        }
        assert forall|i: int| 0 <= i < offs.len() implies 0 <= #[trigger] offs[i] < w2 * h2 by {
            assert(self.interior(q[i].0 as int, q[i].1 as int));
            lemma_offset_inside(w2, h2, q[i].0 - 1, q[i].1 - 1);
        }
        assert forall|i: int, j: int| 0 <= i < offs.len() && 0 <= j < offs.len() && i != j implies offs[i]
            != offs[j] by {
            assert(self.interior(q[i].0 as int, q[i].1 as int));
            assert(self.interior(q[j].0 as int, q[j].1 as int));
            if offs[i] == offs[j] {
                crate::grid::lemma_offset_unique(w2, q[i].0 - 1, q[i].1 - 1, q[j].0 - 1, q[j].1 - 1);
                if i < j {
                    assert(q[i] != q[j]);
                } else {
                    assert(q[j] != q[i]);
                }
            }
        }
        offs.unique_seq_to_set();
        vstd::set_lib::lemma_int_range(0, w2 * h2);
        assert(offs.to_set().subset_of(vstd::set_lib::set_int_range(0, w2 * h2))) by {
            assert forall|o: int| offs.to_set().contains(o) implies vstd::set_lib::set_int_range(
                0,
                w2 * h2,
            ).contains(o) by {
                let i = choose|i: int| 0 <= i < offs.len() && offs[i] == o;
                assert(0 <= offs[i] < w2 * h2);
            }
        }
        vstd::set_lib::lemma_len_subset(offs.to_set(), vstd::set_lib::set_int_range(0, w2 * h2));
    }

    /// Every cell of the arena is a cell of each plane.
    pub proof fn lemma_planes(&self)
        requires
            self.shaped(),
        ensures
            forall|x: int, y: int| #[trigger]
                self.inside(x, y) ==> self.tiles.holds(x, y) && self.pass.holds(x, y)
                    && self.enemies.holds(x, y),
            forall|x: int, y: int| #[trigger] self.tiles.holds(x, y) ==> self.inside(x, y),
            forall|x: int, y: int| #[trigger] self.pass.holds(x, y) ==> self.inside(x, y),
            forall|x: int, y: int| #[trigger] self.enemies.holds(x, y) ==> self.inside(x, y),
    {
        let w = self.w as int;
        let h = self.h as int;
        assert forall|x: int, y: int| #[trigger] self.inside(x, y) implies self.tiles.holds(x, y)
            && self.pass.holds(x, y) && self.enemies.holds(x, y) by {
            lemma_offset_inside(w, h, x, y);
        }
        assert forall|x: int, y: int| #[trigger] self.tiles.holds(x, y) implies self.inside(
            x,
            y,
        ) by {
            lemma_row_inside(w, h, x, y);
        }
        assert forall|x: int, y: int| #[trigger] self.pass.holds(x, y) implies self.inside(x, y) by {
            lemma_row_inside(w, h, x, y);
        }
        assert forall|x: int, y: int| #[trigger] self.enemies.holds(x, y) implies self.inside(
            x,
            y,
        ) by {
            lemma_row_inside(w, h, x, y);
        }
    }

    /// Reads the tile of the cell `(x, y)`.
    pub fn tile(&self, x: i32, y: i32) -> (t: Tile)
        requires
            self.shaped(),
            self.inside(x as int, y as int),
        ensures
            t == self.tile_at(x as int, y as int),
    {
        proof {
            self.lemma_planes();
        }
        *self.tiles.get(x, y)
    }

    /// Reads whether the cell `(x, y)` can be entered.
    pub fn passable(&self, x: i32, y: i32) -> (p: bool)
        requires
            self.shaped(),
            self.inside(x as int, y as int),
        ensures
            p == self.pass_at(x as int, y as int),
    {
        proof {
            self.lemma_planes();
        }
        *self.pass.get(x, y)
    }

    /// Reads the enemy on the cell `(x, y)`.
    pub fn enemy(&self, x: i32, y: i32) -> (e: Option<Enemy>)
        requires
            self.shaped(),
            self.inside(x as int, y as int),
        ensures
            e == self.enemy_at(x as int, y as int),
    {
        proof {
            self.lemma_planes();
        }
        *self.enemies.get(x, y)
    }

    /// Writes the tile of the cell `(x, y)` and nothing else.
    pub fn set_tile(&mut self, x: i32, y: i32, t: Tile)
        requires
            old(self).shaped(),
            old(self).inside(x as int, y as int),
        ensures
            final(self).shaped(),
            final(self).same_things(old(self)),
            final(self).pass == old(self).pass,
            final(self).enemies == old(self).enemies,
            final(self).tile_at(x as int, y as int) == t,
            final(self).tiles_but(old(self), x as int, y as int),
    {
        proof {
            self.lemma_planes();
        }
        self.tiles.set(x, y, t);
        assert forall|x2: int, y2: int|
            self.inside(x2, y2) && !(x2 == x && y2 == y) implies #[trigger] self.tile_at(x2, y2) == old(self).tile_at(x2, y2) by {
            assert(old(self).inside(x2, y2));
        }
    }

    /// Writes whether the cell `(x, y)` can be entered, and nothing else.
    pub fn set_pass(&mut self, x: i32, y: i32, p: bool)
        requires
            old(self).shaped(),
            old(self).inside(x as int, y as int),
        ensures
            final(self).shaped(),
            final(self).same_things(old(self)),
            final(self).tiles == old(self).tiles,
            final(self).enemies == old(self).enemies,
            final(self).pass_at(x as int, y as int) == p,
            final(self).pass_but(old(self), x as int, y as int),
    {
        proof {
            self.lemma_planes();
        }
        self.pass.set(x, y, p);
        assert forall|x2: int, y2: int|
            self.inside(x2, y2) && !(x2 == x && y2 == y) implies #[trigger] self.pass_at(x2, y2) == old(self).pass_at(x2, y2) by {
            assert(old(self).inside(x2, y2));
        }
    }

    /// Writes the occupant of the cell `(x, y)` and nothing else.
    pub fn set_enemy(&mut self, x: i32, y: i32, e: Option<Enemy>)
        requires
            old(self).shaped(),
            old(self).inside(x as int, y as int),
        ensures
            final(self).shaped(),
            final(self).same_things(old(self)),
            final(self).tiles == old(self).tiles,
            final(self).pass == old(self).pass,
            final(self).enemy_at(x as int, y as int) == e,
            final(self).enemies_but(old(self), x as int, y as int),
    {
        proof {
            self.lemma_planes();
        }
        self.enemies.set(x, y, e);
        assert forall|x2: int, y2: int|
            self.inside(x2, y2) && !(x2 == x && y2 == y) implies #[trigger] self.enemy_at(x2, y2) == old(self).enemy_at(x2, y2) by {
            assert(old(self).inside(x2, y2));
        }
    }

    /// Whether a turret stands on the cell `(x, y)`.
    pub fn turret_at(&self, x: i32, y: i32) -> (found: bool)
        ensures
            found == self.has_turret(x as int, y as int),
    {
        let mut i: usize = 0;
        while i < self.turrets.len()
            invariant
                i <= self.turrets.len(),
                forall|k: int|
                    0 <= k < i ==> !((#[trigger] self.turrets@[k]).x == x && self.turrets@[k].y
                        == y),
            decreases self.turrets.len() - i,
        {
            if self.turrets[i].x == x && self.turrets[i].y == y {
                return true;
            }
            i = i + 1;
        }
        false
    }

    /// Whether a bomb lies on the cell `(x, y)`.
    pub fn bomb_at(&self, x: i32, y: i32) -> (found: bool)
        ensures
            found == self.has_bomb(x as int, y as int),
    {
        let mut i: usize = 0;
        while i < self.bombs.len()
            invariant
                i <= self.bombs.len(),
                forall|k: int|
                    0 <= k < i ==> !((#[trigger] self.bombs@[k]).x == x && self.bombs@[k].y == y),
            decreases self.bombs.len() - i,
        {
            if self.bombs[i].x == x && self.bombs[i].y == y {
                return true;
            }
            i = i + 1;
        }
        false
    }

    /// Takes the enemy off the cell `(x, y)` and returns it. The cell can be
    /// entered again unless a turret stands on it.
    pub fn take_enemy(&mut self, x: i32, y: i32) -> (e: Enemy)
        requires
            old(self).wf(),
            old(self).inside(x as int, y as int),
            old(self).enemy_at(x as int, y as int) is Some,
        ensures
            final(self).wf(),
            final(self).same_things(old(self)),
            final(self).tiles == old(self).tiles,
            Some(e) == old(self).enemy_at(x as int, y as int),
            final(self).enemy_at(x as int, y as int) is None,
            final(self).enemies_but(old(self), x as int, y as int),
            final(self).pass_at(x as int, y as int) == !old(self).has_turret(x as int, y as int),
            final(self).pass_but(old(self), x as int, y as int),
            lacks_uid(&final(self).enemies, old(self).w as int, old(self).h as int, e.uid as int),
    {
        let e: Enemy = self.enemy(x, y).unwrap();
        self.set_enemy(x, y, None);
        proof {
            lemma_uids_cleared(
                &old(self).enemies,
                &self.enemies,
                self.w as int,
                self.h as int,
                x as int,
                y as int,
            );
        }
        let free: bool = !self.turret_at(x, y);
        self.set_pass(x, y, free);
        e
    }

    /// Puts the enemy `e`, whose number no enemy of the arena has, on the
    /// cell `(x, y)`, which can be entered, and blocks the cell.
    pub fn put_enemy(&mut self, x: i32, y: i32, e: Enemy)
        requires
            old(self).wf(),
            old(self).inside(x as int, y as int),
            old(self).pass_at(x as int, y as int),
            e.wf(),
            e.uid < old(self).spawned,
            lacks_uid(&old(self).enemies, old(self).w as int, old(self).h as int, e.uid as int),
        ensures
            final(self).wf(),
            final(self).same_things(old(self)),
            final(self).tiles == old(self).tiles,
            final(self).enemy_at(x as int, y as int) == Some(e),
            final(self).enemies_but(old(self), x as int, y as int),
            !final(self).pass_at(x as int, y as int),
            final(self).pass_but(old(self), x as int, y as int),
    {
        self.set_pass(x, y, false);
        self.set_enemy(x, y, Some(e));
        proof {
            lemma_uids_put(
                &old(self).enemies,
                &self.enemies,
                self.w as int,
                self.h as int,
                x as int,
                y as int,
            );
        }
    }

    /// Moves the enemy on the cell `(x, y)` to the cell `(nx, ny)`, which can
    /// be entered, and returns it. The new cell is blocked, and the old one
    /// can be entered unless a turret stands on it.
    pub fn move_enemy(&mut self, x: i32, y: i32, nx: i32, ny: i32) -> (e: Enemy)
        requires
            old(self).wf(),
            old(self).inside(x as int, y as int),
            old(self).inside(nx as int, ny as int),
            old(self).enemy_at(x as int, y as int) is Some,
            old(self).pass_at(nx as int, ny as int),
        ensures
            final(self).wf(),
            final(self).same_things(old(self)),
            final(self).tiles == old(self).tiles,
            Some(e) == old(self).enemy_at(x as int, y as int),
            final(self).enemy_at(nx as int, ny as int) == Some(e),
            final(self).enemy_at(x as int, y as int) is None,
            forall|x2: int, y2: int|
                old(self).inside(x2, y2) && !(x2 == x && y2 == y) && !(x2 == nx && y2 == ny)
                    ==> #[trigger] final(self).enemy_at(x2, y2) == old(self).enemy_at(x2, y2),
            !final(self).pass_at(nx as int, ny as int),
            final(self).pass_at(x as int, y as int) == !old(self).has_turret(x as int, y as int),
            forall|x2: int, y2: int|
                old(self).inside(x2, y2) && !(x2 == x && y2 == y) && !(x2 == nx && y2 == ny)
                    ==> #[trigger] final(self).pass_at(x2, y2) == old(self).pass_at(x2, y2),
    {
        let e: Enemy = self.take_enemy(x, y);
        let ghost lifted = *self;
        self.put_enemy(nx, ny, e);
        proof {
            assert forall|x2: int, y2: int|
                old(self).inside(x2, y2) && !(x2 == x && y2 == y) && !(x2 == nx && y2 == ny)
                implies #[trigger] self.enemy_at(x2, y2) == old(self).enemy_at(x2, y2) by {
                assert(lifted.enemy_at(x2, y2) == old(self).enemy_at(x2, y2));
            }
            assert forall|x2: int, y2: int|
                old(self).inside(x2, y2) && !(x2 == x && y2 == y) && !(x2 == nx && y2 == ny)
                implies #[trigger] self.pass_at(x2, y2) == old(self).pass_at(x2, y2) by {
                assert(lifted.pass_at(x2, y2) == old(self).pass_at(x2, y2));
            }
        }
        e
    }

    /// Replaces the enemy on the cell `(x, y)` by `e`, which has the same
    /// number.
    pub fn replace_enemy(&mut self, x: i32, y: i32, e: Enemy)
        requires
            old(self).wf(),
            old(self).inside(x as int, y as int),
            old(self).enemy_at(x as int, y as int) is Some,
            e.wf(),
            e.uid == old(self).enemy_at(x as int, y as int)->0.uid,
        ensures
            final(self).wf(),
            final(self).same_things(old(self)),
            final(self).tiles == old(self).tiles,
            final(self).pass == old(self).pass,
            final(self).enemy_at(x as int, y as int) == Some(e),
            final(self).enemies_but(old(self), x as int, y as int),
    {
        self.set_enemy(x, y, Some(e));
        proof {
            assert forall|x2: int, y2: int|
                0 <= x2 < self.w && 0 <= y2 < self.h && !(x2 == x && y2 == y) implies #[trigger] uid_in(
                &old(self).enemies,
                x2,
                y2,
            ) != uid_in(&self.enemies, x as int, y as int) by {
                assert(uid_in(&old(self).enemies, x as int, y as int) == e.uid);
            }
            lemma_uids_put(
                &old(self).enemies,
                &self.enemies,
                self.w as int,
                self.h as int,
                x as int,
                y as int,
            );
        }
    }

    /// Writes the tile `t`, which is no chest, over the tile of `(x, y)`,
    /// which is no chest either. The border takes only walls, and a cell
    /// with an enemy stays empty. Afterwards the cell can be entered if it
    /// is empty and neither an enemy nor a turret stands on it.
    pub fn put_tile(&mut self, x: i32, y: i32, t: Tile)
        requires
            old(self).wf(),
            old(self).inside(x as int, y as int),
            !(old(self).tile_at(x as int, y as int) is Chest),
            !(t is Chest),
            t.wf(),
            !old(self).interior(x as int, y as int) ==> t is Wall,
            old(self).enemy_at(x as int, y as int) is Some ==> t is Empty,
        ensures
            final(self).wf(),
            final(self).same_things(old(self)),
            final(self).enemies == old(self).enemies,
            final(self).tile_at(x as int, y as int) == t,
            final(self).tiles_but(old(self), x as int, y as int),
            final(self).pass_at(x as int, y as int) == (t is Empty && old(self).enemy_at(
                x as int,
                y as int,
            ) is None && !old(self).has_turret(x as int, y as int)),
            final(self).pass_but(old(self), x as int, y as int),
    {
        let free: bool = match t {
            Tile::Empty => self.enemy(x, y).is_none() && !self.turret_at(x, y),
            _ => false,
        };
        self.set_tile(x, y, t);
        self.set_pass(x, y, free);
        proof {
            assert forall|i: int| 0 <= i < self.chests@.len() implies self.inside(
                (#[trigger] self.chests@[i]).0 as int,
                self.chests@[i].1 as int,
            ) && self.tile_at(self.chests@[i].0 as int, self.chests@[i].1 as int) is Chest by {
                let c = old(self).chests@[i];
                assert(old(self).tile_at(c.0 as int, c.1 as int) is Chest);
            }
        }
    }

    /// Lays the chest `chest` on the empty cell `(x, y)`, on which no enemy
    /// stands, and appends the cell to the chest queue. The cell cannot be
    /// entered while the chest lies there.
    pub fn place_chest(&mut self, x: i32, y: i32, chest: crate::chest::Chest)
        requires
            old(self).wf(),
            old(self).interior(x as int, y as int),
            old(self).tile_at(x as int, y as int) is Empty,
            old(self).enemy_at(x as int, y as int) is None,
            chest.wf(),
        ensures
            final(self).wf(),
            final(self).enemies == old(self).enemies,
            final(self).tile_at(x as int, y as int) == Tile::Chest(chest),
            final(self).tiles_but(old(self), x as int, y as int),
            !final(self).pass_at(x as int, y as int),
            final(self).pass_but(old(self), x as int, y as int),
            final(self).chests@ == old(self).chests@.push((x, y)),
            final(self).bullets == old(self).bullets,
            final(self).bombs == old(self).bombs,
            final(self).turrets == old(self).turrets,
            final(self).emps == old(self).emps,
            final(self).boss == old(self).boss,
            final(self).spawned == old(self).spawned,
            final(self).w == old(self).w,
            final(self).h == old(self).h,
    {
        self.set_tile(x, y, Tile::Chest(chest));
        self.set_pass(x, y, false);
        self.chests.push_back((x, y));
        proof {
            let q = old(self).chests@;
            assert(!q.contains((x, y))) by {
                if q.contains((x, y)) {
                    let i = choose|i: int| 0 <= i < q.len() && q[i] == (x, y);
                    assert(old(self).tile_at(q[i].0 as int, q[i].1 as int) is Chest);
                }
            }
            assert forall|i: int| 0 <= i < self.chests@.len() implies self.inside(
                (#[trigger] self.chests@[i]).0 as int,
                self.chests@[i].1 as int,
            ) && self.tile_at(self.chests@[i].0 as int, self.chests@[i].1 as int) is Chest by {
                if i < q.len() {
                    assert(self.chests@[i] == q[i]);
                    assert(old(self).tile_at(q[i].0 as int, q[i].1 as int) is Chest);
                }
            }
            assert forall|x2: int, y2: int|
                self.inside(x2, y2) && (#[trigger] self.tile_at(x2, y2)) is Chest implies self.chests@.contains(
                (x2 as i32, y2 as i32),
            ) by {
                if x2 == x && y2 == y {
                    assert(self.chests@[q.len() as int] == (x, y));
                } else {
                    assert(old(self).tile_at(x2, y2) is Chest);
                    let i = choose|i: int| 0 <= i < q.len() && q[i] == (x2 as i32, y2 as i32);
                    assert(self.chests@[i] == q[i]);
                }
            }
            assert forall|i: int, j: int| 0 <= i < j < self.chests@.len() implies self.chests@[i]
                != self.chests@[j] by {
                if j < q.len() {
                    assert(q[i] != q[j]);
                }
            }
        }
    }

    /// Position of the cell `(x, y)` in the chest queue; a chest lies on the
    /// cell.
    pub fn chest_index(&self, x: i32, y: i32) -> (idx: usize)
        requires
            self.wf(),
            self.inside(x as int, y as int),
            self.tile_at(x as int, y as int) is Chest,
        ensures
            idx < self.chests@.len(),
            self.chests@[idx as int] == (x, y),
    {
        let mut i: usize = 0;
        while i < self.chests.len()
            invariant
                i <= self.chests@.len(),
                self.chests@.contains((x, y)),
                forall|k: int| 0 <= k < i ==> self.chests@[k] != (x, y),
            decreases self.chests@.len() - i,
        {
            let c: (i32, i32) = self.chests[i];
            if c.0 == x && c.1 == y {
                return i;
            }
            i = i + 1;
        }
        proof {
            let k = choose|k: int| 0 <= k < self.chests@.len() && self.chests@[k] == (x, y);
            assert(false);
        }
        0
    }

    /// Takes the chest off the cell `(x, y)` and off the chest queue, and
    /// returns it. The cell is empty afterwards, and can be entered unless a
    /// turret stands on it.
    pub fn clear_chest(&mut self, x: i32, y: i32) -> (chest: crate::chest::Chest)
        requires
            old(self).wf(),
            old(self).inside(x as int, y as int),
            old(self).tile_at(x as int, y as int) is Chest,
        ensures
            final(self).wf(),
            final(self).enemies == old(self).enemies,
            old(self).tile_at(x as int, y as int) == Tile::Chest(chest),
            final(self).tile_at(x as int, y as int) is Empty,
            final(self).tiles_but(old(self), x as int, y as int),
            final(self).pass_at(x as int, y as int) == !old(self).has_turret(x as int, y as int),
            final(self).pass_but(old(self), x as int, y as int),
            exists|idx: int|
                0 <= idx < old(self).chests@.len() && old(self).chests@[idx] == (x, y) && final(self).chests@ == old(self).chests@.remove(idx),
            final(self).bullets == old(self).bullets,
            final(self).bombs == old(self).bombs,
            final(self).turrets == old(self).turrets,
            final(self).emps == old(self).emps,
            final(self).boss == old(self).boss,
            final(self).spawned == old(self).spawned,
            final(self).w == old(self).w,
            final(self).h == old(self).h,
    {
        let chest = match self.tile(x, y) {
            Tile::Chest(c) => c,
            _ => crate::chest::Chest { start: 0, duration: 0, ty: crate::chest::ChestType::Ammo },
        };
        let idx: usize = self.chest_index(x, y);
        let ghost q = self.chests@;
        self.chests.remove(idx);
        let free: bool = !self.turret_at(x, y);
        self.set_tile(x, y, Tile::Empty);
        self.set_pass(x, y, free);
        proof {
            assert(self.chests@ == q.remove(idx as int));
            assert forall|i: int| 0 <= i < self.chests@.len() implies self.inside(
                (#[trigger] self.chests@[i]).0 as int,
                self.chests@[i].1 as int,
            ) && self.tile_at(self.chests@[i].0 as int, self.chests@[i].1 as int) is Chest by {
                let j = if i < idx { i } else { i + 1 };
                assert(self.chests@[i] == q[j]);
                assert(q[j] != q[idx as int]);
                assert(old(self).tile_at(q[j].0 as int, q[j].1 as int) is Chest);
            }
            assert forall|x2: int, y2: int|
                self.inside(x2, y2) && (#[trigger] self.tile_at(x2, y2)) is Chest implies self.chests@.contains(
                (x2 as i32, y2 as i32),
            ) by {
                assert(old(self).tile_at(x2, y2) is Chest);
                let j = choose|j: int| 0 <= j < q.len() && q[j] == (x2 as i32, y2 as i32);
                if j < idx {
                    assert(self.chests@[j] == q[j]);
                } else {
                    assert(self.chests@[j - 1] == q[j]);
                }
            }
            assert forall|i: int, j: int| 0 <= i < j < self.chests@.len() implies self.chests@[i]
                != self.chests@[j] by {
                let i2 = if i < idx { i } else { i + 1 };
                let j2 = if j < idx { j } else { j + 1 };
                assert(q[i2] != q[j2]);
            }
        }
        chest
    }
}

} // verus!
