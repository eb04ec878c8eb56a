//! Path finding: a bounded greedy search that spreads from the target
//! towards the mover, inside a window around the target, and names the next
//! cell for the mover.

use crate::arena::Arena;
use crate::util::{dist, manhattan};
use vstd::prelude::*;

verus! {

/// Width and height of the search window.
pub const MOB_FOV: usize = 30;

/// Number of cells of the search window.
pub const WINDOW_CELLS: usize = 900;

/// The most frontier cells one round of the search takes in.
pub const FRONTIER_LIMIT: usize = 480;

/// Number of rounds of the search.
pub const ROUNDS: usize = 120;

/// A cell of the window that was not reached.
pub const FRESH: u8 = 0;

/// A cell of the window that the search spread from.
pub const VISITED: u8 = 1;

/// A cell of the window that was reached and not yet spread from.
pub const FRONTIER: u8 = 2;

/// Offset of the window cell `(x, y)` in the window's storage.
pub open spec fn slot(x: int, y: int) -> int {
    x + y * 30
}

/// Whether `(x, y)` is a cell of the window.
pub open spec fn in_window(x: int, y: int) -> bool {
    0 <= x < 30 && 0 <= y < 30
}

/// The window `st` after one neighbour of a cell was looked at: the window
/// cell `(x, y)`, which is the arena cell `(ax, ay)`, joins the frontier if
/// it lies in the window, was not spread from, and can be entered.
pub open spec fn reach(map: &Arena, st: Seq<u8>, x: int, y: int, ax: int, ay: int) -> Seq<u8> {
    if in_window(x, y) && st[slot(x, y)] != VISITED && map.pass_at(ax, ay) {
        st.update(slot(x, y), FRONTIER)
    } else {
        st
    }
}

/// The window `st`, centred on the arena cell `offset`, after the search
/// spread from its cell `(x, y)`: the neighbours to the left, right, above
/// and below are reached, and `(x, y)` is visited.
pub open spec fn marked(map: &Arena, st: Seq<u8>, x: int, y: int, offset: (int, int)) -> Seq<u8> {
    let ax = x - 15 + offset.0;
    let ay = y - 15 + offset.1;
    let s1 = reach(map, st, x - 1, y, ax - 1, ay);
    let s2 = reach(map, s1, x + 1, y, ax + 1, ay);
    let s3 = reach(map, s2, x, y - 1, ax, ay - 1);
    let s4 = reach(map, s3, x, y + 1, ax, ay + 1);
    s4.update(slot(x, y), VISITED)
}

/// The frontier cells of the column `x` of the window `st` above the row
/// `y`, from the top down.
pub open spec fn column(st: Seq<u8>, x: int, y: int) -> Seq<(i32, i32)>
    decreases y,
{
    if y <= 0 {
        Seq::empty()
    } else if st[slot(x, y - 1)] == FRONTIER {
        column(st, x, y - 1).push((x as i32, (y - 1) as i32))
    } else {
        column(st, x, y - 1)
    }
}

/// The frontier cells of the columns of the window `st` left of the column
/// `x`, column by column.
pub open spec fn columns(st: Seq<u8>, x: int) -> Seq<(i32, i32)>
    decreases x,
{
    if x <= 0 {
        Seq::empty()
    } else {
        columns(st, x - 1) + column(st, x - 1, 30)
    }
}

/// The frontier cells of the window `st`, in the order of the search.
pub open spec fn frontier(st: Seq<u8>) -> Seq<(i32, i32)> {
    columns(st, 30)
}

/// How one round of the search ends: with the cell to move to, or with the
/// window to go on from.
pub enum Round {
    Found((i32, i32)),
    Open(Seq<u8>),
}

/// The rest of one round of the search, from the frontier cell `k` on. `q`
/// is the mover, as a cell of the window. A frontier cell within one step
/// of the mover ends the round; otherwise the search spreads from the
/// frontier cell closest to the mover among those seen so far, which is
/// `poss[best_k]` at the distance `best_d`.
pub open spec fn scan(
    map: &Arena,
    st: Seq<u8>,
    poss: Seq<(i32, i32)>,
    q: (int, int),
    to: (int, int),
    k: int,
    best_k: int,
    best_d: int,
) -> Round
    decreases poss.len() - k,
{
    if k < 0 || k >= poss.len() {
        Round::Open(st)
    } else {
        let d = manhattan(q.0, q.1, poss[k].0 as int, poss[k].1 as int);
        if d <= 1 {
            Round::Found(poss[k])
        } else {
            let bk = if d < best_d { k } else { best_k };
            let bd = if d < best_d { d } else { best_d };
            scan(
                map,
                marked(map, st, poss[bk].0 as int, poss[bk].1 as int, to),
                poss,
                q,
                to,
                k + 1,
                bk,
                bd,
            )
        }
    }
}

/// The search with `rounds` rounds left, from the window `st`. It gives up
/// with `(0, 0)` when the rounds are spent, when the frontier is empty, and
/// when the frontier holds more than `FRONTIER_LIMIT` cells.
pub open spec fn search(map: &Arena, st: Seq<u8>, q: (int, int), to: (int, int), rounds: nat) -> (
    int,
    int,
)
    decreases rounds,
{
    if rounds == 0 {
        (0, 0)
    } else {
        let poss = frontier(st);
        if poss.len() == 0 || poss.len() > FRONTIER_LIMIT {
            (0, 0)
        } else {
            match scan(map, st, poss, q, to, 0, 0, 1024) {
                Round::Found(pos) => (pos.0 - 15 + to.0, pos.1 - 15 + to.1),
                Round::Open(st2) => search(map, st2, q, to, (rounds - 1) as nat),
            }
        }
    }
}

/// The cell that a mover on `from` is sent to on its way to `to`, or
/// `(0, 0)` if the search finds none: the search starts by spreading from
/// the centre of a fresh window around `to`.
pub open spec fn next_step(map: &Arena, from: (int, int), to: (int, int)) -> (int, int) {
    search(
        map,
        marked(map, Seq::new(WINDOW_CELLS as nat, |i: int| FRESH), 15, 15, to),
        (15 + from.0 - to.0, 15 + from.1 - to.1),
        to,
        ROUNDS as nat,
    )
}

/// Whether every frontier cell of the window `st` around `to` is a cell of
/// the arena that can be entered.
pub open spec fn sound(map: &Arena, st: Seq<u8>, to: (int, int)) -> bool {
    &&& st.len() == WINDOW_CELLS
    &&& forall|x: int, y: int|
        in_window(x, y) && #[trigger] st[slot(x, y)] == FRONTIER ==> map.inside(
            x - 15 + to.0,
            y - 15 + to.1,
        ) && map.pass_at(x - 15 + to.0, y - 15 + to.1)
}

/// Two cells of the window with the same offset are the same cell.
proof fn lemma_slot_unique(x: int, y: int, x2: int, y2: int)
    requires
        in_window(x, y),
        in_window(x2, y2),
        slot(x, y) == slot(x2, y2),
    ensures
        x == x2 && y == y2,
{
}

/// Spreads the search from the cell `(x, y)` of the window `state`, which is
/// centred on the arena cell `offset`: see `marked`. The neighbours of the
/// cell that lie in the window have to be cells of the arena. A window whose
/// frontier cells can all be entered (see `sound`) stays so.
pub fn mark(map: &Arena, state: &mut Vec<u8>, x: usize, y: usize, offset: (i32, i32))
    requires
        map.wf(),
        in_window(x as int, y as int),
        old(state)@.len() == WINDOW_CELLS,
        in_window(x - 1, y as int) ==> map.inside(x - 1 - 15 + offset.0, y - 15 + offset.1),
        in_window(x + 1, y as int) ==> map.inside(x + 1 - 15 + offset.0, y - 15 + offset.1),
        in_window(x as int, y - 1) ==> map.inside(x - 15 + offset.0, y - 1 - 15 + offset.1),
        in_window(x as int, y + 1) ==> map.inside(x - 15 + offset.0, y + 1 - 15 + offset.1),
    ensures
        final(state)@ == marked(
            map,
            old(state)@,
            x as int,
            y as int,
            (offset.0 as int, offset.1 as int),
        ),
        sound(map, old(state)@, (offset.0 as int, offset.1 as int)) ==> sound(
            map,
            final(state)@,
            (offset.0 as int, offset.1 as int),
        ),
{
    assert(in_window(x - 1, y as int) || in_window(x + 1, y as int));
    assert(in_window(x as int, y - 1) || in_window(x as int, y + 1));
    let ax: i32 = (x as i32 - 15) + offset.0;
    let ay: i32 = (y as i32 - 15) + offset.1;
    let ghost to = (offset.0 as int, offset.1 as int);
    let ghost kept = sound(map, old(state)@, to);
    if x > 0 && state[(x - 1) + y * MOB_FOV] != VISITED && map.passable(ax - 1, ay) {
        state[(x - 1) + y * MOB_FOV] = FRONTIER;
    }
    proof {
        if kept {
            lemma_sound_reach(map, old(state)@, x - 1, y as int, to);
        }
    }
    let ghost s1 = state@;
    if x < MOB_FOV - 1 && state[(x + 1) + y * MOB_FOV] != VISITED && map.passable(ax + 1, ay) {
        state[(x + 1) + y * MOB_FOV] = FRONTIER;
    }
    proof {
        if kept {
            lemma_sound_reach(map, s1, x + 1, y as int, to);
        }
    }
    let ghost s2 = state@;
    if y > 0 && state[x + (y - 1) * MOB_FOV] != VISITED && map.passable(ax, ay - 1) {
        state[x + (y - 1) * MOB_FOV] = FRONTIER;
    }
    proof {
        if kept {
            lemma_sound_reach(map, s2, x as int, y - 1, to);
        }
    }
    let ghost s3 = state@;
    if y < MOB_FOV - 1 && state[x + (y + 1) * MOB_FOV] != VISITED && map.passable(ax, ay + 1) {
        state[x + (y + 1) * MOB_FOV] = FRONTIER;
    }
    proof {
        if kept {
            lemma_sound_reach(map, s3, x as int, y + 1, to);
        }
    }
    let ghost s4 = state@;
    state[x + y * MOB_FOV] = VISITED;
    proof {
        assert forall|x2: int, y2: int|
            kept && in_window(x2, y2) && #[trigger] state@[slot(x2, y2)] == FRONTIER implies map.inside(
            x2 - 15 + to.0,
            y2 - 15 + to.1,
        ) && map.pass_at(x2 - 15 + to.0, y2 - 15 + to.1) by {
            assert(s4[slot(x2, y2)] == FRONTIER);
        }
    }
}

/// A window stays sound when a neighbour is reached.
proof fn lemma_sound_reach(map: &Arena, st: Seq<u8>, x: int, y: int, to: (int, int))
    requires
        sound(map, st, to),
        in_window(x, y) ==> map.inside(x - 15 + to.0, y - 15 + to.1),
    ensures
        sound(map, reach(map, st, x, y, x - 15 + to.0, y - 15 + to.1), to),
{
    let s2 = reach(map, st, x, y, x - 15 + to.0, y - 15 + to.1);
    assert forall|x2: int, y2: int|
        in_window(x2, y2) && #[trigger] s2[slot(x2, y2)] == FRONTIER implies map.inside(
        x2 - 15 + to.0,
        y2 - 15 + to.1,
    ) && map.pass_at(x2 - 15 + to.0, y2 - 15 + to.1) by {
        if slot(x2, y2) == slot(x, y) && in_window(x, y) {
            lemma_slot_unique(x, y, x2, y2);
        } else {
            assert(st[slot(x2, y2)] == FRONTIER);
        }
    }
}

/// Every cell of the frontier is a frontier cell of the window.
proof fn lemma_column_cells(st: Seq<u8>, x: int, y: int)
    requires
        0 <= x < 30,
        0 <= y <= 30,
    ensures
        column(st, x, y).len() <= y,
        forall|k: int|
            0 <= k < column(st, x, y).len() ==> (#[trigger] column(st, x, y)[k]).0 == x && 0
                <= column(st, x, y)[k].1 < y && st[slot(x, column(st, x, y)[k].1 as int)]
                == FRONTIER,
    decreases y,
{
    if y > 0 {
        lemma_column_cells(st, x, y - 1);
    }
}

/// Every cell of the frontier is a frontier cell of the window.
proof fn lemma_columns_cells(st: Seq<u8>, x: int)
    requires
        0 <= x <= 30,
    ensures
        columns(st, x).len() <= x * 30,
        forall|k: int|
            0 <= k < columns(st, x).len() ==> in_window(
                (#[trigger] columns(st, x)[k]).0 as int,
                columns(st, x)[k].1 as int,
            ) && st[slot(columns(st, x)[k].0 as int, columns(st, x)[k].1 as int)] == FRONTIER,
    decreases x,
{
    if x > 0 {
        lemma_columns_cells(st, x - 1);
        lemma_column_cells(st, x - 1, 30);
    }
}

/// Finds the next cell for a mover on `from` on its way to `to`: see
/// `next_step`. The result is `(0, 0)` if the search finds no cell;
/// otherwise it is a cell that can be entered, within one step of `from`.
pub fn pathfind(map: &Arena, from: (i32, i32), to: (i32, i32)) -> (r: (i32, i32))
    requires
        map.wf(),
        map.inside(from.0 as int, from.1 as int),
        map.interior(to.0 as int, to.1 as int),
    ensures
        (r.0 as int, r.1 as int) == next_step(
            map,
            (from.0 as int, from.1 as int),
            (to.0 as int, to.1 as int),
        ),
        r != (0i32, 0i32) ==> map.interior(r.0 as int, r.1 as int) && map.pass_at(
            r.0 as int,
            r.1 as int,
        ) && manhattan(r.0 as int, r.1 as int, from.0 as int, from.1 as int) <= 1,
{
    let ghost goal = (to.0 as int, to.1 as int);
    let ghost q = (15 + from.0 - to.0, 15 + from.1 - to.1);
    let mut state: Vec<u8> = Vec::new();
    let mut n: usize = 0;
    while n < WINDOW_CELLS
        invariant
            n <= WINDOW_CELLS,
            state.len() == n,
            forall|i: int| 0 <= i < n ==> state@[i] == FRESH,
        decreases WINDOW_CELLS - n,
    {
        state.push(FRESH);
        n = n + 1;
    }
    assert(state@ =~= Seq::new(WINDOW_CELLS as nat, |i: int| FRESH));
    let qx: i32 = MOB_FOV as i32 / 2 + from.0 - to.0;
    let qy: i32 = MOB_FOV as i32 / 2 + from.1 - to.1;
    mark(map, &mut state, MOB_FOV / 2, MOB_FOV / 2, to);
    let mut tries: usize = 0;
    while tries < ROUNDS
        invariant
            tries <= ROUNDS,
            map.wf(),
            map.inside(from.0 as int, from.1 as int),
            map.interior(to.0 as int, to.1 as int),
            goal == (to.0 as int, to.1 as int),
            q == (15 + from.0 - to.0, 15 + from.1 - to.1),
            qx == q.0,
            qy == q.1,
            sound(map, state@, goal),
            next_step(map, (from.0 as int, from.1 as int), goal) == search(
                map,
                state@,
                q,
                goal,
                (ROUNDS - tries) as nat,
            ),
        decreases ROUNDS - tries,
    {
        let mut poss: Vec<(i32, i32)> = Vec::new();
        let mut full: bool = false;
        let mut x: usize = 0;
        while x < MOB_FOV
            invariant
                x <= MOB_FOV,
                state.len() == WINDOW_CELLS,
                !full ==> poss@ == columns(state@, x as int),
                !full ==> poss.len() <= FRONTIER_LIMIT,
                full ==> columns(state@, x as int).len() > FRONTIER_LIMIT,
            decreases MOB_FOV - x,
        {
            let mut y: usize = 0;
            while y < MOB_FOV
                invariant
                    x < MOB_FOV,
                    y <= MOB_FOV,
                    state.len() == WINDOW_CELLS,
                    !full ==> poss@ == columns(state@, x as int) + column(state@, x as int, y as int),
                    !full ==> poss.len() <= FRONTIER_LIMIT,
                    full ==> (columns(state@, x as int) + column(state@, x as int, y as int)).len()
                        > FRONTIER_LIMIT,
                decreases MOB_FOV - y,
            {
                let ghost before = columns(state@, x as int) + column(state@, x as int, y as int);
                if state[x + y * MOB_FOV] == FRONTIER {
                    if !full {
                        if poss.len() == FRONTIER_LIMIT {
                            full = true;
                        } else {
                            poss.push((x as i32, y as i32));
                        }
                    }
                    proof {
                        assert(columns(state@, x as int) + column(state@, x as int, y + 1)
                            =~= before.push((x as i32, y as i32)));
                    }
                }
                y = y + 1;
            }
            x = x + 1;
        }
        if full || poss.len() == 0 {
            return (0, 0);
        }
        proof {
            lemma_columns_cells(state@, 30);
        }
        let ghost round_start = state@;
        let mut best_k: usize = 0;
        let mut best_d: i32 = 1024;
        let mut k: usize = 0;
        while k < poss.len()
            invariant
                k <= poss.len(),
                best_k < poss.len(),
                tries < ROUNDS,
                0 < poss.len() <= FRONTIER_LIMIT,
                poss@ == frontier(round_start),
                next_step(map, (from.0 as int, from.1 as int), goal) == search(
                    map,
                    round_start,
                    q,
                    goal,
                    (ROUNDS - tries) as nat,
                ),
                map.wf(),
                map.inside(from.0 as int, from.1 as int),
                map.interior(to.0 as int, to.1 as int),
                goal == (to.0 as int, to.1 as int),
                q == (15 + from.0 - to.0, 15 + from.1 - to.1),
                qx == q.0,
                qy == q.1,
                sound(map, state@, goal),
                forall|j: int|
                    0 <= j < poss.len() ==> in_window(
                        (#[trigger] poss@[j]).0 as int,
                        poss@[j].1 as int,
                    ) && map.interior(poss@[j].0 - 15 + to.0, poss@[j].1 - 15 + to.1) && map.pass_at(
                        poss@[j].0 - 15 + to.0,
                        poss@[j].1 - 15 + to.1,
                    ),
                scan(map, round_start, poss@, q, goal, 0, 0, 1024) == scan(
                    map,
                    state@,
                    poss@,
                    q,
                    goal,
                    k as int,
                    best_k as int,
                    best_d as int,
                ),
            decreases poss.len() - k,
        {
            let pos: (i32, i32) = poss[k];
            assert(in_window(pos.0 as int, pos.1 as int));
            let d: i32 = dist(qx, qy, pos.0, pos.1);
            if d <= 1 {
                return (pos.0 - MOB_FOV as i32 / 2 + to.0, pos.1 - MOB_FOV as i32 / 2 + to.1);
            }
            if d < best_d {
                best_d = d;
                best_k = k;
            }
            let best: (i32, i32) = poss[best_k];
            assert(in_window(best.0 as int, best.1 as int));
            mark(map, &mut state, best.0 as usize, best.1 as usize, to);
            k = k + 1;
        }
        tries = tries + 1;
    }
    (0, 0)
}

/// Rows without a frontier cell add nothing to a column.
proof fn lemma_column_skip(st: Seq<u8>, x: int, y0: int, y: int)
    requires
        0 <= y0 <= y,
        forall|r: int| y0 <= r < y ==> st[#[trigger] slot(x, r)] != FRONTIER,
    ensures
        column(st, x, y) == column(st, x, y0),
    decreases y - y0,
{
    if y > y0 {
        assert(st[slot(x, y - 1)] != FRONTIER);
        lemma_column_skip(st, x, y0, y - 1);
    }
}

/// Columns without a frontier cell add nothing to the frontier.
proof fn lemma_columns_skip(st: Seq<u8>, x0: int, x: int)
    requires
        0 <= x0 <= x,
        forall|c: int, r: int| x0 <= c < x && 0 <= r < 30 ==> st[#[trigger] slot(c, r)] != FRONTIER,
    ensures
        columns(st, x) == columns(st, x0),
    decreases x - x0,
{
    if x > x0 {
        lemma_columns_skip(st, x0, x - 1);
        assert forall|r: int| 0 <= r < 30 implies st[#[trigger] slot(x - 1, r)] != FRONTIER by {}
        lemma_column_skip(st, x - 1, 0, 30);
        assert(columns(st, x - 1) + column(st, x - 1, 30) =~= columns(st, x - 1));
    }
}

/// The window around `to` after the search spread from its centre, when
/// the four cells next to `to` can be entered: the centre is visited, the
/// four cells next to it are the frontier, and in this order.
proof fn lemma_first_frontier(map: &Arena, to: (int, int))
    requires
        map.pass_at(to.0 - 1, to.1),
        map.pass_at(to.0 + 1, to.1),
        map.pass_at(to.0, to.1 - 1),
        map.pass_at(to.0, to.1 + 1),
    ensures
        frontier(marked(map, Seq::new(WINDOW_CELLS as nat, |i: int| FRESH), 15, 15, to)) == seq![
            (14i32, 15i32),
            (15i32, 14i32),
            (15i32, 16i32),
            (16i32, 15i32),
        ],
{
    let st0 = Seq::new(WINDOW_CELLS as nat, |i: int| FRESH);
    let st = marked(map, st0, 15, 15, to);
    assert(st =~= st0.update(464, FRONTIER).update(466, FRONTIER).update(435, FRONTIER).update(
        495,
        FRONTIER,
    ).update(465, VISITED));
    assert forall|c: int, r: int| in_window(c, r) implies st[#[trigger] slot(c, r)] == (if c == 15
        && r == 15 {
        VISITED
    } else if manhattan(c, r, 15, 15) == 1 {
        FRONTIER
    } else {
        FRESH
    }) by {}
    lemma_columns_skip(st, 0, 14);
    assert(columns(st, 0) =~= Seq::<(i32, i32)>::empty());
    lemma_column_skip(st, 14, 16, 30);
    lemma_column_skip(st, 14, 0, 15);
    assert(st[slot(14, 15)] == FRONTIER);
    assert(column(st, 14, 16) == column(st, 14, 15).push((14i32, 15i32)));
    assert(column(st, 14, 0) =~= Seq::<(i32, i32)>::empty());
    assert(column(st, 14, 30) =~= seq![(14i32, 15i32)]);
    lemma_column_skip(st, 15, 17, 30);
    assert(st[slot(15, 16)] == FRONTIER);
    assert(column(st, 15, 17) == column(st, 15, 16).push((15i32, 16i32)));
    assert(st[slot(15, 15)] == VISITED);
    assert(column(st, 15, 16) == column(st, 15, 15));
    assert(st[slot(15, 14)] == FRONTIER);
    assert(column(st, 15, 15) == column(st, 15, 14).push((15i32, 14i32)));
    lemma_column_skip(st, 15, 0, 14);
    assert(column(st, 15, 0) =~= Seq::<(i32, i32)>::empty());
    assert(column(st, 15, 30) =~= seq![(15i32, 14i32), (15i32, 16i32)]);
    lemma_column_skip(st, 16, 16, 30);
    lemma_column_skip(st, 16, 0, 15);
    assert(st[slot(16, 15)] == FRONTIER);
    assert(column(st, 16, 16) == column(st, 16, 15).push((16i32, 15i32)));
    assert(column(st, 16, 0) =~= Seq::<(i32, i32)>::empty());
    assert(column(st, 16, 30) =~= seq![(16i32, 15i32)]);
    lemma_columns_skip(st, 17, 30);
    assert(columns(st, 15) == columns(st, 14) + column(st, 14, 30));
    assert(columns(st, 16) == columns(st, 15) + column(st, 15, 30));
    assert(columns(st, 17) == columns(st, 16) + column(st, 16, 30));
    assert(columns(st, 17) =~= seq![(14i32, 15i32), (15i32, 14i32), (15i32, 16i32), (16i32, 15i32)]);
}

/// A round that comes by a frontier cell within one step of the mover ends
/// with the first such cell.
proof fn lemma_scan_finds(
    map: &Arena,
    st: Seq<u8>,
    poss: Seq<(i32, i32)>,
    q: (int, int),
    to: (int, int),
    k: int,
    best_k: int,
    best_d: int,
    hit: int,
)
    requires
        0 <= k <= hit < poss.len(),
        manhattan(q.0, q.1, poss[hit].0 as int, poss[hit].1 as int) <= 1,
        forall|j: int|
            k <= j < hit ==> manhattan(q.0, q.1, (#[trigger] poss[j]).0 as int, poss[j].1 as int)
                > 1,
    ensures
        scan(map, st, poss, q, to, k, best_k, best_d) == Round::Found(poss[hit]),
    decreases hit - k,
{
    if k < hit {
        let d = manhattan(q.0, q.1, poss[k].0 as int, poss[k].1 as int);
        let bk = if d < best_d { k } else { best_k };
        let bd = if d < best_d { d } else { best_d };
        lemma_scan_finds(
            map,
            marked(map, st, poss[bk].0 as int, poss[bk].1 as int, to),
            poss,
            q,
            to,
            k + 1,
            bk,
            bd,
            hit,
        );
    }
}

/// The search converges at once for a mover next to its target: if the
/// mover stands on the target or on one of the four cells next to it, and
/// these four cells can be entered, the mover is sent to a cell that can be
/// entered within one step of it, and never to `(0, 0)`. A mover next to
/// the target is told to stay where it is, and a mover on the target to
/// step to the left.
pub proof fn lemma_converges_beside_target(map: &Arena, from: (int, int), to: (int, int))
    requires
        map.wf(),
        map.interior(to.0, to.1),
        manhattan(from.0, from.1, to.0, to.1) <= 1,
        map.pass_at(to.0 - 1, to.1),
        map.pass_at(to.0 + 1, to.1),
        map.pass_at(to.0, to.1 - 1),
        map.pass_at(to.0, to.1 + 1),
    ensures
        next_step(map, from, to) == (if from == to {
            (to.0 - 1, to.1)
        } else {
            from
        }),
        next_step(map, from, to) != (0int, 0int),
        map.pass_at(next_step(map, from, to).0, next_step(map, from, to).1),
        manhattan(next_step(map, from, to).0, next_step(map, from, to).1, from.0, from.1) <= 1,
{
    let st = marked(map, Seq::new(WINDOW_CELLS as nat, |i: int| FRESH), 15, 15, to);
    let q = (15 + from.0 - to.0, 15 + from.1 - to.1);
    let poss = frontier(st);
    lemma_first_frontier(map, to);
    assert(poss.len() == 4);
    assert(poss[0] == (14i32, 15i32) && poss[1] == (15i32, 14i32) && poss[2] == (15i32, 16i32)
        && poss[3] == (16i32, 15i32));
    let hit: int = if from == to || q == (14int, 15int) {
        0
    } else if q == (15int, 14int) {
        1
    } else if q == (15int, 16int) {
        2
    } else {
        3
    };
    lemma_scan_finds(map, st, poss, q, to, 0, 0, 1024, hit);
    assert(search(map, st, q, to, ROUNDS as nat) == (
        poss[hit].0 - 15 + to.0,
        poss[hit].1 - 15 + to.1,
    ));
}

} // verus!
