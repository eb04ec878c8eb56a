use std::collections::VecDeque;
use that_night::arena::{Arena, Boss};
use that_night::grid::MultiVec;
use that_night::pathfind::{mark, pathfind};
use that_night::tile::{Tile, Wall};
use that_night::util::dist;

fn open_arena(w: i32, h: i32) -> Arena {
    let n = (w * h) as usize;
    let mut tiles = vec![Tile::Empty; n];
    let mut pass = vec![true; n];
    for x in 0..w {
        for y in 0..h {
            if x == 0 || y == 0 || x == w - 1 || y == h - 1 {
                tiles[(y * w + x) as usize] = Tile::Wall(Wall { bullets: 0 });
                pass[(y * w + x) as usize] = false;
            }
        }
    }
    Arena {
        bullets: vec![],
        pass: MultiVec { inner: pass, w: w as usize },
        enemies: MultiVec { inner: vec![None; n], w: w as usize },
        tiles: MultiVec { inner: tiles, w: w as usize },
        bombs: vec![],
        turrets: vec![],
        emps: vec![],
        chests: VecDeque::new(),
        boss: Boss { nth: 0, resp: None, pos: None },
        spawned: 0,
        w,
        h,
    }
}

fn wall(a: &mut Arena, x: i32, y: i32) {
    a.put_tile(x, y, Tile::Wall(Wall { bullets: 0 }));
}

#[test]
fn mark_reaches_the_four_neighbours() {
    let mut a = open_arena(40, 40);
    wall(&mut a, 21, 20);
    let mut state = vec![0u8; 900];
    mark(&a, &mut state, 15, 15, (20, 20));
    assert_eq!(state[15 + 15 * 30], 1);
    assert_eq!(state[14 + 15 * 30], 2);
    assert_eq!(state[16 + 15 * 30], 0);
    assert_eq!(state[15 + 14 * 30], 2);
    assert_eq!(state[15 + 16 * 30], 2);
    assert_eq!(state.iter().filter(|s| **s != 0).count(), 4);
    // A visited cell is not reached again, and the rim of the window has no outside.
    mark(&a, &mut state, 14, 15, (20, 20));
    assert_eq!(state[15 + 15 * 30], 1);
    assert_eq!(state[14 + 15 * 30], 1);
    assert_eq!(state[13 + 15 * 30], 2);
    let mut rim = vec![0u8; 900];
    mark(&a, &mut rim, 0, 29, (20, 20));
    assert_eq!(rim[0 + 29 * 30], 1);
    assert_eq!(rim[1 + 29 * 30], 2);
    assert_eq!(rim[0 + 28 * 30], 2);
    assert_eq!(rim.iter().filter(|s| **s != 0).count(), 3);
}

#[test]
fn mover_beside_the_target_converges_at_once() {
    let a = open_arena(40, 40);
    let to = (20, 20);
    for from in [(19, 20), (21, 20), (20, 19), (20, 21)] {
        let r = pathfind(&a, from, to);
        assert_ne!(r, (0, 0));
        assert_eq!(r, from);
        assert!(dist(r.0, r.1, from.0, from.1) <= 1);
        assert!(a.passable(r.0, r.1));
    }
    assert_eq!(pathfind(&a, to, to), (19, 20));
}

#[test]
fn mover_on_a_blocked_cell_is_sent_around_the_target() {
    // An enemy blocks its own cell, so that cell is never on the frontier.
    let mut a = open_arena(40, 40);
    a.set_pass(20, 19, false);
    let r = pathfind(&a, (20, 19), (20, 20));
    assert_eq!(r, (19, 19));
    assert!(a.passable(r.0, r.1));
    assert_eq!(dist(r.0, r.1, 20, 19), 1);
}

#[test]
fn search_names_a_cell_next_to_the_mover() {
    let a = open_arena(60, 60);
    let to = (30, 30);
    for from in [(25, 30), (30, 22), (36, 33), (24, 24), (40, 30), (30, 42), (19, 19)] {
        let r = pathfind(&a, from, to);
        assert_ne!(r, (0, 0), "from {from:?}");
        assert!(dist(r.0, r.1, from.0, from.1) <= 1);
        assert!(a.passable(r.0, r.1));
    }
}

#[test]
fn search_is_deterministic() {
    let mut a = open_arena(60, 60);
    for y in 20..41 {
        if y != 33 {
            wall(&mut a, 26, y);
        }
    }
    let first = pathfind(&a, (22, 30), (30, 30));
    for _ in 0..5 {
        assert_eq!(pathfind(&a, (22, 30), (30, 30)), first);
    }
}

#[test]
fn walled_in_target_gives_no_step() {
    let mut a = open_arena(40, 40);
    for (x, y) in [(19, 20), (21, 20), (20, 19), (20, 21)] {
        wall(&mut a, x, y);
    }
    assert_eq!(pathfind(&a, (10, 10), (20, 20)), (0, 0));
    assert_eq!(pathfind(&a, (20, 18), (20, 20)), (0, 0));
}

#[test]
fn mover_outside_the_window_gives_no_step() {
    let a = open_arena(120, 120);
    // The window reaches 15 cells to the left and 14 to the right of the target.
    assert_eq!(pathfind(&a, (10, 60), (60, 60)), (0, 0));
    assert_eq!(pathfind(&a, (60, 110), (60, 60)), (0, 0));
}

#[test]
fn target_next_to_the_border_is_searched_safely() {
    let a = open_arena(40, 40);
    let r = pathfind(&a, (5, 1), (1, 1));
    assert!(r == (0, 0) || (dist(r.0, r.1, 5, 1) <= 1 && a.passable(r.0, r.1)));
    let r = pathfind(&a, (38, 30), (38, 38));
    assert!(r == (0, 0) || (dist(r.0, r.1, 38, 30) <= 1 && a.passable(r.0, r.1)));
}

#[test]
fn mark_spreads_from_a_cell_on_the_border_of_the_arena() {
    let a = open_arena(40, 40);
    // The window is centred on (15, 20), so its left rim is the left border of the arena.
    let mut state = vec![0u8; 900];
    mark(&a, &mut state, 0, 15, (15, 20));
    assert_eq!(state[0 + 15 * 30], 1);
    // The cell to the right can be entered; those above and below are border walls.
    assert_eq!(state[1 + 15 * 30], 2);
    assert_eq!(state[0 + 14 * 30], 0);
    assert_eq!(state[0 + 16 * 30], 0);
    assert_eq!(state.iter().filter(|s| **s != 0).count(), 2);
}
