use rand::rngs::StdRng;
use rand::SeedableRng;
use std::collections::VecDeque;
use that_night::arena::{Arena, Boss};
use that_night::chest::{expire_chest, fits_chest, spawn_chest, spawn_random_chest, Chest, ChestType};
use that_night::enemy::{spawn_boss, spawn_boss_at, spawn_enemy, spawn_enemy_at, Enemy, EnemyType};
use that_night::grid::MultiVec;
use that_night::mapgen::BuildError;
use that_night::player::{Character, Player};
use that_night::sound::{Cue, Sound};
use that_night::stat::Stat;
use that_night::tile::{Tile, Wall};
use that_night::mapgen::{grow_wall, wall_for};
use that_night::tile::MovableWall;
use that_night::util::{bounded_add, dist, max, min, passes};

fn open_arena(w: i32, h: i32) -> Arena {
    let n = (w * h) as usize;
    let mut tiles = vec![Tile::Empty; n];
    let mut pass = vec![true; n];
    for x in 0..w {
        for y in 0..h {
            if x == 0 || y == 0 || x == w - 1 || y == h - 1 {
                tiles[(y * w + x) as usize] = Tile::Wall(Wall { bullets: 0 });
                pass[(y * w + x) as usize] = false;
            }
        }
    }
    Arena {
        bullets: vec![],
        pass: MultiVec { inner: pass, w: w as usize },
        enemies: MultiVec { inner: vec![None; n], w: w as usize },
        tiles: MultiVec { inner: tiles, w: w as usize },
        bombs: vec![],
        turrets: vec![],
        emps: vec![],
        chests: VecDeque::new(),
        boss: Boss { nth: 0, resp: None, pos: None },
        spawned: 0,
        w,
        h,
    }
}

fn assert_consistent(a: &Arena) {
    let mut chest_tiles = 0;
    for x in 0..a.w {
        for y in 0..a.h {
            let tile = a.tile(x, y);
            let border = x == 0 || y == 0 || x == a.w - 1 || y == a.h - 1;
            if a.passable(x, y) {
                assert!(matches!(tile, Tile::Empty), "passable cell ({x}, {y}) is not empty");
                assert!(a.enemy(x, y).is_none(), "passable cell ({x}, {y}) holds an enemy");
                assert!(!border);
            }
            if a.enemy(x, y).is_some() {
                assert!(matches!(tile, Tile::Empty));
                assert!(!border);
            }
            if border {
                assert!(matches!(tile, Tile::Wall(_)));
            }
            if matches!(tile, Tile::Chest(_)) {
                chest_tiles += 1;
                assert!(a.chests.contains(&(x, y)));
            }
        }
    }
    assert_eq!(chest_tiles, a.chests.len());
    for t in &a.turrets {
        assert!(!a.passable(t.x, t.y));
    }
}

fn count_enemies(a: &Arena) -> usize {
    a.enemies.inner.iter().filter(|e| e.is_some()).count()
}

#[test]
fn dist_is_manhattan() {
    assert_eq!(dist(1, 2, 4, 6), 7);
    assert_eq!(dist(4, 6, 1, 2), 7);
    assert_eq!(dist(3, 3, 3, 3), 0);
    assert_eq!(dist(-2, 0, 2, 0), 4);
}

#[test]
fn min_max_and_bounded_add() {
    assert_eq!(min(3, 9), 3);
    assert_eq!(min(9, 3), 3);
    assert_eq!(max(3, 9), 9);
    assert_eq!(max(-1, -7), -1);
    assert_eq!(bounded_add(5, 3, 0, 10), 8);
    assert_eq!(bounded_add(5, 30, 0, 10), 10);
    assert_eq!(bounded_add(5, -30, 0, 10), 0);
    assert_eq!(bounded_add(i32::MAX, i32::MAX, 0, 1_000_000_000), 1_000_000_000);
}

#[test]
fn chances_are_met_below_the_percentage() {
    assert!(passes(0, 1));
    assert!(passes(34, 35));
    assert!(!passes(35, 35));
    assert!(!passes(99, 0));
    assert!(passes(99, 100));
    assert_eq!(wall_for(0), Tile::Wall(Wall { bullets: 0 }));
    assert_eq!(wall_for(69), Tile::Wall(Wall { bullets: 0 }));
    assert_eq!(wall_for(70), Tile::MovableWall(MovableWall { bullets: 0 }));
    assert_eq!(wall_for(99), Tile::MovableWall(MovableWall { bullets: 0 }));
}

#[test]
fn generated_walls_keep_their_shares() {
    let mut rng = StdRng::seed_from_u64(6);
    let t = Arena::generate(200, 200, &mut rng);
    let (mut walls, mut movable, mut empty) = (0, 0, 0);
    for x in 1..199 {
        for y in 1..199 {
            match t.get(x, y) {
                Tile::Wall(w) => {
                    assert_eq!(w.bullets, 0);
                    walls += 1;
                },
                Tile::MovableWall(w) => {
                    assert_eq!(w.bullets, 0);
                    movable += 1;
                },
                Tile::Empty => empty += 1,
                Tile::Chest(_) => panic!("the generator lays no chest"),
            }
        }
    }
    assert!(walls > 1000 && movable > 300 && empty > walls + movable);
    assert!(walls > movable);
}

#[test]
fn multivec_reads_back_what_was_written() {
    let mut plane = MultiVec { inner: vec![0u8; 12], w: 4 };
    plane.set(3, 2, 7);
    plane.set(0, 0, 1);
    assert_eq!(*plane.get(3, 2), 7);
    assert_eq!(*plane.get(0, 0), 1);
    assert_eq!(*plane.get(2, 2), 0);
    assert_eq!(plane.inner[11], 7);
}

#[test]
fn chest_type_numbers() {
    assert_eq!(ChestType::from(0), ChestType::Ammo);
    assert_eq!(ChestType::from(1), ChestType::Bomb);
    assert_eq!(ChestType::from(2), ChestType::Turret);
    assert_eq!(ChestType::from(3), ChestType::Emp);
    assert_eq!(ChestType::from(4), ChestType::Food);
    assert_eq!(ChestType::from(5), ChestType::Rainbow);
}

#[test]
fn random_chest_type_is_never_rainbow() {
    let mut rng = StdRng::seed_from_u64(11);
    let mut seen = [false; 5];
    for _ in 0..400 {
        let ty = ChestType::random(&mut rng);
        assert_ne!(ty, ChestType::Rainbow);
        match ty {
            ChestType::Ammo => seen[0] = true,
            ChestType::Bomb => seen[1] = true,
            ChestType::Turret => seen[2] = true,
            ChestType::Emp => seen[3] = true,
            ChestType::Food => seen[4] = true,
            ChestType::Rainbow => unreachable!(),
        }
    }
    assert!(seen.iter().all(|s| *s));
}

#[test]
fn built_arena_is_consistent() {
    let mut rng = StdRng::seed_from_u64(1);
    let a = Arena::build(60, 50, 40, 25, &mut rng).unwrap();
    assert_eq!(a.w, 60);
    assert_eq!(a.h, 50);
    assert_eq!(a.spawned, 40);
    assert_eq!(count_enemies(&a), 40);
    assert_eq!(a.chests.len(), 25);
    assert!(a.bullets.is_empty() && a.bombs.is_empty() && a.turrets.is_empty() && a.emps.is_empty());
    assert_eq!(a.boss, Boss { nth: 0, resp: None, pos: None });
    assert_consistent(&a);
    for x in 0..a.w {
        for y in 0..a.h {
            let d = dist(x, y, a.w / 2, a.h / 2);
            if d < 10 {
                assert!(!matches!(a.tile(x, y), Tile::Wall(_) | Tile::MovableWall(_)));
            }
            if let Some(e) = a.enemy(x, y) {
                assert!(d > 20);
                assert_eq!(e.hp, 1);
                assert_eq!(e.mhp, 1);
                assert_eq!(e.cd, 19);
                assert!(0 <= e.last && e.last <= 120);
                assert!(0 <= e.uid && e.uid < 40);
                assert_eq!(e.ty, EnemyType::Zombie);
            }
            if let Tile::Chest(c) = a.tile(x, y) {
                assert_eq!(c.start, 0);
                assert_eq!(c.duration, 14_400);
                assert_ne!(c.ty, ChestType::Rainbow);
            }
        }
    }
}

#[test]
fn generated_walls_are_never_enclosed() {
    let mut rng = StdRng::seed_from_u64(5);
    let t = Arena::generate(70, 70, &mut rng);
    let solid = |x: i32, y: i32| matches!(t.get(x, y), Tile::Wall(_) | Tile::MovableWall(_));
    let mut walls = 0;
    for x in 1..69 {
        for y in 1..69 {
            if matches!(t.get(x, y), Tile::Wall(_)) {
                walls += 1;
                assert!(!(solid(x - 1, y) && solid(x + 1, y) && solid(x, y - 1) && solid(x, y + 1)));
            }
            if matches!(t.get(x - 1, y - 1), Tile::Wall(_))
                && matches!(t.get(x - 1, y), Tile::Wall(_))
                && matches!(t.get(x, y - 1), Tile::Wall(_))
            {
                assert!(matches!(t.get(x, y), Tile::Empty));
            }
        }
    }
    assert!(walls > 0);
    for i in 0..70 {
        assert!(matches!(t.get(i, 0), Tile::Wall(_)));
        assert!(matches!(t.get(i, 69), Tile::Wall(_)));
        assert!(matches!(t.get(0, i), Tile::Wall(_)));
        assert!(matches!(t.get(69, i), Tile::Wall(_)));
    }
}

#[test]
fn standard_arena_has_the_standard_counts() {
    let mut rng = StdRng::seed_from_u64(2);
    let a = Arena::new(&mut rng).unwrap();
    assert_eq!((a.w, a.h), (400, 400));
    assert_eq!(a.spawned, 1024);
    assert_eq!(count_enemies(&a), 1024);
    assert_eq!(a.chests.len(), 480);
    assert_consistent(&a);
    // The zombies have the numbers from 0 to 1023, each once.
    let mut uids: Vec<i32> = a.enemies.inner.iter().flatten().map(|e| e.uid).collect();
    uids.sort();
    assert_eq!(uids, (0..1024).collect::<Vec<i32>>());
}

#[test]
fn no_more_zombies_start_than_cells_fit() {
    let mut rng = StdRng::seed_from_u64(12);
    // In an open arena of 25 by 25 cells only three cells in each corner of the interior lie
    // more than twenty steps from the centre.
    let mut a = open_arena(25, 25);
    let mut fit = 0;
    for x in 0..25 {
        for y in 0..25 {
            if a.fits_start(x, y) {
                fit += 1;
            }
        }
    }
    assert_eq!(fit, 12);
    assert!(!a.spawn_enemies(13, &mut rng));
    assert!(a.spawned <= 12);
    assert_eq!(count_enemies(&a), a.spawned as usize);
    assert_consistent(&a);
}

#[test]
fn building_fails_when_there_is_no_room() {
    let mut rng = StdRng::seed_from_u64(3);
    // Every interior cell of a 9 by 9 arena lies within 20 steps of the centre.
    assert_eq!(Arena::build(9, 9, 1, 0, &mut rng).err(), Some(BuildError::NoRoom));
    // A 5 by 5 arena has 9 interior cells.
    assert_eq!(Arena::build(5, 5, 0, 10, &mut rng).err(), Some(BuildError::NoRoom));
    assert!(Arena::build(5, 5, 0, 0, &mut rng).is_ok());
}

#[test]
fn building_without_zombies_and_chests_always_succeeds() {
    for seed in 0..20 {
        let mut rng = StdRng::seed_from_u64(seed);
        let a = Arena::build(3, 3, 0, 0, &mut rng).unwrap();
        assert_eq!((a.w, a.h, a.spawned, a.chests.len()), (3, 3, 0, 0));
        assert!(Arena::build(30, 17, 0, 0, &mut rng).is_ok());
    }
}

#[test]
fn building_fails_with_more_zombies_than_numbers() {
    let mut rng = StdRng::seed_from_u64(3);
    assert_eq!(Arena::build(60, 60, 1_000_000_001, 0, &mut rng).err(), Some(BuildError::NoRoom));
}

#[test]
fn zombie_is_spawned_only_on_a_cell_that_fits() {
    let mut a = open_arena(80, 80);
    let mut player = Player::new(Character::Joshua, 40, 40);
    player.set(Stat::Score, 4200);
    // On a wall, and closer than 28 steps to the player, nothing happens.
    assert!(!spawn_enemy_at(&mut a, &player, 0, 5));
    assert!(!spawn_enemy_at(&mut a, &player, 40, 13));
    assert!(!spawn_enemy_at(&mut a, &player, 50, 23));
    assert_eq!(a.spawned, 0);
    assert!(spawn_enemy_at(&mut a, &player, 40, 12));
    assert_eq!(
        a.enemy(40, 12),
        Some(Enemy {
            uid: 0,
            hp: 5,
            mhp: 5,
            last: 0,
            cd: 19,
            slowed: 0,
            immobilized: false,
            ty: EnemyType::Zombie
        })
    );
    assert!(!a.passable(40, 12));
    assert_eq!(a.spawned, 1);
    // Not on an enemy, and not when the numbers are used up.
    assert!(!spawn_enemy_at(&mut a, &player, 40, 12));
    a.spawned = 1_000_000_000;
    assert!(!spawn_enemy_at(&mut a, &player, 70, 70));
    assert!(a.enemy(70, 70).is_none());
    let mut rng = StdRng::seed_from_u64(4);
    assert!(!spawn_enemy(&mut a, &player, &mut rng));
    let mut cues: Vec<Cue> = vec![];
    assert_eq!(spawn_boss(&mut a, &player, &mut cues, 0, 3, &mut rng), None);
    assert!(cues.is_empty());
    assert_consistent(&a);
}

#[test]
fn boss_is_spawned_only_on_a_cell_that_fits() {
    let mut a = open_arena(80, 80);
    let player = Player::new(Character::Joshua, 40, 40);
    let mut cues: Vec<Cue> = vec![];
    assert!(!spawn_boss_at(&mut a, &player, &mut cues, 9, 4, 40, 16));
    assert!(!spawn_boss_at(&mut a, &player, &mut cues, 9, 4, 79, 79));
    assert!(cues.is_empty());
    assert_eq!(a.spawned, 0);
    assert!(spawn_boss_at(&mut a, &player, &mut cues, 9, 4, 40, 15));
    let boss = a.enemy(40, 15).unwrap();
    assert_eq!((boss.uid, boss.hp, boss.mhp, boss.cd, boss.last), (0, 4, 4, 47, 0));
    assert!(matches!(boss.ty, EnemyType::ZombieBoss(b) if b.last == 9 && b.cd == 360));
    assert_eq!(cues, vec![Cue { sound: Sound::BossAppear, level: 50, near: 0, dist: 0 }]);
    assert!(!spawn_boss_at(&mut a, &player, &mut cues, 9, 4, 40, 15));
    assert_eq!(cues.len(), 1);
    assert_consistent(&a);
}

#[test]
fn random_chest_fits_free_cells_away_from_the_player() {
    let mut a = open_arena(50, 50);
    let player = Player::new(Character::Joshua, 25, 25);
    assert!(fits_chest(&a, &player, 25, 9));
    assert!(!fits_chest(&a, &player, 25, 10));
    assert!(!fits_chest(&a, &player, 0, 0));
    assert!(fits_chest(&a, &player, 1, 1));
    assert!(spawn_chest(&mut a, 0, 1, 1, ChestType::Ammo));
    assert!(!fits_chest(&a, &player, 1, 1));
}

#[test]
fn spawn_chest_only_takes_empty_cells() {
    let mut a = open_arena(10, 10);
    assert!(spawn_chest(&mut a, 7, 3, 4, ChestType::Bomb));
    assert_eq!(a.tile(3, 4), Tile::Chest(Chest { start: 7, duration: 14_400, ty: ChestType::Bomb }));
    assert!(!a.passable(3, 4));
    assert_eq!(a.chests.len(), 1);
    assert_eq!(a.chests[0], (3, 4));
    // On a chest, on a wall and on an enemy nothing happens.
    assert!(!spawn_chest(&mut a, 8, 3, 4, ChestType::Ammo));
    assert!(!spawn_chest(&mut a, 8, 0, 0, ChestType::Ammo));
    a.spawned = 1;
    a.put_enemy(
        5,
        5,
        Enemy {
            uid: 0,
            hp: 1,
            mhp: 1,
            last: 0,
            cd: 19,
            slowed: 0,
            immobilized: false,
            ty: EnemyType::Zombie,
        },
    );
    assert!(!spawn_chest(&mut a, 8, 5, 5, ChestType::Ammo));
    assert_eq!(a.chests.len(), 1);
    assert_consistent(&a);
}

#[test]
fn chests_expire_in_the_order_they_were_spawned() {
    let mut a = open_arena(12, 12);
    let cells = [(2, 2), (9, 3), (4, 8), (7, 7), (3, 5)];
    for (x, y) in cells {
        assert!(spawn_chest(&mut a, 0, x, y, ChestType::Food));
    }
    let d = 14_400;
    for frame in [0, 1, d - 1] {
        assert!(!expire_chest(&mut a, frame));
        assert_eq!(a.chests.len(), 5);
    }
    for (k, (x, y)) in cells.iter().enumerate() {
        assert_eq!(a.chests[0], (*x, *y));
        assert!(expire_chest(&mut a, d));
        assert_eq!(a.tile(*x, *y), Tile::Empty);
        assert!(a.passable(*x, *y));
        assert_eq!(a.chests.len(), 4 - k);
        let rest: Vec<(i32, i32)> = a.chests.iter().copied().collect();
        assert_eq!(rest, cells[k + 1..].to_vec());
        assert_consistent(&a);
    }
    assert!(!expire_chest(&mut a, d));
}

#[test]
fn a_young_chest_at_the_head_holds_the_queue() {
    let mut a = open_arena(12, 12);
    assert!(spawn_chest(&mut a, 100, 2, 2, ChestType::Ammo));
    assert!(spawn_chest(&mut a, 0, 3, 3, ChestType::Ammo));
    assert!(!expire_chest(&mut a, 14_400));
    assert!(!expire_chest(&mut a, 14_499));
    assert!(expire_chest(&mut a, 14_500));
    assert!(expire_chest(&mut a, 14_500));
    assert!(a.chests.is_empty());
}

#[test]
fn random_chest_keeps_clear_of_the_player() {
    let mut rng = StdRng::seed_from_u64(9);
    let mut a = open_arena(50, 50);
    let player = Player::new(Character::Joshua, 25, 25);
    for frame in 0..60 {
        assert!(spawn_random_chest(&mut a, &player, frame, &mut rng));
    }
    assert_eq!(a.chests.len(), 60);
    for (x, y) in a.chests.iter() {
        assert!(dist(*x, *y, 25, 25) >= 16);
        match a.tile(*x, *y) {
            Tile::Chest(c) => {
                assert_ne!(c.ty, ChestType::Rainbow);
                assert_eq!(c.duration, 14_400);
            },
            _ => panic!("queue names a cell without a chest"),
        }
    }
    assert_consistent(&a);
}

#[test]
fn random_chest_gives_up_without_room() {
    let mut rng = StdRng::seed_from_u64(9);
    // Every cell of a 12 by 12 arena lies within 16 steps of its centre.
    let mut a = open_arena(12, 12);
    let player = Player::new(Character::Joshua, 6, 6);
    assert!(!spawn_random_chest(&mut a, &player, 0, &mut rng));
    assert!(a.chests.is_empty());
}

#[test]
fn spawned_zombie_follows_the_score() {
    let mut rng = StdRng::seed_from_u64(4);
    let mut a = open_arena(80, 80);
    let mut player = Player::new(Character::Joshua, 40, 40);
    assert!(spawn_enemy(&mut a, &player, &mut rng));
    player.set(Stat::Score, 2999);
    assert!(spawn_enemy(&mut a, &player, &mut rng));
    player.set(Stat::Score, 1_000_000_000);
    assert!(spawn_enemy(&mut a, &player, &mut rng));
    assert_eq!(a.spawned, 3);
    let mut hps = vec![];
    for x in 0..80 {
        for y in 0..80 {
            if let Some(e) = a.enemy(x, y) {
                assert!(dist(x, y, 40, 40) >= 28);
                assert_eq!(e.hp, e.mhp);
                assert_eq!(e.last, 0);
                hps.push((e.uid, e.hp));
            }
        }
    }
    hps.sort();
    assert_eq!(hps, vec![(0, 1), (1, 3), (2, 127)]);
    assert_consistent(&a);
}

#[test]
fn spawned_boss_keeps_its_distance() {
    let mut rng = StdRng::seed_from_u64(4);
    let mut a = open_arena(80, 80);
    let player = Player::new(Character::Joshua, 40, 40);
    let mut cues: Vec<Cue> = vec![];
    let (x, y) = spawn_boss(&mut a, &player, &mut cues, 77, 5, &mut rng).unwrap();
    assert!(dist(x, y, 40, 40) > 24);
    let boss = a.enemy(x, y).unwrap();
    assert_eq!(boss.hp, 5);
    assert_eq!(boss.mhp, 5);
    assert_eq!(boss.cd, 47);
    assert_eq!(boss.uid, 0);
    match boss.ty {
        EnemyType::ZombieBoss(b) => {
            assert_eq!(b.last, 77);
            assert_eq!(b.cd, 360);
        },
        EnemyType::Zombie => panic!("not a boss"),
    }
    assert_eq!(cues, vec![Cue { sound: Sound::BossAppear, level: 50, near: 0, dist: 0 }]);
    assert_eq!(a.spawned, 1);
    assert_consistent(&a);
}

#[test]
fn walls_grow_near_walls_and_sprout_elsewhere() {
    let wall = Tile::Wall(Wall { bullets: 0 });
    let movable = Tile::MovableWall(MovableWall { bullets: 0 });
    // A wall is near and the first roll meets the chance to grow: the second roll picks the kind.
    assert_eq!(grow_wall(1, 34, 69, 99), Some(wall));
    assert_eq!(grow_wall(9, 0, 70, 99), Some(movable));
    // The first roll fails: the third decides whether a wall sprouts.
    assert_eq!(grow_wall(1, 35, 0, 2), Some(wall));
    assert_eq!(grow_wall(1, 35, 0, 3), None);
    // No wall is near: only sprouting is left, whatever the first roll.
    assert_eq!(grow_wall(0, 0, 99, 2), Some(wall));
    assert_eq!(grow_wall(0, 0, 0, 3), None);
    assert_eq!(grow_wall(0, 99, 99, 99), None);
}

#[test]
fn first_zombie_takes_a_free_cell_away_from_the_centre() {
    let mut a = open_arena(60, 60);
    // The border and the cells within twenty steps of the centre do not fit.
    assert!(!a.fits_start(0, 5));
    assert!(!a.fits_start(30, 30));
    assert!(!a.fits_start(30, 10));
    assert!(a.fits_start(30, 9));
    assert!(!a.start_zombie_at(30, 10, 7));
    assert_eq!(count_enemies(&a), 0);
    assert_eq!(a.spawned, 0);
    assert!(a.start_zombie_at(30, 9, 7));
    let e = a.enemy(30, 9).unwrap();
    assert_eq!((e.uid, e.hp, e.mhp, e.last), (0, 1, 1, 7));
    assert!(matches!(e.ty, EnemyType::Zombie));
    assert!(!a.passable(30, 9));
    assert_eq!(a.spawned, 1);
    // The cell is taken now.
    assert!(!a.fits_start(30, 9));
    assert!(!a.start_zombie_at(30, 9, 0));
    assert_eq!(count_enemies(&a), 1);
    assert!(a.start_zombie_at(5, 5, 120));
    assert_eq!(a.enemy(5, 5).unwrap().uid, 1);
    assert_eq!(a.spawned, 2);
    assert_consistent(&a);
    // No number is left: nothing is placed.
    a.spawned = 1_000_000_000;
    let before = count_enemies(&a);
    assert!(a.fits_start(6, 6));
    assert!(!a.start_zombie_at(6, 6, 0));
    assert_eq!(count_enemies(&a), before);
}

#[test]
fn first_chest_takes_any_cell_that_can_be_entered() {
    let mut a = open_arena(40, 40);
    assert!(!a.start_chest_at(0, 0, ChestType::Ammo));
    assert!(a.chests.is_empty());
    assert!(a.start_chest_at(20, 20, ChestType::Food));
    assert_eq!(
        a.tile(20, 20),
        Tile::Chest(Chest { start: 0, duration: 14400, ty: ChestType::Food })
    );
    assert!(!a.passable(20, 20));
    assert_eq!(a.chests.len(), 1);
    assert_eq!(a.chests[0], (20, 20));
    // A cell with a chest cannot be entered: no second chest is laid there.
    assert!(!a.start_chest_at(20, 20, ChestType::Bomb));
    assert_eq!(a.chests.len(), 1);
    assert!(a.start_chest_at(21, 20, ChestType::Bomb));
    assert_eq!(a.chests[1], (21, 20));
    assert_consistent(&a);
}
