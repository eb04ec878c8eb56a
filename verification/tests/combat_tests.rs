use rand::rngs::StdRng;
use rand::SeedableRng;
use std::collections::VecDeque;
use that_night::arena::{Arena, Boss};
use that_night::bomb::{chain, check_bomb, clear_around, soften_corners, update_bombs, Bomb};
use that_night::bullet::{check_bullets, check_shot, update_bullets, Bullet};
use that_night::chest::{spawn_chest, ChestType};
use that_night::bullet::is_spent;
use that_night::combat::{apply_shock, is_drop, resolve_kill, sweep, Shock};
use that_night::emp::{check_emp, expire_emps, Emp};
use that_night::enemy::{Enemy, EnemyType, ZombieBoss};
use that_night::grid::MultiVec;
use that_night::player::{Character, Player};
use that_night::sound::{Cue, Sound};
use that_night::stat::Stat;
use that_night::storage::Storage;
use that_night::tile::{MovableWall, Tile, Wall};
use that_night::turret::{check_turret, update_turrets, Turret};
use that_night::util::Position;

fn open_arena(w: i32, h: i32) -> Arena {
    let n = (w * h) as usize;
    let mut tiles = vec![Tile::Empty; n];
    let mut pass = vec![true; n];
    for x in 0..w {
        for y in 0..h {
            if x == 0 || y == 0 || x == w - 1 || y == h - 1 {
                tiles[(y * w + x) as usize] = Tile::Wall(Wall { bullets: 0 });
                pass[(y * w + x) as usize] = false;
            }
        }
    }
    Arena {
        bullets: vec![],
        pass: MultiVec { inner: pass, w: w as usize },
        enemies: MultiVec { inner: vec![None; n], w: w as usize },
        tiles: MultiVec { inner: tiles, w: w as usize },
        bombs: vec![],
        turrets: vec![],
        emps: vec![],
        chests: VecDeque::new(),
        boss: Boss { nth: 0, resp: None, pos: None },
        spawned: 0,
        w,
        h,
    }
}

fn zombie(uid: i32, hp: i8) -> Enemy {
    Enemy { uid, hp, mhp: hp, last: 0, cd: 19, slowed: 0, immobilized: false, ty: EnemyType::Zombie }
}

fn add(a: &mut Arena, x: i32, y: i32, hp: i8) {
    let uid = a.spawned;
    a.spawned += 1;
    a.put_enemy(x, y, zombie(uid, hp));
}

fn count_enemies(a: &Arena) -> usize {
    a.enemies.inner.iter().filter(|e| e.is_some()).count()
}

fn bindings() -> Storage {
    Storage::fresh(vec![1, 2, 3, 4, 5, 6, 7, 8, 9])
}

fn bullet(x: i32, y: i32, dx: i32, dy: i32, pierce: i8, fork: i8) -> Bullet {
    Bullet { x, y, dx, dy, dmg: 1, pierce, fork, last: 0, cd: 3, start: 0, hit: None }
}

#[test]
fn piercing_bullet_kills_three_in_a_line() {
    let mut rng = StdRng::seed_from_u64(21);
    let mut a = open_arena(14, 7);
    let mut player = Player::new(Character::Joshua, 2, 5);
    let mut cues: Vec<Cue> = vec![];
    add(&mut a, 4, 3, 1);
    add(&mut a, 5, 3, 1);
    add(&mut a, 6, 3, 1);
    a.bullets.push(bullet(3, 3, 1, 0, 2, 0));
    let mut gone_after = vec![];
    for frame in 1..=12 {
        update_bullets(&mut a, frame);
        check_bullets(&mut a, &mut player, &mut cues, frame, &mut rng);
        gone_after.push((frame, count_enemies(&a), a.bullets.len()));
    }
    // The bullet steps at the ticks 3, 6 and 9 and kills one enemy at each.
    assert_eq!(gone_after[1], (2, 3, 1));
    assert_eq!(gone_after[2], (3, 2, 1));
    assert_eq!(gone_after[5], (6, 1, 1));
    assert_eq!(gone_after[8], (9, 0, 0));
    assert_eq!(count_enemies(&a), 0);
    assert!(a.bullets.is_empty());
    assert_eq!(player.progress.killed, 3);
    assert_eq!(player.get(Stat::Score), 9);
}

#[test]
fn bullet_without_pierce_stops_at_the_first_enemy() {
    let mut rng = StdRng::seed_from_u64(22);
    let mut a = open_arena(14, 7);
    let mut player = Player::new(Character::Joshua, 2, 5);
    let mut cues: Vec<Cue> = vec![];
    add(&mut a, 4, 3, 3);
    add(&mut a, 5, 3, 1);
    a.bullets.push(bullet(4, 3, 1, 0, 0, 0));
    check_bullets(&mut a, &mut player, &mut cues, 1, &mut rng);
    assert!(a.bullets.is_empty());
    assert_eq!(a.enemy(4, 3).unwrap().hp, 2);
    assert_eq!(a.enemy(5, 3).unwrap().hp, 1);
    assert_eq!(player.progress.killed, 0);
    assert_eq!(player.get(Stat::Score), 0);
}

#[test]
fn a_bullet_hits_the_same_enemy_once() {
    let mut rng = StdRng::seed_from_u64(23);
    let mut a = open_arena(14, 7);
    let mut player = Player::new(Character::Joshua, 2, 5);
    let mut cues: Vec<Cue> = vec![];
    add(&mut a, 4, 3, 5);
    a.bullets.push(bullet(4, 3, 1, 0, 3, 0));
    check_bullets(&mut a, &mut player, &mut cues, 1, &mut rng);
    check_bullets(&mut a, &mut player, &mut cues, 1, &mut rng);
    check_bullets(&mut a, &mut player, &mut cues, 2, &mut rng);
    assert_eq!(a.enemy(4, 3).unwrap().hp, 4);
    assert_eq!(a.bullets.len(), 1);
    assert_eq!(a.bullets[0].hit, Some(0));
    assert_eq!(a.bullets[0].pierce, 2);
    assert_eq!(a.bullets[0].fork, -1);
}

#[test]
fn forking_bullet_spawns_two_children_across_its_flight() {
    let mut rng = StdRng::seed_from_u64(24);
    let mut a = open_arena(14, 9);
    let mut player = Player::new(Character::Joshua, 2, 7);
    let mut cues: Vec<Cue> = vec![];
    add(&mut a, 5, 4, 9);
    a.bullets.push(bullet(5, 4, 1, 0, 1, 1));
    check_bullets(&mut a, &mut player, &mut cues, 40, &mut rng);
    assert_eq!(a.bullets.len(), 3);
    assert_eq!(
        a.bullets[0],
        Bullet { x: 5, y: 4, dx: 1, dy: 0, dmg: 1, pierce: 0, fork: 0, last: 0, cd: 3, start: 0, hit: Some(0) }
    );
    assert_eq!(
        a.bullets[1],
        Bullet { x: 5, y: 3, dx: 0, dy: -1, dmg: 1, pierce: 0, fork: 0, last: 40, cd: 3, start: 40, hit: None }
    );
    assert_eq!(
        a.bullets[2],
        Bullet { x: 5, y: 5, dx: 0, dy: 1, dmg: 1, pierce: 0, fork: 0, last: 40, cd: 3, start: 40, hit: None }
    );
    // The children do not step in the tick they were spawned in.
    update_bullets(&mut a, 40);
    assert_eq!((a.bullets[1].x, a.bullets[1].y), (5, 3));
    assert_eq!((a.bullets[0].x, a.bullets[0].y), (6, 4));
    update_bullets(&mut a, 42);
    assert_eq!((a.bullets[1].x, a.bullets[1].y), (5, 3));
    update_bullets(&mut a, 43);
    assert_eq!((a.bullets[1].x, a.bullets[1].y), (5, 2));
    assert_eq!((a.bullets[2].x, a.bullets[2].y), (5, 6));
    assert_eq!((a.bullets[0].x, a.bullets[0].y), (7, 4));
}

#[test]
fn vertical_bullet_forks_sideways() {
    let mut rng = StdRng::seed_from_u64(25);
    let mut a = open_arena(14, 9);
    let mut player = Player::new(Character::Joshua, 2, 7);
    let mut cues: Vec<Cue> = vec![];
    add(&mut a, 5, 4, 9);
    a.bullets.push(bullet(5, 4, 0, -1, 0, 2));
    check_bullets(&mut a, &mut player, &mut cues, 8, &mut rng);
    // The bullet is spent; its place is taken by the second child.
    assert_eq!(a.bullets.len(), 2);
    assert_eq!((a.bullets[0].x, a.bullets[0].y, a.bullets[0].dx, a.bullets[0].dy), (6, 4, 1, 0));
    assert_eq!((a.bullets[1].x, a.bullets[1].y, a.bullets[1].dx, a.bullets[1].dy), (4, 4, -1, 0));
    assert_eq!(a.bullets[0].fork, 1);
    assert_eq!(a.bullets[1].fork, 1);
}

#[test]
fn bullet_lodges_in_a_wall() {
    let mut rng = StdRng::seed_from_u64(26);
    let mut a = open_arena(8, 8);
    let mut player = Player::new(Character::Joshua, 2, 2);
    let mut cues: Vec<Cue> = vec![];
    a.put_tile(4, 4, Tile::MovableWall(MovableWall { bullets: 2 }));
    a.bullets.push(bullet(6, 3, 1, 0, 5, 0));
    a.bullets.push(bullet(4, 5, 0, -1, 5, 0));
    update_bullets(&mut a, 3);
    assert_eq!((a.bullets[0].x, a.bullets[0].y), (7, 3));
    assert_eq!((a.bullets[1].x, a.bullets[1].y), (4, 4));
    check_bullets(&mut a, &mut player, &mut cues, 3, &mut rng);
    assert!(a.bullets.is_empty());
    assert_eq!(a.tile(7, 3), Tile::Wall(Wall { bullets: 1 }));
    assert_eq!(a.tile(4, 4), Tile::MovableWall(MovableWall { bullets: 3 }));
    // The count of lodged bullets stops at 127.
    a.put_tile(4, 4, Tile::MovableWall(MovableWall { bullets: 127 }));
    a.bullets.push(bullet(4, 4, 0, -1, 5, 0));
    check_bullets(&mut a, &mut player, &mut cues, 4, &mut rng);
    assert_eq!(a.tile(4, 4), Tile::MovableWall(MovableWall { bullets: 127 }));
}

#[test]
fn bullet_sets_off_an_armed_bomb() {
    let mut a = open_arena(12, 8);
    a.bombs.push(Bomb { x: 5, y: 3, radius: 2, dmg: 3, start: 0, duration: 200 });
    a.bombs.push(Bomb { x: 8, y: 3, radius: 2, dmg: 3, start: 0, duration: 55 });
    a.bullets.push(bullet(4, 3, 1, 0, 0, 0));
    a.bullets.push(bullet(7, 3, 1, 0, 0, 0));
    a.bullets.push(bullet(2, 2, 0, 1, 0, 0));
    update_bullets(&mut a, 40);
    // The first bomb is armed and goes off 20 ticks from now; the bullet is gone.
    assert_eq!(a.bombs[0].start + a.bombs[0].duration, 60);
    // The second bomb is in its last 20 ticks; the bullet flies on.
    assert_eq!(a.bombs[1].start, 0);
    assert_eq!(a.bullets.len(), 2);
    let mut at: Vec<(i32, i32)> = a.bullets.iter().map(|b| (b.x, b.y)).collect();
    at.sort();
    assert_eq!(at, vec![(2, 3), (8, 3)]);
}

#[test]
fn shot_needs_ammo_cooldown_and_aim() {
    let mut rng = StdRng::seed_from_u64(27);
    let storage = bindings();
    let mut a = open_arena(12, 12);
    let mut player = Player::new(Character::Joshua, 5, 5);
    let mut cues: Vec<Cue> = vec![];
    assert!(!check_shot(&vec![], &mut player, &mut a, &storage, &mut cues, 50, &mut rng));
    assert!(!check_shot(&vec![99], &mut player, &mut a, &storage, &mut cues, 50, &mut rng));
    assert!(!check_shot(&vec![4], &mut player, &mut a, &storage, &mut cues, 9, &mut rng));
    assert!(a.bullets.is_empty() && cues.is_empty());
    assert!(check_shot(&vec![1, 4], &mut player, &mut a, &storage, &mut cues, 10, &mut rng));
    assert_eq!(
        a.bullets[0],
        Bullet { x: 5, y: 5, dx: 1, dy: 0, dmg: 1, pierce: 0, fork: 0, last: 0, cd: 3, start: 10, hit: None }
    );
    assert_eq!(cues, vec![Cue { sound: Sound::UseAmmo, level: 25, near: 0, dist: 0 }]);
    assert_eq!(player.get(Stat::Ammo), 9);
    assert_eq!(player.get(Stat::LastShot), 10);
    assert_eq!(player.progress.used, [1, 0, 0, 0]);
    assert!(!check_shot(&vec![1], &mut player, &mut a, &storage, &mut cues, 19, &mut rng));
    assert!(check_shot(&vec![1], &mut player, &mut a, &storage, &mut cues, 20, &mut rng));
    assert_eq!((a.bullets[1].dx, a.bullets[1].dy), (0, -1));
    player.set(Stat::Ammo, 0);
    assert!(!check_shot(&vec![1], &mut player, &mut a, &storage, &mut cues, 99, &mut rng));
}

#[test]
fn full_chance_to_keep_ammo_keeps_it() {
    let mut rng = StdRng::seed_from_u64(28);
    let storage = bindings();
    let mut a = open_arena(12, 12);
    let mut player = Player::new(Character::Joshua, 5, 5);
    let mut cues: Vec<Cue> = vec![];
    player.set(Stat::NotConsumeAmmo, 100);
    player.set(Stat::CdShot, 0);
    for frame in 0..30 {
        assert!(check_shot(&vec![3], &mut player, &mut a, &storage, &mut cues, frame, &mut rng));
    }
    assert_eq!(player.get(Stat::Ammo), 10);
    assert_eq!(a.bullets.len(), 30);
    assert_eq!((a.bullets[0].dx, a.bullets[0].dy), (0, 1));
}

#[test]
fn emp_slow_stacks() {
    let mut rng = StdRng::seed_from_u64(31);
    let mut a = open_arena(30, 30);
    let mut player = Player::new(Character::Joshua, 15, 15);
    let mut cues: Vec<Cue> = vec![];
    player.set(Stat::CdEmp, 0);
    add(&mut a, 18, 17, 1);
    add(&mut a, 15, 24, 1);
    assert!(check_emp(&mut player, &mut a, &mut cues, 100, &mut rng));
    assert_eq!(a.enemy(18, 17).unwrap().slowed, 400);
    assert!(check_emp(&mut player, &mut a, &mut cues, 110, &mut rng));
    let e = a.enemy(18, 17).unwrap();
    assert_eq!(e.slowed, 100 + 300 + 300);
    assert_eq!(e.hp, 1);
    assert!(!e.immobilized);
    // The second enemy is nine steps away, one more than the radius.
    assert_eq!(a.enemy(15, 24).unwrap().slowed, 0);
    assert_eq!(player.get(Stat::Emp), 1);
    assert_eq!(player.get(Stat::LastEmp), 110);
    assert_eq!(player.progress.used, [0, 0, 0, 2]);
    assert_eq!(a.emps.len(), 2);
    assert_eq!(
        a.emps[0],
        Emp { x: 15, y: 15, start: 100, duration: 60, slow: 300, radius: 8, damage: 0, immobilize: false }
    );
    assert_eq!(cues[0], Cue { sound: Sound::UseEmp, level: 100, near: 0, dist: 0 });
    // A slow-down that ran out starts anew.
    assert!(check_emp(&mut player, &mut a, &mut cues, 1000, &mut rng));
    assert_eq!(a.enemy(18, 17).unwrap().slowed, 1300);
    assert!(!check_emp(&mut player, &mut a, &mut cues, 1001, &mut rng));
}

#[test]
fn emp_waits_for_its_cooldown() {
    let mut rng = StdRng::seed_from_u64(32);
    let mut a = open_arena(30, 30);
    let mut player = Player::new(Character::Joshua, 15, 15);
    let mut cues: Vec<Cue> = vec![];
    assert!(!check_emp(&mut player, &mut a, &mut cues, 59, &mut rng));
    assert!(check_emp(&mut player, &mut a, &mut cues, 60, &mut rng));
    assert!(!check_emp(&mut player, &mut a, &mut cues, 119, &mut rng));
    assert!(check_emp(&mut player, &mut a, &mut cues, 120, &mut rng));
    expire_emps(&mut a, 150);
    assert_eq!(a.emps.len(), 1);
    assert_eq!(a.emps[0].start, 120);
    expire_emps(&mut a, 180);
    assert!(a.emps.is_empty());
}

#[test]
fn immobilizing_emp_slows_for_half_the_time_and_kills() {
    let mut rng = StdRng::seed_from_u64(33);
    let mut a = open_arena(40, 40);
    let mut player = Player::new(Character::Megan, 20, 20);
    let mut cues: Vec<Cue> = vec![];
    player.set(Stat::DmgEmp, 2);
    add(&mut a, 20, 9, 5);
    add(&mut a, 25, 25, 2);
    add(&mut a, 20, 8, 1);
    assert!(check_emp(&mut player, &mut a, &mut cues, 200, &mut rng));
    let far = a.enemy(20, 9).unwrap();
    assert_eq!(far.slowed, 350);
    assert!(far.immobilized);
    assert_eq!(far.hp, 3);
    assert!(a.enemy(25, 25).is_none());
    assert_eq!(a.enemy(20, 8).unwrap().hp, 1);
    assert_eq!(player.progress.killed, 1);
    assert_eq!(player.get(Stat::Score), 3);
}

#[test]
fn drop_and_spend_decisions() {
    assert!(is_drop(0, 64));
    assert!(!is_drop(0, 65));
    assert!(is_drop(5, 69));
    assert!(!is_drop(5, 70));
    assert!(is_drop(35, 99));
    assert!(is_spent(0, 0));
    assert!(is_spent(20, 20));
    assert!(!is_spent(20, 19));
    assert!(!is_spent(100, 99));
}

#[test]
fn shock_formula() {
    let e = Enemy { slowed: 500, ..zombie(3, 4) };
    let s = Shock { dmg: 1, slows: true, slow: 301, immobilize: true };
    assert_eq!(apply_shock(e, 100, s).slowed, 650);
    assert_eq!(apply_shock(e, 900, s).slowed, 1050);
    assert!(apply_shock(e, 900, s).immobilized);
    let plain = Shock { dmg: 1, slows: false, slow: 301, immobilize: true };
    assert_eq!(apply_shock(e, 900, plain), e);
    let long = Shock { dmg: 0, slows: true, slow: 100_000_000, immobilize: false };
    let late = Enemy { slowed: 1_090_000_000, ..e };
    assert_eq!(apply_shock(late, 5, long).slowed, 1_100_000_000);
}

#[test]
fn killed_boss_opens_a_session() {
    let mut rng = StdRng::seed_from_u64(34);
    let mut a = open_arena(20, 20);
    let mut player = Player::new(Character::Joshua, 3, 3);
    let mut cues: Vec<Cue> = vec![];
    a.spawned = 1;
    a.put_enemy(
        10,
        10,
        Enemy {
            uid: 0,
            hp: 3,
            mhp: 3,
            last: 0,
            cd: 47,
            slowed: 0,
            immobilized: false,
            ty: EnemyType::ZombieBoss(ZombieBoss { last: 0, cd: 360 }),
        },
    );
    a.boss = Boss { nth: 1, resp: Some(5), pos: Some(Position { x: 10, y: 10 }) };
    resolve_kill(&mut a, &mut player, &mut cues, 10, 10, 70, Stat::ScoreBomb, &mut rng);
    assert!(a.enemy(10, 10).is_none());
    assert_eq!(a.boss, Boss { nth: 1, resp: Some(5), pos: None });
    assert_eq!(player.get(Stat::Score), 100);
    assert_eq!(player.progress.killed, 1);
    assert!(player.paused);
    let session = player.upgrading.as_ref().unwrap();
    assert_eq!(session.upgrades.len(), 5);
    assert_eq!(session.ups, 2);
    assert!(session.ret.is_none());
    assert_eq!(cues, vec![Cue { sound: Sound::Upgrade, level: 100, near: 0, dist: 0 }]);
    match a.tile(10, 10) {
        Tile::Chest(c) => {
            assert_eq!(c.ty, ChestType::Rainbow);
            assert_eq!(c.start, 70);
        },
        _ => panic!("the boss left no chest"),
    }
    assert!(!a.passable(10, 10));
}

#[test]
fn killed_zombies_drop_chests_about_two_times_in_three() {
    let mut rng = StdRng::seed_from_u64(35);
    let mut a = open_arena(60, 60);
    let mut player = Player::new(Character::Joshua, 3, 3);
    let mut cues: Vec<Cue> = vec![];
    let mut n = 0;
    for x in 5..55 {
        for y in 5..45 {
            add(&mut a, x, y, 1);
            resolve_kill(&mut a, &mut player, &mut cues, x, y, 1, Stat::ScoreEmp, &mut rng);
            n += 1;
        }
    }
    assert_eq!(player.progress.killed, n);
    assert_eq!(player.get(Stat::Score), 3 * n);
    assert!(cues.is_empty());
    let drops = a.chests.len() as i32;
    assert!(drops > n * 55 / 100 && drops < n * 75 / 100, "{drops} of {n}");
    for (x, y) in a.chests.iter() {
        assert!(!a.passable(*x, *y));
    }
}

#[test]
fn sweep_reaches_the_diamond_and_no_further() {
    let mut rng = StdRng::seed_from_u64(36);
    let mut a = open_arena(30, 30);
    let mut player = Player::new(Character::Joshua, 3, 3);
    let mut cues: Vec<Cue> = vec![];
    for x in 1..29 {
        for y in 1..29 {
            add(&mut a, x, y, 4);
        }
    }
    let shock = Shock { dmg: 1, slows: false, slow: 0, immobilize: false };
    sweep(&mut a, &mut player, &mut cues, 15, 15, 3, 9, shock, Stat::ScoreBomb, &mut rng);
    for x in 1..29 {
        for y in 1..29 {
            let near = (x - 15i32).abs() + (y - 15i32).abs() <= 3;
            assert_eq!(a.enemy(x, y).unwrap().hp, if near { 3 } else { 4 });
        }
    }
    assert_eq!(player.progress.killed, 0);
}

#[test]
fn bomb_is_placed_once_per_cell_and_cooldown() {
    let mut a = open_arena(20, 20);
    let mut player = Player::new(Character::Joshua, 10, 10);
    let mut cues: Vec<Cue> = vec![];
    assert!(!check_bomb(&mut player, &mut a, &mut cues, 59));
    assert!(check_bomb(&mut player, &mut a, &mut cues, 60));
    assert_eq!(a.bombs, vec![Bomb { x: 10, y: 10, radius: 5, dmg: 3, start: 60, duration: 200 }]);
    assert_eq!(cues, vec![Cue { sound: Sound::UseBomb, level: 50, near: 0, dist: 0 }]);
    assert_eq!(player.get(Stat::Bomb), 2);
    assert_eq!(player.get(Stat::LastBomb), 60);
    assert_eq!(player.progress.used, [0, 1, 0, 0]);
    assert!(!check_bomb(&mut player, &mut a, &mut cues, 200));
    player.x = 11;
    assert!(!check_bomb(&mut player, &mut a, &mut cues, 119));
    assert!(check_bomb(&mut player, &mut a, &mut cues, 120));
    player.x = 12;
    assert!(check_bomb(&mut player, &mut a, &mut cues, 180));
    player.x = 13;
    assert!(!check_bomb(&mut player, &mut a, &mut cues, 240));
    assert_eq!(a.bombs.len(), 3);
}

#[test]
fn chained_bomb_goes_off_within_twenty_ticks() {
    let mut rng = StdRng::seed_from_u64(41);
    let mut a = open_arena(50, 50);
    let mut player = Player::new(Character::Joshua, 40, 40);
    let mut cues: Vec<Cue> = vec![];
    a.bombs.push(Bomb { x: 10, y: 10, radius: 5, dmg: 3, start: 0, duration: 200 });
    a.bombs.push(Bomb { x: 13, y: 11, radius: 5, dmg: 3, start: 100, duration: 200 });
    a.bombs.push(Bomb { x: 10, y: 16, radius: 5, dmg: 3, start: 100, duration: 200 });
    add(&mut a, 16, 12, 2);
    for frame in 0..190 {
        update_bombs(&mut a, &mut player, &mut cues, frame, &mut rng);
        assert_eq!(a.bombs[1].start, 100);
    }
    update_bombs(&mut a, &mut player, &mut cues, 190, &mut rng);
    // The first bomb went off at 190: the second one, four steps away, ends at 210.
    assert_eq!(a.bombs[1].start + a.bombs[1].duration, 210);
    // The third one is six steps away and keeps its fuse.
    assert_eq!(a.bombs[2].start, 100);
    assert_eq!(a.enemy(16, 12).unwrap().hp, 2);
    for frame in 191..200 {
        update_bombs(&mut a, &mut player, &mut cues, frame, &mut rng);
    }
    assert_eq!(a.bombs.len(), 3);
    update_bombs(&mut a, &mut player, &mut cues, 200, &mut rng);
    // At 200 the first bomb is removed and the second one goes off.
    assert_eq!(a.bombs.len(), 2);
    assert!(a.enemy(16, 12).is_none());
    let second = a.bombs.iter().find(|b| (b.x, b.y) == (13, 11)).unwrap();
    assert_eq!(second.start + second.duration, 210);
    for frame in 201..=220 {
        update_bombs(&mut a, &mut player, &mut cues, frame, &mut rng);
    }
    // The third bomb, out of reach of both blasts, is the only one left.
    assert_eq!(a.bombs, vec![Bomb { x: 10, y: 16, radius: 5, dmg: 3, start: 100, duration: 200 }]);
    assert!(!player.dead);
    assert_eq!(player.progress.killed, 1);
    assert_eq!(player.get(Stat::Score), 3);
}

#[test]
fn chain_pulls_only_armed_bombs_in_reach() {
    let mut a = open_arena(30, 30);
    a.bombs.push(Bomb { x: 10, y: 10, radius: 4, dmg: 3, start: 0, duration: 110 });
    a.bombs.push(Bomb { x: 12, y: 12, radius: 1, dmg: 3, start: 50, duration: 200 });
    a.bombs.push(Bomb { x: 12, y: 13, radius: 1, dmg: 3, start: 50, duration: 200 });
    a.bombs.push(Bomb { x: 10, y: 11, radius: 1, dmg: 3, start: 0, duration: 115 });
    chain(&mut a, 0, 100);
    assert_eq!(a.bombs[0], Bomb { x: 10, y: 10, radius: 4, dmg: 3, start: 0, duration: 110 });
    assert_eq!(a.bombs[1], Bomb { x: 12, y: 12, radius: 1, dmg: 3, start: -80, duration: 200 });
    assert_eq!(a.bombs[2].start, 50);
    assert_eq!(a.bombs[3].start, 0);
}

#[test]
fn blast_kills_the_player_in_reach() {
    let mut rng = StdRng::seed_from_u64(42);
    let mut a = open_arena(30, 30);
    let mut player = Player::new(Character::Joshua, 12, 13);
    let mut cues: Vec<Cue> = vec![];
    a.bombs.push(Bomb { x: 10, y: 10, radius: 5, dmg: 3, start: 0, duration: 30 });
    update_bombs(&mut a, &mut player, &mut cues, 19, &mut rng);
    assert!(!player.dead);
    update_bombs(&mut a, &mut player, &mut cues, 20, &mut rng);
    assert!(player.dead);
    let mut far = Player::new(Character::Joshua, 13, 13);
    a.bombs[0].start = 1;
    update_bombs(&mut a, &mut far, &mut cues, 21, &mut rng);
    assert!(!far.dead);
}

#[test]
fn bomb_ticks_and_warns_by_its_clock() {
    let mut rng = StdRng::seed_from_u64(43);
    let mut a = open_arena(30, 30);
    let mut player = Player::new(Character::Joshua, 20, 14);
    let mut cues: Vec<Cue> = vec![];
    a.bombs.push(Bomb { x: 10, y: 10, radius: 2, dmg: 3, start: 0, duration: 200 });
    let mut heard = vec![];
    for frame in 0..=200 {
        let before = cues.len();
        update_bombs(&mut a, &mut player, &mut cues, frame, &mut rng);
        for c in &cues[before..] {
            heard.push((frame, c.sound, c.level, c.near, c.dist));
        }
    }
    assert_eq!(
        heard,
        vec![
            (30, Sound::BombTick, 75, 100, 14),
            (90, Sound::BombTick, 75, 100, 14),
            (150, Sound::BombTick, 75, 100, 14),
            (180, Sound::BombExplosion, 80, 100, 14),
        ]
    );
    assert!(a.bombs.is_empty());
}

#[test]
fn blast_clears_the_cells_beside_it() {
    let mut rng = StdRng::seed_from_u64(44);
    let mut a = open_arena(12, 12);
    a.put_tile(4, 5, Tile::Wall(Wall { bullets: 3 }));
    a.put_tile(5, 6, Tile::MovableWall(MovableWall { bullets: 0 }));
    assert!(spawn_chest(&mut a, 0, 6, 5, ChestType::Ammo));
    assert!(spawn_chest(&mut a, 0, 8, 8, ChestType::Ammo));
    add(&mut a, 5, 4, 2);
    a.put_tile(4, 4, Tile::Wall(Wall { bullets: 2 }));
    a.put_tile(6, 6, Tile::MovableWall(MovableWall { bullets: 1 }));
    a.put_tile(6, 4, Tile::Wall(Wall { bullets: 0 }));
    clear_around(&mut a, 5, 5, 4, 77, &mut rng);
    for (x, y) in [(4, 5), (5, 6), (6, 5), (5, 4)] {
        assert_eq!(a.tile(x, y), Tile::Empty);
    }
    assert!(a.passable(4, 5) && a.passable(5, 6) && a.passable(6, 5));
    // An enemy stands on the fourth cell.
    assert!(!a.passable(5, 4));
    let queue: Vec<(i32, i32)> = a.chests.iter().copied().collect();
    assert_eq!(queue, vec![(8, 8)]);
    assert_eq!(a.bullets.len(), 3);
    for b in &a.bullets {
        assert_eq!((b.x, b.y), (4, 5));
        assert_eq!((b.dmg, b.pierce, b.fork, b.last, b.start, b.hit), (4, 0, 0, 0, 77, None));
        assert!(2 <= b.cd && b.cd <= 4);
        assert_eq!(b.dx.abs() + b.dy.abs(), 1);
    }
    soften_corners(&mut a, 5, 5);
    assert_eq!(a.tile(4, 4), Tile::MovableWall(MovableWall { bullets: 2 }));
    assert_eq!(a.tile(6, 6), Tile::MovableWall(MovableWall { bullets: 1 }));
    assert_eq!(a.tile(6, 4), Tile::MovableWall(MovableWall { bullets: 0 }));
    assert_eq!(a.tile(4, 6), Tile::Empty);
    // The border is never cleared nor softened.
    clear_around(&mut a, 1, 1, 1, 78, &mut rng);
    soften_corners(&mut a, 1, 1);
    assert_eq!(a.tile(0, 1), Tile::Wall(Wall { bullets: 0 }));
    assert_eq!(a.tile(1, 0), Tile::Wall(Wall { bullets: 0 }));
    assert_eq!(a.tile(0, 0), Tile::Wall(Wall { bullets: 0 }));
}

#[test]
fn turret_is_placed_and_blocks_its_cell() {
    let mut rng = StdRng::seed_from_u64(51);
    let storage = bindings();
    let mut a = open_arena(20, 20);
    let mut player = Player::new(Character::Matthew, 10, 10);
    let mut cues: Vec<Cue> = vec![];
    assert!(!check_turret(&vec![2], &mut player, &mut a, &storage, &mut cues, 59, &mut rng));
    assert!(check_turret(&vec![1, 2], &mut player, &mut a, &storage, &mut cues, 60, &mut rng));
    assert_eq!(
        a.turrets,
        vec![Turret { x: 10, y: 10, dmg: 1, direction: 0, start: 60, duration: 1800, cd: 300, last: -240 }]
    );
    assert!(!a.passable(10, 10));
    assert_eq!(cues, vec![Cue { sound: Sound::UseTurret, level: 30, near: 0, dist: 0 }]);
    assert_eq!(player.get(Stat::Turret), 2);
    assert_eq!(player.progress.used, [0, 0, 1, 0]);
    assert!(!check_turret(&vec![2], &mut player, &mut a, &storage, &mut cues, 500, &mut rng));
    player.y = 11;
    assert!(check_turret(&vec![], &mut player, &mut a, &storage, &mut cues, 500, &mut rng));
    assert!(a.turrets[1].direction < 4);
    // No turret on a bomb.
    player.y = 12;
    a.bombs.push(Bomb { x: 10, y: 12, radius: 1, dmg: 1, start: 0, duration: 9999 });
    assert!(!check_turret(&vec![], &mut player, &mut a, &storage, &mut cues, 900, &mut rng));
}

#[test]
fn turret_shoots_by_its_clock_and_leaves() {
    let mut a = open_arena(20, 20);
    let player = Player::new(Character::Joshua, 14, 13);
    let mut cues: Vec<Cue> = vec![];
    a.turrets.push(Turret { x: 10, y: 10, dmg: 2, direction: 3, start: 0, duration: 700, cd: 300, last: -300 });
    a.set_pass(10, 10, false);
    let mut shots = vec![];
    for frame in 0..=700 {
        let before = a.bullets.len();
        update_turrets(&mut a, &player, &mut cues, frame);
        if a.bullets.len() > before {
            shots.push(frame);
        }
        if frame < 700 {
            assert_eq!(a.turrets.len(), 1);
            assert!(!a.passable(10, 10));
        }
    }
    assert_eq!(shots, vec![0, 300, 600]);
    assert!(a.turrets.is_empty());
    assert!(a.passable(10, 10));
    assert_eq!(
        a.bullets[1],
        Bullet { x: 10, y: 10, dx: 0, dy: 1, dmg: 2, pierce: 0, fork: 0, last: 0, cd: 3, start: 300, hit: None }
    );
    assert_eq!(cues.len(), 3);
    assert_eq!(cues[0], Cue { sound: Sound::TurretShoot, level: 30, near: 100, dist: 7 });
}

#[test]
fn turret_leaving_an_occupied_cell_keeps_it_blocked() {
    let mut a = open_arena(20, 20);
    let player = Player::new(Character::Joshua, 14, 13);
    let mut cues: Vec<Cue> = vec![];
    add(&mut a, 10, 10, 1);
    a.turrets.push(Turret { x: 10, y: 10, dmg: 2, direction: 0, start: 0, duration: 5, cd: 300, last: 0 });
    update_turrets(&mut a, &player, &mut cues, 5);
    assert!(a.turrets.is_empty());
    assert!(!a.passable(10, 10));
    assert!(a.enemy(10, 10).is_some());
}

#[test]
fn each_shooting_turret_adds_one_bullet() {
    let mut a = open_arena(20, 20);
    let player = Player::new(Character::Joshua, 14, 13);
    let mut cues: Vec<Cue> = vec![];
    a.bullets.push(bullet(3, 3, 1, 0, 0, 0));
    for (x, last, duration) in [(5, -300, 700), (7, 0, 700), (9, -300, 100), (11, 90, 700)] {
        a.turrets.push(Turret { x, y: 10, dmg: 2, direction: 0, start: 0, duration, cd: 100, last });
        a.set_pass(x, 10, false);
    }
    // At tick 100 the first three shoot, and the third is taken down after its shot.
    update_turrets(&mut a, &player, &mut cues, 100);
    assert_eq!(a.bullets.len(), 1 + 3);
    assert_eq!(a.bullets[0], bullet(3, 3, 1, 0, 0, 0));
    let mut from: Vec<i32> = a.bullets[1..].iter().map(|b| b.x).collect();
    from.sort();
    assert_eq!(from, vec![5, 7, 9]);
    assert_eq!(a.turrets.len(), 3);
    assert_eq!(cues.len(), 3);
    assert!(a.passable(9, 10));
}

#[test]
fn a_bomb_is_set_off_by_one_bullet_only() {
    let mut a = open_arena(12, 8);
    a.bombs.push(Bomb { x: 5, y: 3, radius: 2, dmg: 3, start: 0, duration: 200 });
    a.bullets.push(bullet(4, 3, 1, 0, 0, 0));
    a.bullets.push(bullet(5, 2, 0, 1, 0, 0));
    update_bullets(&mut a, 40);
    // The first bullet sets the bomb off and is gone; for the second the bomb is in its last
    // 20 ticks, so it flies on.
    assert_eq!(a.bombs, vec![Bomb { x: 5, y: 3, radius: 2, dmg: 3, start: -140, duration: 200 }]);
    assert_eq!(a.bullets.len(), 1);
    assert_eq!((a.bullets[0].x, a.bullets[0].y, a.bullets[0].dy, a.bullets[0].last), (5, 3, 1, 40));
    // A bullet that is not due stays where it is, whatever lies ahead.
    let mut b = open_arena(12, 8);
    b.bombs.push(Bomb { x: 5, y: 3, radius: 2, dmg: 3, start: 0, duration: 200 });
    b.bullets.push(Bullet { last: 39, ..bullet(4, 3, 1, 0, 0, 0) });
    update_bullets(&mut b, 40);
    assert_eq!(b.bullets, vec![Bullet { last: 39, ..bullet(4, 3, 1, 0, 0, 0) }]);
    assert_eq!(b.bombs[0].start, 0);
}

#[test]
fn bombs_that_do_not_go_off_leave_the_rest_alone() {
    let mut rng = StdRng::seed_from_u64(61);
    let mut a = open_arena(20, 20);
    let mut player = Player::new(Character::Joshua, 10, 10);
    let mut cues: Vec<Cue> = vec![];
    add(&mut a, 11, 10, 1);
    a.put_tile(9, 10, Tile::MovableWall(MovableWall { bullets: 0 }));
    a.bullets.push(bullet(10, 11, 1, 0, 0, 0));
    a.bombs.push(Bomb { x: 10, y: 10, radius: 3, dmg: 3, start: 0, duration: 200 });
    a.bombs.push(Bomb { x: 12, y: 10, radius: 3, dmg: 3, start: 0, duration: 100 });
    let (tiles, pass, enemies) = (a.tiles.inner.clone(), a.pass.inner.clone(), a.enemies.inner.clone());
    let (bullets, first, stats) = (a.bullets.clone(), a.bombs[0], player.stats.clone());
    // At tick 100 the second bomb's fuse is over, and the first is 90 ticks from its blast.
    update_bombs(&mut a, &mut player, &mut cues, 100, &mut rng);
    assert_eq!(a.bombs, vec![first]);
    assert_eq!(a.tiles.inner, tiles);
    assert_eq!(a.pass.inner, pass);
    assert_eq!(a.enemies.inner, enemies);
    assert_eq!(a.bullets, bullets);
    assert_eq!(player.stats, stats);
    assert!(!player.dead);
}
