use rand::rngs::StdRng;
use rand::SeedableRng;
use std::collections::VecDeque;
use that_night::arena::{Arena, Boss};
use that_night::enemy::{act, is_free, step_enemy, summon, update_enemies, Enemy, EnemyType, ZombieBoss};
use that_night::grid::MultiVec;
use that_night::input::Nav;
use that_night::player::{Character, Player};
use that_night::playing::{
    call_boss, end_phase, is_boss_due, is_touched, next_boss_hp, note_boss, rescale_enemies, Held,
    Outcome, Playing, Signal,
};
use that_night::sound::{Cue, Sound};
use that_night::stat::Stat;
use that_night::storage::{mask, Achievement, AchievementState, Storage};
use that_night::tile::{Tile, Wall};
use that_night::upgrading::Upgrade;
use that_night::util::dist;

fn open_arena(w: i32, h: i32) -> Arena {
    let n = (w * h) as usize;
    let mut tiles = vec![Tile::Empty; n];
    let mut pass = vec![true; n];
    for x in 0..w {
        for y in 0..h {
            if x == 0 || y == 0 || x == w - 1 || y == h - 1 {
                tiles[(y * w + x) as usize] = Tile::Wall(Wall { bullets: 0 });
                pass[(y * w + x) as usize] = false;
            }
        }
    }
    Arena {
        bullets: vec![],
        pass: MultiVec { inner: pass, w: w as usize },
        enemies: MultiVec { inner: vec![None; n], w: w as usize },
        tiles: MultiVec { inner: tiles, w: w as usize },
        bombs: vec![],
        turrets: vec![],
        emps: vec![],
        chests: VecDeque::new(),
        boss: Boss { nth: 0, resp: None, pos: None },
        spawned: 0,
        w,
        h,
    }
}

fn zombie(uid: i32, hp: i8) -> Enemy {
    Enemy { uid, hp, mhp: hp, last: 0, cd: 19, slowed: 0, immobilized: false, ty: EnemyType::Zombie }
}

fn add(a: &mut Arena, x: i32, y: i32, e: Enemy) {
    a.spawned += 1;
    a.put_enemy(x, y, e);
}

fn bindings() -> Storage {
    Storage::fresh(vec![1, 2, 3, 4, 5, 6, 7, 8, 9])
}

fn enemies_of(a: &Arena) -> Vec<(i32, i32, Enemy)> {
    let mut v = vec![];
    for x in 0..a.w {
        for y in 0..a.h {
            if let Some(e) = a.enemy(x, y) {
                v.push((x, y, e));
            }
        }
    }
    v
}

fn assert_consistent(a: &Arena) {
    let mut chest_tiles = 0;
    for x in 0..a.w {
        for y in 0..a.h {
            let tile = a.tile(x, y);
            if a.passable(x, y) {
                assert!(matches!(tile, Tile::Empty), "passable cell ({x}, {y}) is not empty");
                assert!(a.enemy(x, y).is_none(), "passable cell ({x}, {y}) holds an enemy");
            }
            if a.enemy(x, y).is_some() {
                assert!(matches!(tile, Tile::Empty));
            }
            if x == 0 || y == 0 || x == a.w - 1 || y == a.h - 1 {
                assert!(matches!(tile, Tile::Wall(_)));
            }
            if matches!(tile, Tile::Chest(_)) {
                chest_tiles += 1;
                assert!(a.chests.contains(&(x, y)));
            }
        }
    }
    assert_eq!(chest_tiles, a.chests.len());
    for t in &a.turrets {
        assert!(!a.passable(t.x, t.y));
    }
    for b in &a.bullets {
        assert!(0 < b.x && b.x < a.w - 1 && 0 < b.y && b.y < a.h - 1);
    }
}

const IDLE: Held = Held { shoot: false, turret: false };

#[test]
fn boss_appears_at_the_threshold() {
    let mut rng = StdRng::seed_from_u64(71);
    let mut storage = bindings();
    let mut cues: Vec<Cue> = vec![];
    let mut run = Playing::start(Character::Joshua, open_arena(80, 80));
    assert_eq!(run.player.get(Stat::Score), 0);
    for _ in 0..30 {
        run.update(&mut storage, IDLE, &mut cues, &mut rng);
    }
    assert_eq!(run.map.boss, Boss { nth: 0, resp: None, pos: None });
    run.player.set(Stat::Score, 200);
    let out = run.update(&mut storage, IDLE, &mut cues, &mut rng);
    assert_eq!(out, Outcome { signal: Signal::Continue, save: false });
    assert_eq!(run.map.boss.nth, 1);
    assert_eq!(run.map.boss.resp, Some(30));
    let pos = run.map.boss.pos.unwrap();
    let bosses: Vec<(i32, i32, Enemy)> =
        enemies_of(&run.map).into_iter().filter(|(_, _, e)| matches!(e.ty, EnemyType::ZombieBoss(_))).collect();
    assert_eq!(bosses.len(), 1);
    let (mut x, mut y, boss) = bosses[0];
    assert_eq!((boss.hp, boss.mhp), (3, 3));
    assert_eq!((pos.x, pos.y), (x, y));
    assert!(cues.contains(&Cue { sound: Sound::BossAppear, level: 50, near: 0, dist: 0 }));
    // No second boss while the first one lives; the tracker follows it.
    for _ in 0..200 {
        run.update(&mut storage, IDLE, &mut cues, &mut rng);
        if run.player.dead {
            break;
        }
        assert_eq!(run.map.boss.nth, 1);
        let pos = run.map.boss.pos.unwrap();
        let bosses: Vec<(i32, i32, Enemy)> = enemies_of(&run.map)
            .into_iter()
            .filter(|(_, _, e)| matches!(e.ty, EnemyType::ZombieBoss(_)))
            .collect();
        assert_eq!(bosses.len(), 1);
        assert!((bosses[0].0 - x).abs() <= 1 && (bosses[0].1 - y).abs() <= 1);
        x = bosses[0].0;
        y = bosses[0].1;
        assert_eq!((pos.x, pos.y), (x, y));
    }
}

#[test]
fn boss_is_not_due_below_the_threshold_or_while_one_lives() {
    let mut rng = StdRng::seed_from_u64(72);
    let mut a = open_arena(80, 80);
    let mut player = Player::new(Character::Joshua, 40, 40);
    let mut cues: Vec<Cue> = vec![];
    player.set(Stat::Score, 199);
    assert!(!call_boss(&mut a, &player, &mut cues, 5, &mut rng));
    player.set(Stat::Score, 200);
    assert!(call_boss(&mut a, &player, &mut cues, 5, &mut rng));
    player.set(Stat::Score, 5000);
    assert!(!call_boss(&mut a, &player, &mut cues, 6, &mut rng));
    a.boss.pos = None;
    player.set(Stat::Score, 599);
    assert!(!call_boss(&mut a, &player, &mut cues, 7, &mut rng));
    player.set(Stat::Score, 600);
    assert!(call_boss(&mut a, &player, &mut cues, 8, &mut rng));
    assert_eq!(a.boss.nth, 2);
    assert_eq!(a.boss.resp, Some(8));
    let pos = a.boss.pos.unwrap();
    assert_eq!(a.enemy(pos.x, pos.y).unwrap().hp, 4);
    assert_eq!(cues.len(), 2);
}

#[test]
fn boss_threshold_hit_points_and_tracker() {
    let mut a = open_arena(30, 30);
    let mut player = Player::new(Character::Joshua, 15, 15);
    assert!(!is_boss_due(&player, &a));
    player.set(Stat::Score, 200);
    assert!(is_boss_due(&player, &a));
    a.boss.nth = 3;
    player.set(Stat::Score, 1399);
    assert!(!is_boss_due(&player, &a));
    player.set(Stat::Score, 1400);
    assert!(is_boss_due(&player, &a));
    a.boss.nth = 1_000_000_000;
    player.set(Stat::Score, 1_000_000_000);
    assert!(!is_boss_due(&player, &a));
    assert_eq!(next_boss_hp(0), 3);
    assert_eq!(next_boss_hp(1), 4);
    assert_eq!(next_boss_hp(124), 127);
    assert_eq!(next_boss_hp(1_000_000_000), 127);
    a.boss.nth = 6;
    note_boss(&mut a, (7, 9), 321);
    assert_eq!(
        a.boss,
        Boss { nth: 7, resp: Some(321), pos: Some(that_night::util::Position { x: 7, y: 9 }) }
    );
    player.set(Stat::Score, 1_000_000_000);
    assert!(!is_boss_due(&player, &a));
    a.boss.nth = 1_000_000_000;
    note_boss(&mut a, (1, 1), 5);
    assert_eq!(a.boss.nth, 1_000_000_000);
}

#[test]
fn old_chests_and_pulses_leave_at_the_end_of_a_tick() {
    let mut rng = StdRng::seed_from_u64(90);
    let mut storage = bindings();
    let mut cues: Vec<Cue> = vec![];
    let mut run = Playing::start(Character::Joshua, open_arena(90, 90));
    assert!(that_night::chest::spawn_chest(&mut run.map, -14_400 + 7, 5, 5, that_night::chest::ChestType::Ammo));
    assert!(that_night::chest::spawn_chest(&mut run.map, 1000, 6, 6, that_night::chest::ChestType::Ammo));
    run.map.emps.push(that_night::emp::Emp {
        x: 3,
        y: 3,
        start: 0,
        duration: 8,
        slow: 0,
        radius: 1,
        damage: 0,
        immobilize: false,
    });
    run.frame = 1;
    for _ in 1..7 {
        run.update(&mut storage, IDLE, &mut cues, &mut rng);
        assert_eq!(run.map.chests.len(), 2);
        assert_eq!(run.map.emps.len(), 1);
    }
    run.update(&mut storage, IDLE, &mut cues, &mut rng);
    assert_eq!(run.map.tile(5, 5), Tile::Empty);
    assert!(run.map.passable(5, 5));
    assert_eq!(run.map.chests.iter().copied().collect::<Vec<_>>(), vec![(6, 6)]);
    assert_eq!(run.map.emps.len(), 1);
    run.update(&mut storage, IDLE, &mut cues, &mut rng);
    assert!(run.map.emps.is_empty());
    assert_eq!(run.map.chests.len(), 1);
}

#[test]
fn tick_counts_score_food_and_time() {
    let mut rng = StdRng::seed_from_u64(73);
    let mut storage = bindings();
    let mut cues: Vec<Cue> = vec![];
    let mut run = Playing::start(Character::Joshua, open_arena(90, 90));
    for _ in 0..121 {
        let out = run.update(&mut storage, IDLE, &mut cues, &mut rng);
        assert_eq!(out.signal, Signal::Continue);
    }
    assert_eq!(run.frame, 121);
    // One point at each of the ticks 0, 60 and 120, and a zombie with it.
    assert_eq!(run.player.get(Stat::Score), 3);
    assert_eq!(run.map.spawned, 3);
    assert_eq!(enemies_of(&run.map).len(), 3);
    // A chest at each of the ticks 0, 30, 60, 90 and 120.
    assert_eq!(run.map.chests.len(), 5);
    assert_eq!(run.player.get(Stat::Food), 1_000_000 - 121 * 85);
    assert_consistent(&run.map);
}

#[test]
fn hungry_player_dies_and_the_run_is_settled_once() {
    let mut rng = StdRng::seed_from_u64(74);
    let mut storage = bindings();
    let mut cues: Vec<Cue> = vec![];
    let mut run = Playing::start(Character::Joshua, open_arena(90, 90));
    run.player.set(Stat::Food, 170);
    run.player.set(Stat::Score, 3100);
    run.player.paused = false;
    let out = run.update(&mut storage, IDLE, &mut cues, &mut rng);
    assert_eq!(out.signal, Signal::Continue);
    assert!(!run.player.dead);
    let out = run.update(&mut storage, IDLE, &mut cues, &mut rng);
    assert_eq!(out, Outcome { signal: Signal::Terminate, save: true });
    assert!(run.player.dead && run.player.paused);
    assert_eq!(cues.last(), Some(&Cue { sound: Sound::Defeat, level: 50, near: 0, dist: 0 }));
    assert_eq!(storage.highscore, run.player.get(Stat::Score));
    assert!(storage.has(Achievement::UnlockMegan));
    assert!(storage.has(Achievement::UnlockLiShen));
    assert!(!storage.has(Achievement::UnlockAnne));
    assert!(!storage.has(Achievement::UnlockAndrew));
    assert!(!storage.has(Achievement::Tutorial));
    // A run that is over stays as it is, and nothing more is saved.
    let frame = run.frame;
    let heard = cues.len();
    for _ in 0..3 {
        let out = run.update(&mut storage, IDLE, &mut cues, &mut rng);
        assert_eq!(out, Outcome { signal: Signal::Terminate, save: false });
    }
    assert_eq!(run.frame, frame);
    assert_eq!(cues.len(), heard);
}

#[test]
fn settling_twice_grants_nothing_twice() {
    let mut storage = bindings();
    storage.highscore = 500;
    assert!(storage.settle(1200, 0, &[0, 4, 0, 0]));
    assert_eq!(storage.highscore, 1200);
    let flags: Vec<bool> = storage.achievements.iter().map(|a| a.state).collect();
    assert_eq!(flags, vec![false, true, false, false, false, true]);
    assert!(!storage.settle(1200, 0, &[0, 4, 0, 0]));
    assert_eq!(storage.highscore, 1200);
    let again: Vec<bool> = storage.achievements.iter().map(|a| a.state).collect();
    assert_eq!(again, flags);
    // A lower score with new feats changes the flags only.
    assert!(storage.settle(60, 150, &[0, 0, 3, 0]));
    assert_eq!(storage.highscore, 1200);
    let third: Vec<bool> = storage.achievements.iter().map(|a| a.state).collect();
    assert_eq!(third, vec![false, true, true, true, false, true]);
    assert!(!storage.settle(60, 150, &[0, 0, 3, 0]));
    assert!(!storage.settle(1200, 149, &[1, 1, 1, 1]));
    assert!(storage.settle(3000, 1, &[1, 1, 1, 1]));
    assert!(storage.has(Achievement::UnlockMegan));
}

#[test]
fn achievements_have_exact_thresholds() {
    assert!(Achievement::UnlockAnne.is_earned(1000, 9, &[0, 1, 0, 0]));
    assert!(!Achievement::UnlockAnne.is_earned(999, 9, &[0, 1, 0, 0]));
    assert!(!Achievement::UnlockAnne.is_earned(1000, 9, &[0, 0, 0, 0]));
    assert!(!Achievement::UnlockAnne.is_earned(1000, 9, &[1, 1, 0, 0]));
    assert!(Achievement::UnlockAndrew.is_earned(0, 150, &[1, 1, 1, 1]));
    assert!(!Achievement::UnlockAndrew.is_earned(0, 149, &[1, 1, 1, 1]));
    assert!(Achievement::UnlockMatthew.is_earned(0, 50, &[0, 0, 2, 0]));
    assert!(!Achievement::UnlockMatthew.is_earned(0, 49, &[0, 0, 2, 0]));
    assert!(!Achievement::UnlockMatthew.is_earned(0, 50, &[0, 0, 2, 1]));
    assert!(Achievement::UnlockMegan.is_earned(3000, 0, &[0, 0, 0, 0]));
    assert!(!Achievement::UnlockMegan.is_earned(2999, 0, &[0, 0, 0, 0]));
    assert!(Achievement::UnlockLiShen.is_earned(1000, 0, &[5, 0, 0, 0]));
    assert!(!Achievement::UnlockLiShen.is_earned(1000, 1, &[5, 0, 0, 0]));
    assert!(!Achievement::Tutorial.is_earned(9999, 999, &[0, 1, 0, 0]));
    assert_eq!(Achievement::UnlockLiShen.index(), 5);
}

#[test]
fn storage_is_taken_as_loaded_or_made_fresh() {
    let fresh = Storage::new(None, vec![9, 8, 7, 6, 5, 4, 3, 2, 1]);
    assert_eq!(fresh.highscore, 0);
    assert_eq!(fresh.hotkeys, vec![9, 8, 7, 6, 5, 4, 3, 2, 1]);
    assert_eq!(fresh.achievements, vec![AchievementState { state: false }; 6]);
    let mut loaded = bindings();
    loaded.highscore = 77;
    loaded.grant(Achievement::Tutorial);
    let kept = Storage::new(Some(loaded), vec![0; 9]);
    assert_eq!(kept.highscore, 77);
    assert_eq!(kept.hotkeys, vec![1, 2, 3, 4, 5, 6, 7, 8, 9]);
    assert!(kept.has(Achievement::Tutorial));
    let broken = Storage { highscore: 5, hotkeys: vec![1, 2], achievements: vec![] };
    assert!(!broken.is_wf());
    let mended = Storage::new(Some(broken), vec![3; 9]);
    assert_eq!(mended.highscore, 0);
    assert_eq!(mended.hotkeys, vec![3; 9]);
    assert!(mended.is_wf());
}

#[test]
fn mask_hides_and_shows_again() {
    let plain: Vec<u8> = b"{\"highscore\":12}".to_vec();
    let hidden = mask(&plain);
    assert_eq!(hidden.len(), plain.len());
    assert_eq!(hidden[0], b'{' ^ 0b1100_1010);
    assert_ne!(hidden, plain);
    assert_eq!(mask(&hidden), plain);
    assert_eq!(mask(&vec![]), Vec::<u8>::new());
    assert_eq!(mask(&vec![0, 255, 0b1100_1010]), vec![0b1100_1010, 0b0011_0101, 0]);
}

#[test]
fn touching_enemy_ends_the_run() {
    let mut a = open_arena(20, 20);
    let mut player = Player::new(Character::Joshua, 10, 10);
    let mut storage = bindings();
    let mut cues: Vec<Cue> = vec![];
    add(&mut a, 11, 11, zombie(0, 1));
    assert!(!is_touched(&a, &player));
    let out = end_phase(&a, &mut player, &mut storage, &mut cues);
    assert_eq!(out, Outcome { signal: Signal::Continue, save: false });
    assert_eq!(player.get(Stat::Food), 1_000_000 - 85);
    player.running = true;
    let out = end_phase(&a, &mut player, &mut storage, &mut cues);
    assert_eq!(out.signal, Signal::Continue);
    assert_eq!(player.get(Stat::Food), 1_000_000 - 85 - 170);
    player.running = false;
    player.set(Stat::Food, 1_000_000 - 85);
    add(&mut a, 10, 11, zombie(1, 1));
    assert!(is_touched(&a, &player));
    let out = end_phase(&a, &mut player, &mut storage, &mut cues);
    assert_eq!(out, Outcome { signal: Signal::Terminate, save: false });
    assert!(player.dead && player.paused);
    assert_eq!(cues, vec![Cue { sound: Sound::Defeat, level: 50, near: 0, dist: 0 }]);
}

#[test]
fn rescale_sets_every_full_hp() {
    let mut a = open_arena(20, 20);
    add(&mut a, 1, 1, zombie(0, 1));
    add(&mut a, 18, 18, zombie(1, 2));
    add(&mut a, 7, 3, zombie(2, 5));
    rescale_enemies(&mut a, 4);
    for (_, _, e) in enemies_of(&a) {
        assert_eq!(e.mhp, 4);
    }
    let hp: Vec<i8> = enemies_of(&a).iter().map(|(_, _, e)| e.hp).collect();
    assert_eq!(hp, vec![1, 5, 2]);
}

#[test]
fn crossing_a_thousand_raises_the_full_hp() {
    let mut rng = StdRng::seed_from_u64(75);
    let mut storage = bindings();
    let mut cues: Vec<Cue> = vec![];
    let mut run = Playing::start(Character::Joshua, open_arena(90, 90));
    add(&mut run.map, 5, 5, zombie(0, 1));
    run.map.boss.nth = 50;
    run.player.set(Stat::Score, 1999);
    run.update(&mut storage, IDLE, &mut cues, &mut rng);
    assert_eq!(run.player.get(Stat::Score), 2000);
    for (_, _, e) in enemies_of(&run.map) {
        assert_eq!(e.mhp, 3);
    }
    // The zombie spawned in this tick was spawned at full strength.
    assert!(enemies_of(&run.map).iter().any(|(_, _, e)| e.hp == 3));
}

#[test]
fn session_pauses_the_run_until_an_upgrade_is_taken() {
    let mut rng = StdRng::seed_from_u64(76);
    let mut storage = bindings();
    let mut cues: Vec<Cue> = vec![];
    let mut run = Playing::start(Character::Joshua, open_arena(90, 90));
    add(
        &mut run.map,
        45,
        40,
        Enemy {
            uid: 0,
            hp: 1,
            mhp: 3,
            last: 0,
            cd: 1000,
            slowed: 0,
            immobilized: false,
            ty: EnemyType::ZombieBoss(ZombieBoss { last: 0, cd: 100_000 }),
        },
    );
    run.map.boss = Boss { nth: 1, resp: Some(0), pos: Some(that_night::util::Position { x: 45, y: 40 }) };
    run.player.set(Stat::RadEmp, 10);
    run.player.set(Stat::DmgEmp, 1);
    run.frame = 100;
    run.pressed(8, Nav::Other, &storage, IDLE, &mut cues, &mut rng);
    assert!(run.player.paused);
    assert!(run.map.boss.pos.is_none());
    assert_eq!(run.player.get(Stat::Score), 100);
    let frame = run.frame;
    let out = run.update(&mut storage, IDLE, &mut cues, &mut rng);
    assert_eq!(out, Outcome { signal: Signal::Pause, save: false });
    assert_eq!(run.frame, frame);
    assert_eq!(run.player.upgrading.as_ref().unwrap().frame, 1);
    // Keys go to the session.
    run.pressed(4, Nav::Down, &storage, IDLE, &mut cues, &mut rng);
    assert!(run.movement.is_empty());
    assert_eq!(run.player.upgrading.as_ref().unwrap().ups, 3);
    run.pressed(6, Nav::Select, &storage, IDLE, &mut cues, &mut rng);
    assert!(run.map.bombs.is_empty());
    let taken: Upgrade = run.player.upgrading.as_ref().unwrap().ret.unwrap();
    let before = run.player.get(taken.primary().0);
    let out = run.update(&mut storage, IDLE, &mut cues, &mut rng);
    assert_eq!(out, Outcome { signal: Signal::Continue, save: false });
    assert!(!run.player.paused);
    assert!(run.player.upgrading.is_none());
    assert_eq!(run.player.get(taken.primary().0), before + taken.primary().1);
    assert_eq!(run.player.upgrades[taken.index()], 1);
    assert_eq!(run.frame, frame);
    run.update(&mut storage, IDLE, &mut cues, &mut rng);
    assert_eq!(run.frame, frame + 1);
}

#[test]
fn keys_steer_run_and_fire() {
    let mut rng = StdRng::seed_from_u64(77);
    let storage = bindings();
    let mut cues: Vec<Cue> = vec![];
    let mut run = Playing::start(Character::Joshua, open_arena(60, 60));
    run.frame = 100;
    run.pressed(1, Nav::Up, &storage, IDLE, &mut cues, &mut rng);
    run.pressed(4, Nav::Other, &storage, IDLE, &mut cues, &mut rng);
    run.pressed(1, Nav::Up, &storage, IDLE, &mut cues, &mut rng);
    assert_eq!(run.movement, vec![1, 4]);
    run.pressed(9, Nav::Other, &storage, IDLE, &mut cues, &mut rng);
    assert!(run.player.running);
    run.pressed(6, Nav::Other, &storage, IDLE, &mut cues, &mut rng);
    assert_eq!(run.map.bombs.len(), 1);
    run.pressed(8, Nav::Other, &storage, IDLE, &mut cues, &mut rng);
    assert_eq!(run.map.emps.len(), 1);
    run.pressed(50, Nav::Other, &storage, IDLE, &mut cues, &mut rng);
    // A movement key pressed while the turret key is held places a turret: not on a bomb.
    run.pressed(3, Nav::Other, &storage, Held { shoot: false, turret: true }, &mut cues, &mut rng);
    assert_eq!(run.movement, vec![1, 4, 3]);
    assert!(run.map.turrets.is_empty());
    run.player.x = 31;
    run.released(3, &storage, &mut cues, &mut rng);
    run.pressed(3, Nav::Other, &storage, Held { shoot: false, turret: true }, &mut cues, &mut rng);
    assert_eq!(run.map.turrets.len(), 1);
    assert_eq!(run.map.turrets[0].direction, 3);
    run.released(1, &storage, &mut cues, &mut rng);
    assert_eq!(run.movement, vec![4, 3]);
    run.released(1, &storage, &mut cues, &mut rng);
    assert_eq!(run.movement, vec![4, 3]);
    run.released(9, &storage, &mut cues, &mut rng);
    assert!(!run.player.running);
    // Releasing the turret key places a turret where the player can.
    run.released(7, &storage, &mut cues, &mut rng);
    assert_eq!(run.map.turrets.len(), 1);
    run.player.x = 32;
    run.frame = 200;
    run.released(7, &storage, &mut cues, &mut rng);
    assert_eq!(run.map.turrets.len(), 2);
    assert_eq!(run.map.turrets[1].direction, 3);
    // While the game is paused, keys do nothing but leave the keys held.
    run.player.paused = true;
    run.pressed(2, Nav::Other, &storage, IDLE, &mut cues, &mut rng);
    run.pressed(6, Nav::Other, &storage, IDLE, &mut cues, &mut rng);
    run.released(4, &storage, &mut cues, &mut rng);
    run.released(7, &storage, &mut cues, &mut rng);
    assert_eq!(run.movement, vec![3]);
    assert_eq!(run.map.bombs.len(), 1);
    assert_eq!(run.map.turrets.len(), 2);
}

#[test]
fn held_keys_shoot_and_hold_the_player() {
    let mut rng = StdRng::seed_from_u64(78);
    let mut storage = bindings();
    let mut cues: Vec<Cue> = vec![];
    let mut run = Playing::start(Character::Joshua, open_arena(60, 60));
    run.frame = 20;
    run.movement = vec![4];
    run.update(&mut storage, Held { shoot: true, turret: false }, &mut cues, &mut rng);
    assert_eq!((run.player.x, run.player.y), (30, 30));
    assert_eq!(run.player.get(Stat::Ammo), 9);
    assert_eq!(run.map.bullets.len(), 1);
    run.update(&mut storage, Held { shoot: false, turret: true }, &mut cues, &mut rng);
    assert_eq!((run.player.x, run.player.y), (30, 30));
    run.update(&mut storage, IDLE, &mut cues, &mut rng);
    assert_eq!((run.player.x, run.player.y), (31, 30));
}

#[test]
fn enemy_moves_by_its_clock() {
    let mut e = zombie(0, 1);
    e.last = 100;
    assert!(!is_free(&e, 118));
    assert!(is_free(&e, 119));
    e.slowed = 200;
    assert!(!is_free(&e, 156));
    assert!(is_free(&e, 157));
    assert!(is_free(&e, 200));
    e.immobilized = true;
    assert!(!is_free(&e, 199));
    assert!(is_free(&e, 200));
}

#[test]
fn enemy_steps_only_onto_a_free_cell() {
    let mut a = open_arena(20, 20);
    let player = Player::new(Character::Joshua, 10, 14);
    let mut cues: Vec<Cue> = vec![];
    add(&mut a, 10, 10, zombie(0, 2));
    add(&mut a, 10, 11, zombie(1, 2));
    assert!(!step_enemy(&mut a, &player, &mut cues, 10, 10, 10, 11));
    assert!(!step_enemy(&mut a, &player, &mut cues, 10, 10, 10, 10));
    assert!(cues.is_empty());
    assert!(step_enemy(&mut a, &player, &mut cues, 10, 10, 11, 10));
    assert!(a.enemy(10, 10).is_none());
    assert!(a.passable(10, 10));
    assert_eq!(a.enemy(11, 10).unwrap().uid, 0);
    assert!(!a.passable(11, 10));
    assert_eq!(cues, vec![Cue { sound: Sound::Walking, level: 50, near: 10, dist: 4 }]);
    assert!(a.boss.pos.is_none());
    assert_consistent(&a);
}

#[test]
fn boss_summons_one_zombie_beside_it() {
    let mut rng = StdRng::seed_from_u64(79);
    let mut a = open_arena(20, 20);
    add(
        &mut a,
        10,
        10,
        Enemy {
            uid: 0,
            hp: 3,
            mhp: 3,
            last: 0,
            cd: 47,
            slowed: 0,
            immobilized: false,
            ty: EnemyType::ZombieBoss(ZombieBoss { last: 0, cd: 360 }),
        },
    );
    summon(&mut a, 10, 10, 360, &mut rng);
    let all = enemies_of(&a);
    match a.enemy(10, 10).unwrap().ty {
        EnemyType::ZombieBoss(b) => assert_eq!((b.last, b.cd), (360, 360)),
        EnemyType::Zombie => panic!("the boss is gone"),
    }
    assert!(all.len() <= 2);
    for (x, y, e) in all {
        if (x, y) != (10, 10) {
            assert!((x - 10).abs() <= 1 && (y - 10).abs() <= 1);
            assert_eq!(e, Enemy { last: 360, ..zombie(1, 1) });
            assert_eq!(a.spawned, 2);
        }
    }
    assert_consistent(&a);
}

#[test]
fn enemies_keep_their_number_while_they_move() {
    let mut rng = StdRng::seed_from_u64(80);
    let mut a = open_arena(70, 70);
    let player = Player::new(Character::Joshua, 35, 35);
    let mut cues: Vec<Cue> = vec![];
    let mut uid = 0;
    for x in (5..65).step_by(4) {
        for y in (5..65).step_by(5) {
            if dist(x, y, 35, 35) > 3 {
                add(&mut a, x, y, zombie(uid, 1));
                uid += 1;
            }
        }
    }
    add(&mut a, 3, 3, zombie(uid, 1));
    let n = enemies_of(&a).len();
    let far_before = a.enemy(3, 3).unwrap();
    for frame in 19..400 {
        update_enemies(&mut a, &player, &mut cues, frame, &mut rng);
        act(&mut a, &player, &mut cues, 1, 1, frame, &mut rng);
        let all = enemies_of(&a);
        assert_eq!(all.len(), n);
        let mut uids: Vec<i32> = all.iter().map(|(_, _, e)| e.uid).collect();
        uids.sort();
        uids.dedup();
        assert_eq!(uids.len(), n);
    }
    assert_consistent(&a);
    // An enemy outside the window around the player never wakes.
    assert_eq!(a.enemy(3, 3), Some(far_before));
    // The others closed in on the player.
    assert!(enemies_of(&a).iter().any(|(x, y, _)| dist(*x, *y, 35, 35) <= 2));
    assert!(cues.iter().all(|c| c.sound == Sound::Walking && c.level == 50 && c.near == 10));
}

#[test]
fn arena_stays_consistent_through_a_busy_run() {
    let mut rng = StdRng::seed_from_u64(81);
    let mut storage = bindings();
    let mut cues: Vec<Cue> = vec![];
    let map = Arena::build(90, 90, 120, 60, &mut rng).unwrap();
    let mut run = Playing::start(Character::Andrew, map);
    run.player.set(Stat::Food, 1_000_000_000);
    run.player.set(Stat::MaxAmmo, 1_000_000);
    run.player.set(Stat::Ammo, 1_000_000);
    run.player.set(Stat::Bomb, 1000);
    run.player.set(Stat::Turret, 1000);
    run.player.set(Stat::Emp, 1000);
    run.player.set(Stat::PierceAmmo, 2);
    run.player.set(Stat::ForkAmmo, 2);
    let keys = [1u32, 2, 3, 4];
    let mut ticks = 0;
    for t in 0..1500u32 {
        let key = keys[((t / 40) % 4) as usize];
        if t % 40 == 0 {
            for k in keys {
                run.released(k, &storage, &mut cues, &mut rng);
            }
            run.pressed(key, Nav::Other, &storage, Held { shoot: false, turret: t % 200 == 0 }, &mut cues, &mut rng);
        }
        if t % 150 == 75 {
            run.pressed(6, Nav::Other, &storage, IDLE, &mut cues, &mut rng);
            run.pressed(9, Nav::Other, &storage, IDLE, &mut cues, &mut rng);
        }
        if t % 170 == 20 {
            run.pressed(8, Nav::Other, &storage, IDLE, &mut cues, &mut rng);
            run.released(9, &storage, &mut cues, &mut rng);
        }
        if run.player.upgrading.is_some() {
            run.pressed(0, Nav::Select, &storage, IDLE, &mut cues, &mut rng);
        }
        let out = run.update(&mut storage, Held { shoot: t % 7 < 3, turret: false }, &mut cues, &mut rng);
        assert_consistent(&run.map);
        assert!(0 < run.player.x && run.player.x < 89 && 0 < run.player.y && run.player.y < 89);
        cues.clear();
        ticks += 1;
        if out.signal == Signal::Terminate {
            assert!(run.player.dead);
            break;
        }
    }
    assert!(ticks > 5);
}

#[test]
fn enemies_move_one_step_at_most_in_a_tick() {
    let mut rng = StdRng::seed_from_u64(83);
    let mut a = open_arena(70, 70);
    let player = Player::new(Character::Joshua, 35, 35);
    let mut cues: Vec<Cue> = vec![];
    let mut uid = 0;
    for x in (20..50).step_by(3) {
        for y in (20..50).step_by(3) {
            if dist(x, y, 35, 35) > 2 {
                add(&mut a, x, y, zombie(uid, 1));
                uid += 1;
            }
        }
    }
    let mut moved = 0;
    for frame in 19..120 {
        let before = enemies_of(&a);
        update_enemies(&mut a, &player, &mut cues, frame, &mut rng);
        let after = enemies_of(&a);
        assert_eq!(after.len(), before.len());
        for (x, y, e) in &before {
            let found: Vec<&(i32, i32, Enemy)> = after.iter().filter(|(_, _, e2)| e2.uid == e.uid).collect();
            assert_eq!(found.len(), 1);
            let (x2, y2, e2) = found[0];
            assert!(dist(*x, *y, *x2, *y2) <= 1);
            assert_eq!((e2.hp, e2.mhp, e2.cd), (e.hp, e.mhp, e.cd));
            if is_free(e, frame) {
                assert_eq!(e2.last, frame);
            } else {
                assert_eq!((*x2, *y2, e2.last), (*x, *y, e.last));
            }
            if (x, y) != (x2, y2) {
                moved += 1;
            }
        }
    }
    assert!(moved > 0);
}
