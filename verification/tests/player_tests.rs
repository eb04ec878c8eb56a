use rand::rngs::StdRng;
use rand::SeedableRng;
use std::collections::VecDeque;
use that_night::arena::{Arena, Boss};
use that_night::chest::{spawn_chest, ChestType};
use that_night::enemy::{Enemy, EnemyType};
use that_night::grid::MultiVec;
use that_night::input::{aim, step, Hotkey, Nav};
use that_night::player::{Character, Player};
use that_night::progress::{Progress, Weapon};
use that_night::sound::{Cue, Sound};
use that_night::stat::Stat;
use that_night::storage::Storage;
use that_night::tile::{MovableWall, Tile, Wall};
use that_night::turret::Turret;
use that_night::upgrading::{Upgrade, Upgrading};
use that_night::walk::{loot, make_moves};

fn open_arena(w: i32, h: i32) -> Arena {
    let n = (w * h) as usize;
    let mut tiles = vec![Tile::Empty; n];
    let mut pass = vec![true; n];
    for x in 0..w {
        for y in 0..h {
            if x == 0 || y == 0 || x == w - 1 || y == h - 1 {
                tiles[(y * w + x) as usize] = Tile::Wall(Wall { bullets: 0 });
                pass[(y * w + x) as usize] = false;
            }
        }
    }
    Arena {
        bullets: vec![],
        pass: MultiVec { inner: pass, w: w as usize },
        enemies: MultiVec { inner: vec![None; n], w: w as usize },
        tiles: MultiVec { inner: tiles, w: w as usize },
        bombs: vec![],
        turrets: vec![],
        emps: vec![],
        chests: VecDeque::new(),
        boss: Boss { nth: 0, resp: None, pos: None },
        spawned: 0,
        w,
        h,
    }
}

fn bindings() -> Storage {
    Storage::fresh(vec![1, 2, 3, 4, 5, 6, 7, 8, 9])
}

const ALL_STATS: [Stat; 42] = [
    Stat::Score,
    Stat::ScoreAmmo,
    Stat::ScoreBomb,
    Stat::ScoreTurret,
    Stat::ScoreEmp,
    Stat::Food,
    Stat::Ammo,
    Stat::Bomb,
    Stat::Turret,
    Stat::Emp,
    Stat::MaxFood,
    Stat::MaxAmmo,
    Stat::MaxBomb,
    Stat::MaxTurret,
    Stat::MaxEmp,
    Stat::LastShot,
    Stat::CdShot,
    Stat::DmgAmmo,
    Stat::NotConsumeAmmo,
    Stat::PierceAmmo,
    Stat::ForkAmmo,
    Stat::LastBomb,
    Stat::CdBomb,
    Stat::RadBomb,
    Stat::DmgBomb,
    Stat::FuseTimeBomb,
    Stat::LastTurret,
    Stat::CdTurret,
    Stat::CdTurretShot,
    Stat::DmgTurret,
    Stat::DurTurret,
    Stat::LastEmp,
    Stat::CdEmp,
    Stat::RadEmp,
    Stat::DmgEmp,
    Stat::DurEmp,
    Stat::StunEmp,
    Stat::SlowEmp,
    Stat::LastMove,
    Stat::CdMove,
    Stat::Luck,
    Stat::Character,
];

fn stats_of(p: &Player) -> Vec<i32> {
    ALL_STATS.iter().map(|s| p.get(*s)).collect()
}

#[test]
fn stat_slots_are_in_order() {
    for (i, s) in ALL_STATS.iter().enumerate() {
        assert_eq!(s.index(), i);
        assert!(s.lo() <= s.hi());
    }
    assert_eq!(Stat::Food.lo(), -1_000_000_000);
    assert_eq!(Stat::LastMove.lo(), -100_000_000);
    assert_eq!(Stat::LastMove.hi(), 1_100_000_000);
    assert_eq!(Stat::DmgBomb.hi(), 127);
    assert_eq!(Stat::RadEmp.hi(), 10_000);
    assert_eq!(Stat::StunEmp.hi(), 1);
    assert_eq!(Stat::Character.hi(), 5);
    assert_eq!(Stat::CdMove.hi(), 100_000_000);
    assert_eq!(Stat::Score.hi(), 1_000_000_000);
}

#[test]
fn joshua_starts_with_the_common_stats_and_a_quicker_step() {
    let p = Player::new(Character::Joshua, 7, 9);
    assert_eq!((p.x, p.y), (7, 9));
    assert_eq!(
        stats_of(&p),
        vec![
            0, 3, 3, 3, 3, 1_000_000, 10, 3, 3, 3, 1_000_000, 10, 3, 3, 3, 0, 10, 1, 0, 0, 0, 0, 60, 5,
            3, 200, 0, 60, 300, 1, 900, 0, 60, 8, 0, 60, 0, 300, 0, 8, 0, 0
        ]
    );
    assert_eq!(p.stats.len(), 64);
    assert!(p.stats[42..].iter().all(|v| *v == 0));
    assert_eq!(p.upgrades, vec![0; 15]);
    assert_eq!(p.progress.killed, 0);
    assert_eq!(p.progress.used, [0, 0, 0, 0]);
    assert!(!p.running && !p.dead && !p.paused);
    assert!(p.upgrading.is_none());
}

#[test]
fn each_character_has_its_perks() {
    let base = stats_of(&Player::new(Character::Joshua, 0, 0));
    let diff = |ch: Character| -> Vec<(Stat, i32)> {
        let p = Player::new(ch, 0, 0);
        ALL_STATS
            .iter()
            .enumerate()
            .filter(|(i, s)| p.get(**s) != base[*i] && **s != Stat::CdMove)
            .map(|(_, s)| (*s, p.get(*s)))
            .collect()
    };
    assert_eq!(
        diff(Character::Anne),
        vec![
            (Stat::Ammo, 1),
            (Stat::Bomb, 6),
            (Stat::MaxAmmo, 1),
            (Stat::MaxBomb, 6),
            (Stat::RadBomb, 6),
            (Stat::FuseTimeBomb, 140),
            (Stat::Character, 1)
        ]
    );
    assert_eq!(
        diff(Character::Andrew),
        vec![(Stat::DmgAmmo, 2), (Stat::NotConsumeAmmo, 20), (Stat::Character, 2)]
    );
    assert_eq!(diff(Character::Matthew), vec![(Stat::DurTurret, 1800), (Stat::Character, 3)]);
    assert_eq!(
        diff(Character::Megan),
        vec![(Stat::RadEmp, 11), (Stat::StunEmp, 1), (Stat::Character, 4)]
    );
    assert_eq!(
        diff(Character::LiShen),
        vec![(Stat::Food, 1_500_000), (Stat::MaxFood, 1_500_000), (Stat::Luck, 5), (Stat::Character, 5)]
    );
    for ch in [Character::Anne, Character::Andrew, Character::Matthew, Character::Megan, Character::LiShen] {
        assert_eq!(Player::new(ch, 0, 0).get(Stat::CdMove), 9);
    }
    assert_eq!(Character::LiShen.number(), 5);
}

#[test]
fn gain_holds_a_stat_in_its_range() {
    let mut p = Player::new(Character::Joshua, 0, 0);
    p.gain(Stat::Score, 7);
    assert_eq!(p.get(Stat::Score), 7);
    p.gain(Stat::Score, -9);
    assert_eq!(p.get(Stat::Score), 0);
    p.gain(Stat::Score, 2_000_000_000);
    assert_eq!(p.get(Stat::Score), 1_000_000_000);
    p.gain(Stat::DmgEmp, 200);
    assert_eq!(p.get(Stat::DmgEmp), 127);
    p.gain(Stat::Food, -2_000_000_000);
    assert_eq!(p.get(Stat::Food), -1_000_000_000);
    p.set(Stat::Luck, 40);
    assert_eq!(p.get(Stat::Luck), 40);
    assert_eq!(p.get(Stat::CdMove), 8);
}

#[test]
fn progress_counts_kills_and_uses() {
    let mut g = Progress::new();
    g.record_kill();
    g.record_kill();
    g.record_use(Weapon::Turret);
    g.record_use(Weapon::Emp);
    g.record_use(Weapon::Emp);
    g.record_use(Weapon::Ammo);
    assert_eq!(g.killed, 2);
    assert_eq!(g.used, [1, 0, 1, 2]);
    g.killed = 1_000_000_000;
    g.used[1] = 1_000_000_000;
    g.record_kill();
    g.record_use(Weapon::Bomb);
    assert_eq!(g.killed, 1_000_000_000);
    assert_eq!(g.used, [1, 1_000_000_000, 1, 2]);
}

#[test]
fn every_upgrade_moves_its_stats() {
    let deltas: [(Upgrade, Vec<(Stat, i32)>); 15] = [
        (Upgrade::MaxAmmo, vec![(Stat::MaxAmmo, 3)]),
        (Upgrade::MaxBomb, vec![(Stat::MaxBomb, 1)]),
        (Upgrade::MaxTurret, vec![(Stat::MaxTurret, 1)]),
        (Upgrade::MaxEmp, vec![(Stat::MaxEmp, 1)]),
        (Upgrade::NotConsumeAmmo, vec![(Stat::NotConsumeAmmo, 20)]),
        (Upgrade::PierceAmmo, vec![(Stat::PierceAmmo, 1)]),
        (Upgrade::ForkAmmo, vec![(Stat::ForkAmmo, 1)]),
        (Upgrade::Sniper, vec![(Stat::CdShot, 10), (Stat::DmgAmmo, 1)]),
        (Upgrade::DmgBomb, vec![(Stat::DmgBomb, 1)]),
        (Upgrade::RadAndFuseBomb, vec![(Stat::RadBomb, 1), (Stat::FuseTimeBomb, 1)]),
        (Upgrade::ScoreBomb, vec![(Stat::ScoreBomb, 3)]),
        (Upgrade::CdTurret, vec![(Stat::CdTurretShot, -75)]),
        (Upgrade::DmgTurret, vec![(Stat::DmgTurret, 1)]),
        (Upgrade::MovSpd, vec![(Stat::CdMove, -1)]),
        (Upgrade::DurEmp, vec![(Stat::SlowEmp, 300)]),
    ];
    for (i, (u, moved)) in deltas.iter().enumerate() {
        assert_eq!(u.index(), i);
        assert_eq!(Upgrade::from(i as i32), *u);
        let mut p = Player::new(Character::Megan, 0, 0);
        let before = stats_of(&p);
        u.apply(&mut p);
        let after = stats_of(&p);
        for (k, s) in ALL_STATS.iter().enumerate() {
            let d = moved.iter().find(|(m, _)| m == s).map(|(_, d)| *d).unwrap_or(0);
            assert_eq!(after[k], before[k] + d, "{u:?} on {s:?}");
        }
        let mut tally = vec![0; 15];
        tally[i] = 1;
        assert_eq!(p.upgrades, tally);
        assert_eq!(u.primary(), moved[0]);
        assert_eq!(u.secondary(), moved.get(1).copied());
    }
}

#[test]
fn upgrade_stops_at_the_end_of_a_range() {
    let mut p = Player::new(Character::Joshua, 0, 0);
    for _ in 0..5 {
        Upgrade::CdTurret.apply(&mut p);
    }
    assert_eq!(p.get(Stat::CdTurretShot), 0);
    assert_eq!(p.upgrades[11], 5);
    p.set(Stat::DmgAmmo, 127);
    Upgrade::Sniper.apply(&mut p);
    assert_eq!(p.get(Stat::DmgAmmo), 127);
    assert_eq!(p.get(Stat::CdShot), 20);
}

#[test]
fn upgrade_texts() {
    assert_eq!(Upgrade::MaxAmmo.text(), "+3 max ammo");
    assert_eq!(Upgrade::NotConsumeAmmo.text(), "+20% chance to not consume ammo");
    assert_eq!(Upgrade::RadAndFuseBomb.text(), "+1 bomb radius, +1s bomb fuse time");
    assert_eq!(Upgrade::DurEmp.text(), "+5s EMP duration");
    let pool = Upgrade::pool();
    assert_eq!(pool.len(), 15);
    for (i, u) in pool.iter().enumerate() {
        assert_eq!(u.index(), i);
        assert!(!u.text().is_empty());
    }
    assert!(Upgrade::MovSpd.is_stacking() && Upgrade::DmgTurret.is_stacking());
    assert!(Upgrade::CdTurret.is_stacking() && Upgrade::NotConsumeAmmo.is_stacking());
    assert_eq!(pool.iter().filter(|u| u.is_stacking()).count(), 4);
}

#[test]
fn offer_has_five_different_upgrades_and_no_capped_one() {
    let mut rng = StdRng::seed_from_u64(61);
    let mut p = Player::new(Character::Joshua, 0, 0);
    p.upgrades[Upgrade::MovSpd.index()] = 3;
    p.upgrades[Upgrade::CdTurret.index()] = 4;
    p.upgrades[Upgrade::DmgTurret.index()] = 2;
    p.upgrades[Upgrade::MaxAmmo.index()] = 9;
    let mut seen = [false; 15];
    for _ in 0..300 {
        let offer = Upgrade::random(&p, &mut rng);
        assert_eq!(offer.len(), 5);
        for (i, u) in offer.iter().enumerate() {
            assert!(!offer[..i].contains(u));
            assert_ne!(*u, Upgrade::MovSpd);
            assert_ne!(*u, Upgrade::CdTurret);
            seen[u.index()] = true;
        }
    }
    let offered = seen.iter().filter(|s| **s).count();
    assert_eq!(offered, 13);
    assert!(seen[Upgrade::DmgTurret.index()] && seen[Upgrade::MaxAmmo.index()]);
}

#[test]
fn session_moves_the_highlight_and_takes_an_upgrade() {
    let mut rng = StdRng::seed_from_u64(62);
    let p = Player::new(Character::Joshua, 0, 0);
    let mut cues: Vec<Cue> = vec![];
    let mut u = Upgrading::new(&p, &mut cues, &mut rng);
    assert_eq!(cues, vec![Cue { sound: Sound::Upgrade, level: 100, near: 0, dist: 0 }]);
    assert_eq!((u.frame, u.ups, u.ret), (0, 2, None));
    cues.clear();
    u.pressed(Nav::Other, &mut cues);
    assert!(cues.is_empty());
    u.pressed(Nav::Up, &mut cues);
    u.pressed(Nav::Up, &mut cues);
    u.pressed(Nav::Up, &mut cues);
    assert_eq!(u.ups, 0);
    assert_eq!(cues.len(), 2);
    for _ in 0..9 {
        u.pressed(Nav::Down, &mut cues);
    }
    assert_eq!(u.ups, 4);
    assert_eq!(cues.len(), 6);
    assert!(u.ret.is_none());
    u.pressed(Nav::Select, &mut cues);
    assert_eq!(u.ret, Some(u.upgrades[4]));
    assert_eq!(cues.len(), 7);
    assert!(cues.iter().all(|c| *c == Cue { sound: Sound::UiSwitch, level: 75, near: 0, dist: 0 }));
    u.update();
    u.update();
    assert_eq!(u.frame, 2);
    u.frame = 1_000_000_000;
    u.update();
    assert_eq!(u.frame, 1_000_000_000);
}

#[test]
fn aim_follows_the_key_pressed_last() {
    let hotkeys = vec![1, 2, 3, 4, 5, 6, 7, 8, 9];
    assert_eq!(aim(&vec![], &hotkeys), None);
    assert_eq!(aim(&vec![1], &hotkeys), Some(1));
    assert_eq!(aim(&vec![1, 2], &hotkeys), Some(0));
    assert_eq!(aim(&vec![2, 3], &hotkeys), Some(3));
    assert_eq!(aim(&vec![3, 4], &hotkeys), Some(2));
    assert_eq!(aim(&vec![4, 5], &hotkeys), None);
    assert_eq!(step(0), (-1, 0));
    assert_eq!(step(1), (0, -1));
    assert_eq!(step(2), (1, 0));
    assert_eq!(step(3), (0, 1));
    // With one key bound twice, up wins over right, down and left.
    assert_eq!(aim(&vec![7], &vec![7, 7, 7, 7, 0, 0, 0, 0, 0]), Some(1));
    assert_eq!(aim(&vec![7], &vec![0, 7, 7, 7, 0, 0, 0, 0, 0]), Some(2));
    assert_eq!(aim(&vec![7], &vec![0, 7, 7, 0, 0, 0, 0, 0, 0]), Some(3));
    assert_eq!(Hotkey::Run.index(), 8);
    assert_eq!(Hotkey::Shoot.index(), 4);
}

#[test]
fn loot_refills_up_to_the_capacity() {
    let mut p = Player::new(Character::Joshua, 0, 0);
    p.set(Stat::Ammo, 2);
    p.set(Stat::Bomb, 0);
    p.set(Stat::Turret, 3);
    p.set(Stat::Emp, 1);
    p.set(Stat::Food, 700_000);
    loot(&mut p, ChestType::Ammo);
    assert_eq!(p.get(Stat::Ammo), 5);
    loot(&mut p, ChestType::Bomb);
    assert_eq!(p.get(Stat::Bomb), 1);
    loot(&mut p, ChestType::Turret);
    assert_eq!(p.get(Stat::Turret), 3);
    loot(&mut p, ChestType::Emp);
    assert_eq!(p.get(Stat::Emp), 2);
    loot(&mut p, ChestType::Food);
    assert_eq!(p.get(Stat::Food), 1_000_000);
    p.set(Stat::Food, -10);
    loot(&mut p, ChestType::Rainbow);
    assert_eq!(
        (p.get(Stat::Ammo), p.get(Stat::Bomb), p.get(Stat::Turret), p.get(Stat::Emp), p.get(Stat::Food)),
        (8, 2, 3, 3, 499_990)
    );
    loot(&mut p, ChestType::Rainbow);
    assert_eq!(p.get(Stat::Ammo), 10);
}

#[test]
fn player_walks_waits_and_is_blocked() {
    let storage = bindings();
    let mut a = open_arena(12, 12);
    let mut p = Player::new(Character::Anne, 5, 5);
    let mut cues: Vec<Cue> = vec![];
    make_moves(&mut p, &vec![], &mut a, &storage, &mut cues, 100);
    assert_eq!((p.x, p.y, p.get(Stat::LastMove)), (5, 5, 0));
    make_moves(&mut p, &vec![4], &mut a, &storage, &mut cues, 8);
    assert_eq!((p.x, p.y, p.get(Stat::LastMove)), (5, 5, 0));
    make_moves(&mut p, &vec![4], &mut a, &storage, &mut cues, 9);
    assert_eq!((p.x, p.y, p.get(Stat::LastMove)), (6, 5, 9));
    make_moves(&mut p, &vec![4, 1], &mut a, &storage, &mut cues, 18);
    assert_eq!((p.x, p.y, p.get(Stat::LastMove)), (6, 4, 18));
    assert_eq!(p.get(Stat::Food), 1_000_000);
    // Running halves the wait and costs food.
    p.running = true;
    make_moves(&mut p, &vec![2], &mut a, &storage, &mut cues, 21);
    assert_eq!((p.x, p.y), (6, 4));
    make_moves(&mut p, &vec![2], &mut a, &storage, &mut cues, 22);
    assert_eq!((p.x, p.y, p.get(Stat::LastMove)), (5, 4, 22));
    assert_eq!(p.get(Stat::Food), 998_000);
    // A wall blocks; the tick is noted all the same, and no food is spent.
    a.put_tile(4, 4, Tile::Wall(Wall { bullets: 0 }));
    make_moves(&mut p, &vec![2], &mut a, &storage, &mut cues, 30);
    assert_eq!((p.x, p.y, p.get(Stat::LastMove)), (5, 4, 30));
    assert_eq!(p.get(Stat::Food), 998_000);
    // So does an enemy.
    a.spawned = 1;
    a.put_enemy(
        5,
        3,
        Enemy { uid: 0, hp: 1, mhp: 1, last: 0, cd: 19, slowed: 0, immobilized: false, ty: EnemyType::Zombie },
    );
    make_moves(&mut p, &vec![1], &mut a, &storage, &mut cues, 40);
    assert_eq!((p.x, p.y, p.get(Stat::LastMove)), (5, 4, 40));
    assert!(cues.is_empty());
}

#[test]
fn player_pushes_a_wall() {
    let storage = bindings();
    let mut a = open_arena(12, 12);
    let mut p = Player::new(Character::Anne, 5, 5);
    let mut cues: Vec<Cue> = vec![];
    a.put_tile(6, 5, Tile::MovableWall(MovableWall { bullets: 4 }));
    // Pushing takes twice the wait.
    make_moves(&mut p, &vec![4], &mut a, &storage, &mut cues, 17);
    assert_eq!((p.x, p.y, p.get(Stat::LastMove)), (5, 5, 0));
    make_moves(&mut p, &vec![4], &mut a, &storage, &mut cues, 18);
    assert_eq!((p.x, p.y, p.get(Stat::LastMove)), (6, 5, 18));
    assert_eq!(a.tile(6, 5), Tile::Empty);
    assert_eq!(a.tile(7, 5), Tile::MovableWall(MovableWall { bullets: 4 }));
    assert!(a.passable(6, 5));
    assert!(!a.passable(7, 5));
    // A wall behind the wall blocks the push.
    a.put_tile(8, 5, Tile::MovableWall(MovableWall { bullets: 0 }));
    make_moves(&mut p, &vec![4], &mut a, &storage, &mut cues, 40);
    assert_eq!((p.x, p.y, p.get(Stat::LastMove)), (6, 5, 40));
    assert_eq!(a.tile(7, 5), Tile::MovableWall(MovableWall { bullets: 4 }));
    assert_eq!(a.tile(8, 5), Tile::MovableWall(MovableWall { bullets: 0 }));
    // So does a turret behind it.
    a.put_tile(8, 5, Tile::Empty);
    a.turrets.push(Turret { x: 8, y: 5, dmg: 1, direction: 0, start: 0, duration: 900, cd: 300, last: 0 });
    a.set_pass(8, 5, false);
    make_moves(&mut p, &vec![4], &mut a, &storage, &mut cues, 60);
    assert_eq!((p.x, p.y), (6, 5));
}

#[test]
fn player_picks_up_a_chest() {
    let storage = bindings();
    let mut a = open_arena(12, 12);
    let mut p = Player::new(Character::Joshua, 5, 5);
    let mut cues: Vec<Cue> = vec![];
    assert!(spawn_chest(&mut a, 0, 3, 3, ChestType::Ammo));
    assert!(spawn_chest(&mut a, 0, 5, 6, ChestType::Rainbow));
    assert!(spawn_chest(&mut a, 0, 8, 8, ChestType::Ammo));
    p.set(Stat::Ammo, 1);
    p.set(Stat::Food, 100);
    p.running = true;
    make_moves(&mut p, &vec![3], &mut a, &storage, &mut cues, 50);
    assert_eq!((p.x, p.y, p.get(Stat::LastMove)), (5, 6, 50));
    assert_eq!(a.tile(5, 6), Tile::Empty);
    assert!(a.passable(5, 6));
    let queue: Vec<(i32, i32)> = a.chests.iter().copied().collect();
    assert_eq!(queue, vec![(3, 3), (8, 8)]);
    assert_eq!(cues, vec![Cue { sound: Sound::PickChest, level: 25, near: 0, dist: 0 }]);
    assert_eq!(p.get(Stat::Ammo), 4);
    // The step costs 2000 first; then the food of the chest is added.
    assert_eq!(p.get(Stat::Food), 100 - 2000 + 500_000);
    assert_eq!((p.get(Stat::Bomb), p.get(Stat::Turret), p.get(Stat::Emp)), (3, 3, 3));
}
