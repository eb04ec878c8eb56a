use that_night::input::Nav;
use that_night::player::Character;
use that_night::screen::{tutorial_pressed, Loading, Menu, MenuAction, Settings, TutorialAction};
use that_night::sound::{Cue, Sound};
use that_night::storage::{Achievement, Storage};

fn bindings() -> Storage {
    Storage::fresh(vec![1, 2, 3, 4, 5, 6, 7, 8, 9])
}

const SWITCH: Cue = Cue { sound: Sound::UiSwitch, level: 75, near: 0, dist: 0 };

#[test]
fn loading_is_done_after_sixty_ticks() {
    let mut bar = Loading::new();
    assert_eq!(bar.frame, 0);
    for tick in 1..=60 {
        assert!(!bar.update(), "done at tick {tick}");
    }
    assert_eq!(bar.frame, 60);
    assert!(bar.update());
    assert!(bar.update());
    assert_eq!(bar.frame, 62);
}

#[test]
fn menu_unlocks_characters_by_achievement() {
    let mut storage = bindings();
    let menu = Menu::new(&storage);
    assert_eq!(menu.unlocked, vec![true, false, false, false, false, false]);
    assert_eq!(
        menu.chars,
        vec![
            Character::Joshua,
            Character::Anne,
            Character::Andrew,
            Character::Matthew,
            Character::Megan,
            Character::LiShen
        ]
    );
    storage.grant(Achievement::UnlockMatthew);
    storage.grant(Achievement::Tutorial);
    storage.grant(Achievement::UnlockLiShen);
    assert_eq!(Menu::new(&storage).unlocked, vec![true, false, false, true, false, true]);
}

#[test]
fn menu_moves_and_starts_only_unlocked_characters() {
    let mut storage = bindings();
    storage.grant(Achievement::UnlockAndrew);
    let mut menu = Menu::new(&storage);
    let mut cues: Vec<Cue> = vec![];
    assert_eq!(menu.pressed(Nav::Up, &storage, &mut cues), MenuAction::Stay);
    assert!(cues.is_empty());
    assert_eq!(
        menu.pressed(Nav::Select, &storage, &mut cues),
        MenuAction::Play { ch: Character::Joshua, tutorial: true }
    );
    assert_eq!(menu.pressed(Nav::Down, &storage, &mut cues), MenuAction::Stay);
    assert_eq!(menu.chs, 1);
    assert_eq!(menu.pressed(Nav::Select, &storage, &mut cues), MenuAction::Stay);
    assert_eq!(menu.pressed(Nav::Down, &storage, &mut cues), MenuAction::Stay);
    storage.grant(Achievement::Tutorial);
    assert_eq!(
        menu.pressed(Nav::Select, &storage, &mut cues),
        MenuAction::Play { ch: Character::Andrew, tutorial: false }
    );
    for _ in 0..9 {
        menu.pressed(Nav::Down, &storage, &mut cues);
    }
    assert_eq!(menu.chs, 5);
    assert_eq!(cues, vec![SWITCH; 5]);
    assert_eq!(menu.pressed(Nav::Other, &storage, &mut cues), MenuAction::Stay);
    assert_eq!(menu.pressed(Nav::Escape, &storage, &mut cues), MenuAction::Quit);
    assert_eq!(cues.len(), 5);
    assert_eq!(menu.pressed(Nav::Settings, &storage, &mut cues), MenuAction::OpenSettings);
    assert_eq!(cues.len(), 6);
    menu.update();
    assert_eq!(menu.frame, 1);
}

#[test]
fn settings_bind_the_next_key_to_the_highlighted_action() {
    let mut storage = bindings();
    let mut list = Settings::new();
    let mut cues: Vec<Cue> = vec![];
    assert!(!list.pressed(40, Nav::Up, &mut storage, &mut cues));
    assert!(cues.is_empty());
    assert!(!list.pressed(40, Nav::Down, &mut storage, &mut cues));
    assert!(!list.pressed(40, Nav::Down, &mut storage, &mut cues));
    assert_eq!(list.n, 2);
    assert!(!list.pressed(40, Nav::Select, &mut storage, &mut cues));
    assert!(list.choosing);
    // While choosing, every key is bound: also the ones that steer the list.
    assert!(!list.pressed(77, Nav::Escape, &mut storage, &mut cues));
    assert!(!list.choosing);
    assert_eq!(storage.hotkeys, vec![1, 2, 77, 4, 5, 6, 7, 8, 9]);
    assert_eq!(cues, vec![SWITCH; 4]);
    for _ in 0..20 {
        list.pressed(0, Nav::Down, &mut storage, &mut cues);
    }
    assert_eq!(list.n, 8);
    assert!(!list.pressed(0, Nav::Other, &mut storage, &mut cues));
    assert!(list.pressed(0, Nav::Settings, &mut storage, &mut cues));
    assert!(list.pressed(0, Nav::Escape, &mut storage, &mut cues));
    assert_eq!(storage.hotkeys, vec![1, 2, 77, 4, 5, 6, 7, 8, 9]);
    assert_eq!(storage.highscore, 0);
}

#[test]
fn tutorial_is_marked_as_seen_when_it_is_passed() {
    let mut storage = bindings();
    assert_eq!(tutorial_pressed(Nav::Other, &mut storage), TutorialAction::Stay);
    assert_eq!(tutorial_pressed(Nav::Escape, &mut storage), TutorialAction::Back);
    assert!(!storage.has(Achievement::Tutorial));
    assert_eq!(tutorial_pressed(Nav::Select, &mut storage), TutorialAction::Play);
    assert!(storage.has(Achievement::Tutorial));
    assert!(!storage.has(Achievement::UnlockAnne));
}
