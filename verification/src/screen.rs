//! The screens around a run, as far as they decide anything: the loading
//! bar, the choice of a character, the key bindings and the tutorial.

use crate::input::{Nav, HOTKEY_COUNT};
use crate::player::Character;
use crate::sound::{Cue, Sound};
use crate::stat::TICK_LIMIT;
use crate::storage::{Achievement, Storage};
use crate::util::clamp;
use vstd::prelude::*;

verus! {

/// Ticks the loading bar takes.
pub const LOADING_TICKS: i32 = 60;

/// Number of characters to choose from.
pub const CHARACTER_COUNT: usize = 6;

/// The loading bar.
#[derive(Clone, Copy, Debug, PartialEq, Eq, Structural)]
pub struct Loading {
    pub frame: i32,
}

/// The choice of a character: `chs` is the highlighted one, and `unlocked`
/// says for each whether it can be played.
#[derive(Debug)]
pub struct Menu {
    pub frame: i32,
    pub chars: Vec<Character>,
    pub unlocked: Vec<bool>,
    pub chs: usize,
}

/// What the menu asks for after a key.
#[derive(Clone, Copy, Debug, PartialEq, Eq, Structural)]
pub enum MenuAction {
    /// Nothing.
    Stay,
    /// A run with the character `ch`, after the tutorial if `tutorial`.
    Play { ch: Character, tutorial: bool },
    /// The key bindings.
    OpenSettings,
    /// The end of the program.
    Quit,
}

/// The key bindings screen: `n` is the highlighted action, and `choosing`
/// says that the next key is bound to it.
#[derive(Clone, Copy, Debug, PartialEq, Eq, Structural)]
pub struct Settings {
    pub n: usize,
    pub choosing: bool,
}

/// What the tutorial asks for after a key.
#[derive(Clone, Copy, Debug, PartialEq, Eq, Structural)]
pub enum TutorialAction {
    /// Nothing.
    Stay,
    /// The run it was shown before.
    Play,
    /// The menu.
    Back,
}

/// The character at position `i` of the menu.
pub open spec fn character_at(i: int) -> Character {
    if i == 0 {
        Character::Joshua
    } else if i == 1 {
        Character::Anne
    } else if i == 2 {
        Character::Andrew
    } else if i == 3 {
        Character::Matthew
    } else if i == 4 {
        Character::Megan
    } else {
        Character::LiShen
    }
}

/// The achievement that unlocks the character at position `i` of the menu;
/// the first character needs none.
pub open spec fn unlocks(i: int) -> Achievement {
    crate::storage::achievement_at(i)
}

impl Loading {
    /// A loading bar at its start.
    pub fn new() -> (l: Loading)
        ensures
            l.frame == 0,
    {
        Loading { frame: 0 }
    }

    /// Lets one tick pass. Returns whether loading is done: more than
    /// `LOADING_TICKS` ticks have passed.
    pub fn update(&mut self) -> (done: bool)
        requires
            0 <= old(self).frame <= TICK_LIMIT,
        ensures
            final(self).frame == clamp(old(self).frame + 1, 0, TICK_LIMIT as int),
            done == (final(self).frame > LOADING_TICKS),
    {
        if self.frame < TICK_LIMIT {
            self.frame = self.frame + 1;
        }
        self.frame > LOADING_TICKS
    }
}

impl Menu {
    /// The menu lists the six characters, and the highlight is on one of
    /// them.
    pub open spec fn wf(&self) -> bool {
        &&& 0 <= self.frame <= TICK_LIMIT
        &&& self.chars.len() == CHARACTER_COUNT
        &&& self.unlocked.len() == CHARACTER_COUNT
        &&& self.chs < CHARACTER_COUNT
        &&& forall|i: int| 0 <= i < CHARACTER_COUNT ==> self.chars@[i] == character_at(i)
    }

    /// The menu for the record `storage`: the first character can be played,
    /// and each other one if its achievement was reached.
    pub fn new(storage: &Storage) -> (m: Menu)
        requires
            storage.wf(),
        ensures
            m.wf(),
            m.frame == 0,
            m.chs == 0,
            forall|i: int|
                0 <= i < CHARACTER_COUNT ==> #[trigger] m.unlocked@[i] == (i == 0 || storage.granted(
                    unlocks(i),
                )),
    {
        let chars: Vec<Character> = vec![
            Character::Joshua,
            Character::Anne,
            Character::Andrew,
            Character::Matthew,
            Character::Megan,
            Character::LiShen,
        ];
        let unlocked: Vec<bool> = vec![
            true,
            storage.has(Achievement::UnlockAnne),
            storage.has(Achievement::UnlockAndrew),
            storage.has(Achievement::UnlockMatthew),
            storage.has(Achievement::UnlockMegan),
            storage.has(Achievement::UnlockLiShen),
        ];
        Menu { frame: 0, chars, unlocked, chs: 0 }
    }

    /// Lets one tick pass. The clock stops at `TICK_LIMIT`.
    pub fn update(&mut self)
        requires
            old(self).wf(),
        ensures
            final(self).wf(),
            final(self).frame == clamp(old(self).frame + 1, 0, TICK_LIMIT as int),
            final(self).chars == old(self).chars,
            final(self).unlocked == old(self).unlocked,
            final(self).chs == old(self).chs,
    {
        if self.frame < TICK_LIMIT {
            self.frame = self.frame + 1;
        }
    }

    /// Handles a key: `Up` and `Down` move the highlight inside the list,
    /// with the switch sound; `Select` starts a run with the highlighted
    /// character if it is unlocked, after the tutorial if the record has not
    /// seen it; `Settings` opens the key bindings, with the switch sound;
    /// `Escape` quits.
    pub fn pressed(&mut self, nav: Nav, storage: &Storage, cues: &mut Vec<Cue>) -> (action:
        MenuAction)
        requires
            old(self).wf(),
            storage.wf(),
        ensures
            final(self).wf(),
            final(self).frame == old(self).frame,
            final(self).chars == old(self).chars,
            final(self).unlocked == old(self).unlocked,
            final(self).chs == (if nav == Nav::Up && old(self).chs > 0 {
                old(self).chs - 1
            } else if nav == Nav::Down && old(self).chs + 1 < CHARACTER_COUNT {
                old(self).chs + 1
            } else {
                old(self).chs as int
            }),
            action == (if nav == Nav::Select && old(self).unlocked@[old(self).chs as int] {
                MenuAction::Play {
                    ch: character_at(old(self).chs as int),
                    tutorial: !storage.granted(Achievement::Tutorial),
                }
            } else if nav == Nav::Settings {
                MenuAction::OpenSettings
            } else if nav == Nav::Escape {
                MenuAction::Quit
            } else {
                MenuAction::Stay
            }),
            final(cues)@ == (if (nav == Nav::Up && old(self).chs > 0) || (nav == Nav::Down && old(
                self,
            ).chs + 1 < CHARACTER_COUNT) || nav == Nav::Settings {
                old(cues)@.push(Cue::flat(Sound::UiSwitch, 75))
            } else {
                old(cues)@
            }),
    {
        match nav {
            Nav::Up => {
                if self.chs > 0 {
                    cues.push(Cue { sound: Sound::UiSwitch, level: 75, near: 0, dist: 0 });
                    self.chs = self.chs - 1;
                }
                MenuAction::Stay
            },
            Nav::Down => {
                if self.chs < self.chars.len() - 1 {
                    cues.push(Cue { sound: Sound::UiSwitch, level: 75, near: 0, dist: 0 });
                    self.chs = self.chs + 1;
                }
                MenuAction::Stay
            },
            Nav::Select => {
                if self.unlocked[self.chs] {
                    MenuAction::Play {
                        ch: self.chars[self.chs],
                        tutorial: !storage.has(Achievement::Tutorial),
                    }
                } else {
                    MenuAction::Stay
                }
            },
            Nav::Settings => {
                cues.push(Cue { sound: Sound::UiSwitch, level: 75, near: 0, dist: 0 });
                MenuAction::OpenSettings
            },
            Nav::Escape => MenuAction::Quit,
            Nav::Other => MenuAction::Stay,
        }
    }
}

impl Settings {
    /// The highlight is on one of the actions.
    pub open spec fn wf(&self) -> bool {
        self.n < HOTKEY_COUNT
    }

    /// The key bindings screen at its start: the first action is
    /// highlighted, and no key is being chosen.
    pub fn new() -> (s: Settings)
        ensures
            s.wf(),
            s.n == 0,
            !s.choosing,
    {
        Settings { n: 0, choosing: false }
    }

    /// Handles the key `key`, which steers the list as `nav` says.
    ///
    /// While a key is being chosen, `key` is bound to the highlighted
    /// action. Otherwise `Up` and `Down` move the highlight inside the list,
    /// `Select` starts choosing a key, and `Escape` and `Settings` leave the
    /// screen. All of these ask for the switch sound. Returns whether the
    /// screen is left, so that the record has to be saved.
    pub fn pressed(&mut self, key: u32, nav: Nav, storage: &mut Storage, cues: &mut Vec<Cue>) -> (leave:
        bool)
        requires
            old(self).wf(),
            old(storage).wf(),
        ensures
            final(self).wf(),
            final(storage).wf(),
            final(storage).highscore == old(storage).highscore,
            final(storage).achievements == old(storage).achievements,
            final(storage).hotkeys@ == (if old(self).choosing {
                old(storage).hotkeys@.update(old(self).n as int, key)
            } else {
                old(storage).hotkeys@
            }),
            final(self).choosing == (!old(self).choosing && nav == Nav::Select),
            final(self).n == (if old(self).choosing {
                old(self).n as int
            } else if nav == Nav::Up && old(self).n > 0 {
                old(self).n - 1
            } else if nav == Nav::Down && old(self).n + 1 < HOTKEY_COUNT {
                old(self).n + 1
            } else {
                old(self).n as int
            }),
            leave == (!old(self).choosing && (nav == Nav::Escape || nav == Nav::Settings)),
            final(cues)@ == (if old(self).choosing || (nav == Nav::Up && old(self).n > 0) || (nav
                == Nav::Down && old(self).n + 1 < HOTKEY_COUNT) || nav == Nav::Select || nav
                == Nav::Escape || nav == Nav::Settings {
                old(cues)@.push(Cue::flat(Sound::UiSwitch, 75))
            } else {
                old(cues)@
            }),
    {
        if self.choosing {
            cues.push(Cue { sound: Sound::UiSwitch, level: 75, near: 0, dist: 0 });
            storage.hotkeys[self.n] = key;
            self.choosing = false;
            return false;
        }
        match nav {
            Nav::Up => {
                if self.n > 0 {
                    cues.push(Cue { sound: Sound::UiSwitch, level: 75, near: 0, dist: 0 });
                    self.n = self.n - 1;
                }
                false
            },
            Nav::Down => {
                if self.n < storage.hotkeys.len() - 1 {
                    cues.push(Cue { sound: Sound::UiSwitch, level: 75, near: 0, dist: 0 });
                    self.n = self.n + 1;
                }
                false
            },
            Nav::Select => {
                cues.push(Cue { sound: Sound::UiSwitch, level: 75, near: 0, dist: 0 });
                self.choosing = true;
                false
            },
            Nav::Escape | Nav::Settings => {
                cues.push(Cue { sound: Sound::UiSwitch, level: 75, near: 0, dist: 0 });
                true
            },
            Nav::Other => false,
        }
    }
}

/// Handles a key on the tutorial: `Select` marks the tutorial as seen in the
/// record and starts the run; `Escape` goes back to the menu.
pub fn tutorial_pressed(nav: Nav, storage: &mut Storage) -> (action: TutorialAction)
    requires
        old(storage).wf(),
    ensures
        final(storage).wf(),
        final(storage).highscore == old(storage).highscore,
        final(storage).hotkeys == old(storage).hotkeys,
        final(storage).achievements@ == (if nav == Nav::Select {
            old(storage).achievements@.update(
                Achievement::Tutorial.slot(),
                crate::storage::AchievementState { state: true },
            )
        } else {
            old(storage).achievements@
        }),
        action == (if nav == Nav::Select {
            TutorialAction::Play
        } else if nav == Nav::Escape {
            TutorialAction::Back
        } else {
            TutorialAction::Stay
        }),
{
    match nav {
        Nav::Select => {
            storage.grant(Achievement::Tutorial);
            TutorialAction::Play
        },
        Nav::Escape => TutorialAction::Back,
        _ => TutorialAction::Stay,
    }
}

} // verus!
