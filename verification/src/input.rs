//! Input intents: the bindings of the actions, the direction the player
//! aims in, and the keys that steer a level-up session.

use vstd::prelude::*;

verus! {

/// Number of actions that have a key bound to them.
pub const HOTKEY_COUNT: usize = 9;

/// The actions that have a key bound to them, in the order of the bindings.
#[derive(Clone, Copy, Debug, PartialEq, Eq, Structural)]
pub enum Hotkey {
    Up,
    Left,
    Down,
    Right,
    Shoot,
    Bomb,
    Turret,
    Emp,
    Run,
}

/// What a key press means to a screen with a list of choices: one line up
/// or down, taking the line, the way to the settings, the way back, or
/// nothing.
#[derive(Clone, Copy, Debug, PartialEq, Eq, Structural)]
pub enum Nav {
    Up,
    Down,
    Select,
    Settings,
    Escape,
    Other,
}

impl Hotkey {
    /// Position of the action in the bindings.
    pub open spec fn slot(self) -> int {
        match self {
            Hotkey::Up => 0,
            Hotkey::Left => 1,
            Hotkey::Down => 2,
            Hotkey::Right => 3,
            Hotkey::Shoot => 4,
            Hotkey::Bomb => 5,
            Hotkey::Turret => 6,
            Hotkey::Emp => 7,
            Hotkey::Run => 8,
        }
    }

    /// Position of the action in the bindings.
    pub fn index(self) -> (i: usize)
        ensures
            i == self.slot(),
            i < HOTKEY_COUNT,
    {
        match self {
            Hotkey::Up => 0,
            Hotkey::Left => 1,
            Hotkey::Down => 2,
            Hotkey::Right => 3,
            Hotkey::Shoot => 4,
            Hotkey::Bomb => 5,
            Hotkey::Turret => 6,
            Hotkey::Emp => 7,
            Hotkey::Run => 8,
        }
    }
}

/// The step that the turret direction `d` stands for: left, up, right, down.
pub open spec fn step_of(d: int) -> (int, int) {
    if d == 0 {
        (-1, 0)
    } else if d == 1 {
        (0, -1)
    } else if d == 2 {
        (1, 0)
    } else {
        (0, 1)
    }
}

/// The turret direction of the movement key `key` under the bindings
/// `hotkeys`, if it is bound to a movement. Up is tried first, then right,
/// down and left.
pub open spec fn heading_of(key: u32, hotkeys: Seq<u32>) -> Option<int> {
    if key == hotkeys[Hotkey::Up.slot()] {
        Some(1)
    } else if key == hotkeys[Hotkey::Right.slot()] {
        Some(2)
    } else if key == hotkeys[Hotkey::Down.slot()] {
        Some(3)
    } else if key == hotkeys[Hotkey::Left.slot()] {
        Some(0)
    } else {
        None
    }
}

/// The direction the player aims in: that of the movement key pressed last
/// among those still held, if any is held and it is bound to a movement.
pub open spec fn aim_of(keys: Seq<u32>, hotkeys: Seq<u32>) -> Option<int> {
    if keys.len() == 0 {
        None
    } else {
        heading_of(keys.last(), hotkeys)
    }
}

/// The step that the turret direction `d` stands for.
pub fn step(d: usize) -> (s: (i32, i32))
    requires
        d < 4,
    ensures
        s.0 == step_of(d as int).0,
        s.1 == step_of(d as int).1,
{
    match d {
        0 => (-1, 0),
        1 => (0, -1),
        2 => (1, 0),
        _ => (0, 1),
    }
}

/// The direction the player aims in, as a turret direction. `keys` are the
/// movement keys held, in the order they were pressed.
pub fn aim(keys: &Vec<u32>, hotkeys: &Vec<u32>) -> (d: Option<usize>)
    requires
        hotkeys.len() == HOTKEY_COUNT,
    ensures
        d matches Some(v) ==> v < 4 && aim_of(keys@, hotkeys@) == Some(v as int),
        d is None ==> aim_of(keys@, hotkeys@) is None,
{
    if keys.len() == 0 {
        return None;
    }
    let key: u32 = keys[keys.len() - 1];
    if key == hotkeys[Hotkey::Up.index()] {
        Some(1)
    } else if key == hotkeys[Hotkey::Right.index()] {
        Some(2)
    } else if key == hotkeys[Hotkey::Down.index()] {
        Some(3)
    } else if key == hotkeys[Hotkey::Left.index()] {
        Some(0)
    } else {
        None
    }
}

} // verus!
