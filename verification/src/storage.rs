//! The persistent record: highscore, key bindings and achievements, and the
//! byte mask it is stored under.

use crate::input::HOTKEY_COUNT;
use vstd::prelude::*;

verus! {

/// The byte every stored byte is combined with.
pub const KEY: u8 = 0b11001010;

/// Number of achievements.
pub const ACHIEVEMENT_COUNT: usize = 6;

/// The achievements, in the order of the record.
#[derive(Clone, Copy, Debug, PartialEq, Eq, Hash, Structural)]
pub enum Achievement {
    Tutorial,
    UnlockAnne,
    UnlockAndrew,
    UnlockMatthew,
    UnlockMegan,
    UnlockLiShen,
}

/// Whether an achievement was reached.
#[derive(Clone, Copy, Debug, PartialEq, Eq, Structural)]
pub struct AchievementState {
    pub state: bool,
}

/// The persistent record. `achievements` holds one state for each
/// achievement, in their order.
#[derive(Debug)]
pub struct Storage {
    pub highscore: i32,
    pub hotkeys: Vec<u32>,
    pub achievements: Vec<AchievementState>,
}

impl Achievement {
    /// Position of the achievement in the record.
    pub open spec fn slot(self) -> int {
        match self {
            Achievement::Tutorial => 0,
            Achievement::UnlockAnne => 1,
            Achievement::UnlockAndrew => 2,
            Achievement::UnlockMatthew => 3,
            Achievement::UnlockMegan => 4,
            Achievement::UnlockLiShen => 5,
        }
    }

    /// Position of the achievement in the record.
    pub fn index(self) -> (i: usize)
        ensures
            i == self.slot(),
            i < ACHIEVEMENT_COUNT,
    {
        match self {
            Achievement::Tutorial => 0,
            Achievement::UnlockAnne => 1,
            Achievement::UnlockAndrew => 2,
            Achievement::UnlockMatthew => 3,
            Achievement::UnlockMegan => 4,
            Achievement::UnlockLiShen => 5,
        }
    }

    /// Whether a run that ended with `score`, `killed` kills and the weapon
    /// usage `used` earns the achievement. The tutorial is never earned by a
    /// run.
    pub open spec fn earned(self, score: int, killed: int, used: Seq<i32>) -> bool {
        match self {
            Achievement::Tutorial => false,
            Achievement::UnlockAnne => score >= 1000 && used[0] == 0 && used[1] >= 1 && used[2]
                == 0 && used[3] == 0,
            Achievement::UnlockAndrew => killed >= 150,
            Achievement::UnlockMatthew => killed >= 50 && used[0] == 0 && used[1] == 0 && used[2]
                >= 1 && used[3] == 0,
            Achievement::UnlockMegan => score >= 3000,
            Achievement::UnlockLiShen => score >= 1000 && killed == 0,
        }
    }

    /// Whether a run that ended with `score`, `killed` kills and the weapon
    /// usage `used` earns the achievement.
    pub fn is_earned(self, score: i32, killed: i32, used: &[i32; 4]) -> (b: bool)
        ensures
            b == self.earned(score as int, killed as int, used@),
    {
        match self {
            Achievement::Tutorial => false,
            Achievement::UnlockAnne => score >= 1000 && used[0] == 0 && used[1] >= 1 && used[2]
                == 0 && used[3] == 0,
            Achievement::UnlockAndrew => killed >= 150,
            Achievement::UnlockMatthew => killed >= 50 && used[0] == 0 && used[1] == 0 && used[2]
                >= 1 && used[3] == 0,
            Achievement::UnlockMegan => score >= 3000,
            Achievement::UnlockLiShen => score >= 1000 && killed == 0,
        }
    }
}

/// The achievement at position `i` of the record.
pub open spec fn achievement_at(i: int) -> Achievement {
    if i == 0 {
        Achievement::Tutorial
    } else if i == 1 {
        Achievement::UnlockAnne
    } else if i == 2 {
        Achievement::UnlockAndrew
    } else if i == 3 {
        Achievement::UnlockMatthew
    } else if i == 4 {
        Achievement::UnlockMegan
    } else {
        Achievement::UnlockLiShen
    }
}

/// The achievement states after a run that ended with `score`, `killed` and
/// `used`: what was reached stays reached, and what the run earns is
/// reached.
pub open spec fn settled_states(
    states: Seq<AchievementState>,
    score: int,
    killed: int,
    used: Seq<i32>,
) -> Seq<AchievementState> {
    Seq::new(
        states.len(),
        |i: int|
            AchievementState {
                state: states[i].state || achievement_at(i).earned(score, killed, used),
            },
    )
}

/// The highscore after a run that ended with `score`.
pub open spec fn settled_highscore(highscore: int, score: int) -> int {
    if score > highscore {
        score
    } else {
        highscore
    }
}

/// Whether a run that ended with `score`, `killed` and `used` changes the
/// record, so that it has to be saved.
pub open spec fn changes_record(
    states: Seq<AchievementState>,
    highscore: int,
    score: int,
    killed: int,
    used: Seq<i32>,
) -> bool {
    score > highscore || exists|i: int|
        0 <= i < states.len() && !(#[trigger] states[i]).state && achievement_at(i).earned(
            score,
            killed,
            used,
        )
}

/// The bytes of `data`, each combined with `KEY` by exclusive or.
pub open spec fn masked(data: Seq<u8>) -> Seq<u8> {
    Seq::new(data.len(), |i: int| data[i] ^ KEY)
}

/// Masking twice gives the bytes back.
pub proof fn lemma_mask_twice(data: Seq<u8>)
    ensures
        masked(masked(data)) == data,
{
    assert forall|i: int| 0 <= i < data.len() implies masked(masked(data))[i] == data[i] by {
        let b = data[i];
        assert((b ^ KEY) ^ KEY == b) by (bit_vector);
    }
    assert(masked(masked(data)) =~= data);
}

/// A run that was settled once changes nothing when it is settled again:
/// the states and the highscore stay, and nothing is left to save.
pub proof fn lemma_settle_once(
    states: Seq<AchievementState>,
    highscore: int,
    score: int,
    killed: int,
    used: Seq<i32>,
)
    ensures
        settled_states(settled_states(states, score, killed, used), score, killed, used)
            == settled_states(states, score, killed, used),
        settled_highscore(settled_highscore(highscore, score), score) == settled_highscore(
            highscore,
            score,
        ),
        !changes_record(
            settled_states(states, score, killed, used),
            settled_highscore(highscore, score),
            score,
            killed,
            used,
        ),
{
    let once = settled_states(states, score, killed, used);
    assert(settled_states(once, score, killed, used) =~= once);
}

/// Combines every byte of `data` with `KEY`. The same call hides the bytes
/// and shows them again.
pub fn mask(data: &Vec<u8>) -> (out: Vec<u8>)
    ensures
        out@ == masked(data@),
{
    let mut out: Vec<u8> = Vec::new();
    let mut i: usize = 0;
    while i < data.len()
        invariant
            i <= data.len(),
            out.len() == i,
            forall|k: int| 0 <= k < i ==> out@[k] == data@[k] ^ KEY,
        decreases data.len() - i,
    {
        out.push(data[i] ^ KEY);
        i = i + 1;
    }
    assert(out@ =~= masked(data@));
    out
}

impl Storage {
    /// The record has a binding for each action and a state for each
    /// achievement.
    pub open spec fn wf(&self) -> bool {
        &&& self.hotkeys.len() == HOTKEY_COUNT
        &&& self.achievements.len() == ACHIEVEMENT_COUNT
    }

    /// Whether the achievement `a` was reached.
    pub open spec fn granted(&self, a: Achievement) -> bool {
        self.achievements@[a.slot()].state
    }

    /// Whether the record has a binding for each action and a state for each
    /// achievement.
    pub fn is_wf(&self) -> (b: bool)
        ensures
            b == self.wf(),
    {
        self.hotkeys.len() == HOTKEY_COUNT && self.achievements.len() == ACHIEVEMENT_COUNT
    }

    /// A record with no highscore, the key bindings `bindings` and no
    /// achievement reached.
    pub fn fresh(bindings: Vec<u32>) -> (s: Storage)
        requires
            bindings.len() == HOTKEY_COUNT,
        ensures
            s.wf(),
            s.highscore == 0,
            s.hotkeys == bindings,
            forall|i: int| 0 <= i < ACHIEVEMENT_COUNT ==> !(#[trigger] s.achievements@[i]).state,
    {
        let mut achievements: Vec<AchievementState> = Vec::new();
        let mut i: usize = 0;
        while i < ACHIEVEMENT_COUNT
            invariant
                i <= ACHIEVEMENT_COUNT,
                achievements.len() == i,
                forall|k: int| 0 <= k < i ==> !(#[trigger] achievements@[k]).state,
            decreases ACHIEVEMENT_COUNT - i,
        {
            achievements.push(AchievementState { state: false });
            i = i + 1;
        }
        Storage { highscore: 0, hotkeys: bindings, achievements }
    }

    /// The record to play with: the one that was loaded, if one was and it
    /// is complete, and else a fresh one with the bindings `bindings`.
    pub fn new(loaded: Option<Storage>, bindings: Vec<u32>) -> (s: Storage)
        requires
            bindings.len() == HOTKEY_COUNT,
        ensures
            s.wf(),
            (loaded matches Some(l) && l.wf()) ==> loaded == Some(s),
            !(loaded matches Some(l) && l.wf()) ==> {
                &&& s.highscore == 0
                &&& s.hotkeys == bindings
                &&& forall|i: int|
                    0 <= i < ACHIEVEMENT_COUNT ==> !(#[trigger] s.achievements@[i]).state
            },
    {
        match loaded {
            Some(l) => {
                if l.is_wf() {
                    l
                } else {
                    Storage::fresh(bindings)
                }
            },
            None => Storage::fresh(bindings),
        }
    }

    /// Whether the achievement `a` was reached.
    pub fn has(&self, a: Achievement) -> (b: bool)
        requires
            self.wf(),
        ensures
            b == self.granted(a),
    {
        self.achievements[a.index()].state
    }

    /// Marks the achievement `a` as reached.
    pub fn grant(&mut self, a: Achievement)
        requires
            old(self).wf(),
        ensures
            final(self).wf(),
            final(self).highscore == old(self).highscore,
            final(self).hotkeys == old(self).hotkeys,
            final(self).achievements@ == old(self).achievements@.update(
                a.slot(),
                AchievementState { state: true },
            ),
    {
        let i: usize = a.index();
        self.achievements[i] = AchievementState { state: true };
    }

    /// Settles a run that ended with `score`, `killed` kills and the weapon
    /// usage `used`: raises the highscore if the score beats it, and marks
    /// each achievement that the run earns. Returns whether the record
    /// changed and has to be saved.
    pub fn settle(&mut self, score: i32, killed: i32, used: &[i32; 4]) -> (save: bool)
        requires
            old(self).wf(),
        ensures
            final(self).wf(),
            final(self).hotkeys == old(self).hotkeys,
            final(self).highscore == settled_highscore(old(self).highscore as int, score as int),
            final(self).achievements@ == settled_states(
                old(self).achievements@,
                score as int,
                killed as int,
                used@,
            ),
            save == changes_record(
                old(self).achievements@,
                old(self).highscore as int,
                score as int,
                killed as int,
                used@,
            ),
    {
        let mut save: bool = false;
        if score > self.highscore {
            self.highscore = score;
            save = true;
        }
        let ghost before = self.achievements@;
        let mut i: usize = 0;
        let mut fresh: bool = false;
        while i < ACHIEVEMENT_COUNT
            invariant
                i <= ACHIEVEMENT_COUNT,
                before.len() == ACHIEVEMENT_COUNT,
                self.achievements.len() == ACHIEVEMENT_COUNT,
                self.hotkeys == old(self).hotkeys,
                self.highscore == settled_highscore(old(self).highscore as int, score as int),
                before == old(self).achievements@,
                forall|k: int|
                    0 <= k < i ==> (#[trigger] self.achievements@[k]).state == (before[k].state
                        || achievement_at(k).earned(score as int, killed as int, used@)),
                forall|k: int|
                    i <= k < ACHIEVEMENT_COUNT ==> #[trigger] self.achievements@[k] == before[k],
                fresh == exists|k: int|
                    0 <= k < i && !(#[trigger] before[k]).state && achievement_at(k).earned(
                        score as int,
                        killed as int,
                        used@,
                    ),
            decreases ACHIEVEMENT_COUNT - i,
        {
            let a = match i {
                0 => Achievement::Tutorial,
                1 => Achievement::UnlockAnne,
                2 => Achievement::UnlockAndrew,
                3 => Achievement::UnlockMatthew,
                4 => Achievement::UnlockMegan,
                _ => Achievement::UnlockLiShen,
            };
            assert(a == achievement_at(i as int));
            if a.is_earned(score, killed, used) && !self.achievements[i].state {
                self.achievements[i] = AchievementState { state: true };
                fresh = true;
            }
            i = i + 1;
        }
        assert(self.achievements@ =~= settled_states(
            before,
            score as int,
            killed as int,
            used@,
        ));
        save || fresh
    }
}

} // verus!
