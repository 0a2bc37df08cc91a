use vstd::prelude::*;

verus! {

/// The ways a game can be played.
#[derive(Clone, Copy, Debug, PartialEq, Eq, Structural)]
pub enum GameMode {
    TimeAttack,
    Outsmart,
    Race,
}

impl GameMode {
    /// The text shown for this mode.
    pub fn label(&self) -> (r: &'static str)
        ensures
            r@ == match *self {
                GameMode::TimeAttack => "Time Attack"@,
                GameMode::Outsmart => "Outsmart"@,
                GameMode::Race => "Race"@,
            },
    {
        match self {
            GameMode::TimeAttack => "Time Attack",
            GameMode::Outsmart => "Outsmart",
            GameMode::Race => "Race",
        }
    }
}

} // verus!
