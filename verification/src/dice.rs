use vstd::prelude::*;

verus! {

/// Outcome of a single six-sided die, after mapping the raw roll to the
/// game's four effects.
#[derive(Clone, Copy, PartialEq, Eq, Structural, Debug)]
pub enum DieFace {
    /// No effect: the roller keeps the chip.
    Dot,
    /// One chip moves to the numerically previous player, wrapping.
    Left,
    /// One chip moves to the numerically next player, wrapping.
    Right,
    /// One chip is retired to the center pool, permanently out of play.
    Center,
}

/// The face a raw roll resolves to: 1 is Left, 2 is Right, 3 is Center, and
/// 4, 5, 6 are Dot (so Dot has probability one half, the others one sixth
/// each).
pub open spec fn face_of_roll_spec(roll: u8) -> DieFace {
    if roll == 1 {
        DieFace::Left
    } else if roll == 2 {
        DieFace::Right
    } else if roll == 3 {
        DieFace::Center
    } else {
        DieFace::Dot
    }
}

/// Relies on rand::thread_rng and rand::Rng::gen_range: returns a value drawn
/// from the given inclusive range, here 1 through 6.
#[verifier::external_body]
pub(crate) fn roll_die() -> (r: u8)
    ensures
        1 <= r <= 6,
{
    rand::Rng::gen_range(&mut rand::thread_rng(), 1..=6)
}

/// Maps a raw six-sided roll to its game effect.
pub fn face_of_roll(roll: u8) -> (r: DieFace)
    requires
        1 <= roll <= 6,
    ensures
        r == face_of_roll_spec(roll),
{
    if roll == 1 {
        DieFace::Left
    } else if roll == 2 {
        DieFace::Right
    } else if roll == 3 {
        DieFace::Center
    } else {
        DieFace::Dot
    }
}

} // verus!
