//! Score bookkeeping: the running score of the current game and the best
//! score seen across games.  Loading and saving the best score is the host
//! program's business; the rule for when it changes lives here.

use vstd::prelude::*;

verus! {

/// The running score of the current game.  It grows with every merge and
/// falls back to zero only on restart.
#[derive(Debug, Clone, Copy, PartialEq, Eq, Structural)]
pub struct Score(pub u32);

/// The best score seen so far, including past games.
#[derive(Debug, Clone, Copy, PartialEq, Eq, Structural)]
pub struct HighScore(pub u32);

impl Default for HighScore {
    /// With nothing recorded (or nothing readable), the best score is 0.
    fn default() -> (r: Self)
        ensures
            r == (HighScore(0u32)),
    {
        HighScore(0)
    }
}

/// Raises the high score to the current score when that is larger.
/// Returns whether it changed, which is when the host should persist it.
pub fn update_highscore(highscore: &mut HighScore, score: &Score) -> (changed: bool)
    ensures
        final(highscore).0 == if score.0 > old(highscore).0 {
            score.0
        } else {
            old(highscore).0
        },
        changed <==> score.0 > old(highscore).0,
        final(highscore).0 >= old(highscore).0,
{
    if score.0 > highscore.0 {
        highscore.0 = score.0;
        true
    } else {
        false
    }
}

} // verus!
