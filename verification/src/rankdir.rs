//! The layout direction of the rendered diagram: one of the four
//! orthogonal flow directions, parsed from its lower-case token.

use vstd::prelude::*;
use crate::escape::str_eq;

verus! {

/// Diagram flow direction.
#[derive(Clone, Copy, PartialEq, Eq, Structural, Debug)]
pub enum RankDir {
    LR,
    RL,
    TB,
    BT,
}

impl RankDir {
    /// Parse a direction token; exactly `lr`, `rl`, `tb` and `bt` are
    /// accepted, anything else is a configuration error.
    pub fn from_str(s: &str) -> (r: Result<RankDir, ()>)
        ensures
            r == (if s@ == "lr"@ {
                Ok::<RankDir, ()>(RankDir::LR)
            } else if s@ == "rl"@ {
                Ok::<RankDir, ()>(RankDir::RL)
            } else if s@ == "tb"@ {
                Ok::<RankDir, ()>(RankDir::TB)
            } else if s@ == "bt"@ {
                Ok::<RankDir, ()>(RankDir::BT)
            } else {
                Err::<RankDir, ()>(())
            }),
    {
        if str_eq(s, "lr") {
            Ok(RankDir::LR)
        } else if str_eq(s, "rl") {
            Ok(RankDir::RL)
        } else if str_eq(s, "tb") {
            Ok(RankDir::TB)
        } else if str_eq(s, "bt") {
            Ok(RankDir::BT)
        } else {
            Err(())
        }
    }
}

} // verus!
