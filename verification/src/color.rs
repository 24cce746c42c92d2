use vstd::prelude::*;

verus! {

/// The two token colors. Blue moves first; a blue token sits on the even bit
/// of its cell pair and a red token on the odd bit directly above it.
#[derive(Debug, PartialEq, Eq, Structural, Clone, Copy)]
pub enum PlayerColor {
    Red,
    Blue,
}

impl PlayerColor {
    /// The color that moves after `self`.
    pub open spec fn other(self) -> PlayerColor {
        match self {
            PlayerColor::Red => PlayerColor::Blue,
            PlayerColor::Blue => PlayerColor::Red,
        }
    }
}

} // verus!
