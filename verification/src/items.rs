use vstd::prelude::*;

verus! {

/// A direction printed on a clue cell.
#[derive(Clone, Copy, Debug, PartialEq, Eq, Structural)]
pub enum Arrow {
    Unspecified,
    Up,
    Down,
    Left,
    Right,
}

} // verus!
