use vstd::prelude::*;

verus! {

/// A key press as the terminal reports it, reduced to what the games read.
#[derive(Clone, Copy, PartialEq, Eq, Structural, Debug)]
pub enum KeyPress {
    Char(char),
    Up,
    Down,
    Left,
    Right,
    Enter,
    Esc,
    Other,
}

} // verus!
