//! What a window reports, as far as the demos react to it.
use vstd::prelude::*;

verus! {

/// A key that was pressed. `Digit(n)` is the key for the digit `n`.
#[derive(Clone, Copy, Debug, PartialEq, Eq, Structural)]
pub enum Key {
    Digit(u32),
    Space,
    C,
    E,
    O,
    P,
    Q,
    R,
    V,
    W,
    Other,
}

/// The mouse buttons that are down.
#[derive(Clone, Copy, Debug, PartialEq, Eq, Structural)]
pub struct Buttons {
    pub left: bool,
    pub right: bool,
}

} // verus!
