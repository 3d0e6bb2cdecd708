//! User interface: how children are aligned and laid out, and where an element
//! is anchored on the screen.
use vstd::prelude::*;

verus! {

/// Alignment of children across the layout direction.
#[derive(Clone, Copy, Debug, PartialEq, Eq, Structural)]
pub enum Align {
    Start,
    Center,
    End,
    Stretch,
}

/// The direction children are laid out in.
#[derive(Clone, Copy, Debug, PartialEq, Eq, Structural)]
pub enum Direction {
    Row,
    Column,
}

/// Where an element is placed relative to the screen.
#[derive(Clone, Copy, Debug, PartialEq, Eq, Structural)]
pub enum Anchor {
    TopLeft,
    TopCenter,
    TopRight,
    CenterLeft,
    Center,
    CenterRight,
    BottomLeft,
    BottomCenter,
    BottomRight,
}

/// The column (0 left, 1 centre, 2 right) and the row (0 top, 1 centre,
/// 2 bottom) of an anchor.
pub open spec fn anchor_cell(a: Anchor) -> (nat, nat) {
    match a {
        Anchor::TopLeft => (0, 0),
        Anchor::TopCenter => (1, 0),
        Anchor::TopRight => (2, 0),
        Anchor::CenterLeft => (0, 1),
        Anchor::Center => (1, 1),
        Anchor::CenterRight => (2, 1),
        Anchor::BottomLeft => (0, 2),
        Anchor::BottomCenter => (1, 2),
        Anchor::BottomRight => (2, 2),
    }
}

/// The column and the row of an anchor in a three by three grid.
pub fn anchor_grid(a: Anchor) -> (c: (u8, u8))
    ensures
        c.0 == anchor_cell(a).0,
        c.1 == anchor_cell(a).1,
{
    match a {
        Anchor::TopLeft => (0, 0),
        Anchor::TopCenter => (1, 0),
        Anchor::TopRight => (2, 0),
        Anchor::CenterLeft => (0, 1),
        Anchor::Center => (1, 1),
        Anchor::CenterRight => (2, 1),
        Anchor::BottomLeft => (0, 2),
        Anchor::BottomCenter => (1, 2),
        Anchor::BottomRight => (2, 2),
    }
}

} // verus!
