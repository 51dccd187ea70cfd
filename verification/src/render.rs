//! What the library knows of drawing.

use vstd::prelude::*;

verus! {

/// The two kinds of shape: one of the game's world, one of the display over it.
pub enum ShapeType {
    Game,
    UI,
}

} // verus!
