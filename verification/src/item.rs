//! The kinds of things that lie in the dungeon.
use vstd::prelude::*;

verus! {

/// What kind of thing an item is.
#[derive(Clone, Copy, Debug, PartialEq, Eq, Structural, Hash)]
pub enum ItemKind {
    Armor,
    Food,
    Gold,
    Potion,
    Ring,
    Scroll,
    Wand,
    Weapon,
}

} // verus!
