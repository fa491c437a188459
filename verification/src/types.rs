use vstd::prelude::*;

verus! {

/// Identifier of a kind of item.
pub type ItemType = u16;

/// Spatial units taken up by one stack on a belt (one slot).
pub const ITEM_WIDTH: u32 = 128;

} // verus!
