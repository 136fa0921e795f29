use vstd::prelude::*;

verus! {

/// An identifier interned by the surrounding engine's global symbol table.
///
/// The table is a pre-existing service: it hands out a stable small-integer
/// id per distinct name and never reclaims one, so comparing ids is the same
/// as comparing names.  Only the id travels through this crate.
#[derive(Clone, Copy, PartialEq, Eq, Structural, PartialOrd, Ord, Hash, Debug)]
pub struct Symbol {
    pub id: u32,
}

/// Id under which the engine interns the unit sort's name.
pub const UNIT_NAME_ID: u32 = 0;

/// Id under which the engine interns the placeholder name of the sentinel value.
pub const FAKE_NAME_ID: u32 = 1;

/// Id under which the engine interns the 64-bit integer sort's name.
pub const I64_NAME_ID: u32 = 2;

/// Id under which the engine interns the symbol sort's name.
pub const SYMBOL_NAME_ID: u32 = 3;

/// Id under which the engine interns the empty-map constructor's name.
pub const EMPTY_NAME_ID: u32 = 4;

/// Id under which the engine interns the map insert primitive's name.
pub const INSERT_NAME_ID: u32 = 5;

/// Id under which the engine interns the map lookup primitive's name.
pub const GET_NAME_ID: u32 = 6;

impl Symbol {
    /// Wraps an id the engine's symbol table assigned.
    pub fn new(id: u32) -> (r: Symbol)
        ensures
            r.id == id,
    {
        Symbol { id }
    }
}

} // verus!
