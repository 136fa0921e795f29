use crate::symbol::{Symbol, FAKE_NAME_ID, I64_NAME_ID, SYMBOL_NAME_ID, UNIT_NAME_ID};
use vstd::prelude::*;

verus! {

/// An engine-level row / e-class identifier, assigned by the surrounding
/// engine.  A [`Value`] may denote "the element of e-class `index`" via
/// [`Value::from_id`].
#[derive(Clone, Copy, PartialEq, Eq, Structural, Debug)]
pub struct Id {
    pub index: usize,
}

/// The universal token for every datum of every sort: a type tag plus a
/// 64-bit payload.
///
/// `tag` names the sort that owns the interpretation of `bits`.  Scalar sorts
/// keep their encoding in `bits` directly; aggregate sorts keep an index into
/// the owning sort's interning store there, never the aggregate's content.
/// Values are immutable, free to copy, and totally ordered by `(tag, bits)`.
#[derive(Clone, Copy, PartialEq, Eq, Structural, PartialOrd, Ord, Hash, Debug)]
pub struct Value {
    pub tag: Symbol,
    pub bits: u64,
}

/// The total order on values: lexicographic on `(tag, bits)`.  Equality of
/// the pair is equality of the value, so values serve as map and set keys.
pub open spec fn value_lt(a: Value, b: Value) -> bool {
    a.tag.id < b.tag.id || (a.tag.id == b.tag.id && a.bits < b.bits)
}

impl Value {
    /// The distinguished nullary/void result.
    pub fn unit() -> (r: Value)
        ensures
            r.tag.id == UNIT_NAME_ID,
            r.bits == 0,
    {
        Value { tag: Symbol::new(UNIT_NAME_ID), bits: 0 }
    }

    /// A sentinel for internal placeholder use; it never denotes real data.
    /// The payload is one fixed, recognizable constant, so every sentinel is
    /// the same value.
    pub fn fake() -> (r: Value)
        ensures
            r.tag.id == FAKE_NAME_ID,
            r.bits == 1234567890,
    {
        Value { tag: Symbol::new(FAKE_NAME_ID), bits: 1234567890 }
    }

    /// Builds the value denoting the element of e-class `id` of the sort
    /// tagged `tag`.
    pub fn from_id(tag: Symbol, id: Id) -> (r: Value)
        ensures
            r.tag == tag,
            r.bits == id.index as u64,
    {
        Value { tag, bits: id.index as u64 }
    }

    /// Compares two values in the total order [`value_lt`].
    pub fn lt(&self, other: &Value) -> (r: bool)
        ensures
            r == value_lt(*self, *other),
    {
        self.tag.id < other.tag.id || (self.tag.id == other.tag.id && self.bits < other.bits)
    }
}

impl From<i64> for Value {
    /// Encodes a 64-bit integer under the integer sort's tag; `bits` holds
    /// the integer's bit pattern.
    fn from(i: i64) -> (r: Value) {
        Value { tag: Symbol::new(I64_NAME_ID), bits: i as u64 }
    }
}

impl vstd::std_specs::convert::FromSpecImpl<i64> for Value {
    open spec fn obeys_from_spec() -> bool {
        true
    }

    open spec fn from_spec(i: i64) -> Value {
        Value { tag: Symbol { id: I64_NAME_ID }, bits: i as u64 }
    }
}

impl From<Symbol> for Value {
    /// Encodes an interned symbol under the symbol sort's tag; `bits` holds
    /// the symbol's id.
    fn from(s: Symbol) -> (r: Value) {
        Value { tag: Symbol::new(SYMBOL_NAME_ID), bits: s.id as u64 }
    }
}

impl vstd::std_specs::convert::FromSpecImpl<Symbol> for Value {
    open spec fn obeys_from_spec() -> bool {
        true
    }

    open spec fn from_spec(s: Symbol) -> Value {
        Value { tag: Symbol { id: SYMBOL_NAME_ID }, bits: s.id as u64 }
    }
}

} // verus!
