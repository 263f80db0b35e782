//! A JSON document model that borrows string data from the parsed text.
//!
//! Parsing builds a [`Value`] tree whose string leaves are, wherever the text
//! allows it, views into the input buffer instead of fresh allocations. JSON
//! objects are kept as ordered `(key, value)` vectors ([`ObjectAsVec`]),
//! preserving entry order and duplicate keys.

use vstd::prelude::*;

mod chars;
mod de;
mod error;
mod grammar;
mod index;
mod laws;
mod model;
mod object_vec;
mod owned;
mod reusable;
mod ser;
mod value;

pub use de::parse_json;
pub use error::JsonError;
pub use grammar::parse_text;
pub use grammar::ser_value;
pub use index::Index;
pub use laws::float_free;
pub use laws::lemma_round_trip;
pub use model::NumberModel;
pub use model::ValueModel;
pub use object_vec::ObjectAsVec;
pub use object_vec::ObjectEntry;
pub use owned::OwnedValue;
pub use reusable::BorrowedMap;
pub use reusable::ReusableMap;
pub use value::borrow_decision;
pub use value::str_decision;
pub use value::CowStr;
pub use value::Number;
pub use value::Value;

verus! {

/// A 64-bit IEEE-754 bit pattern whose exponent field is not all ones: such a
/// pattern denotes a finite double. JSON numbers are never NaN or infinite.
pub open spec fn is_finite_bits(bits: u64) -> bool {
    (bits >> 52) & 0x7ff != 0x7ff
}

/// The bit pattern of negative zero, the one finite double whose bits differ
/// from the value's canonical representation here.
pub open spec fn neg_zero_bits() -> u64 {
    0x8000_0000_0000_0000
}

/// The canonical bit pattern for a finite double: negative zero is represented
/// by positive zero, every other value by its own bits.
pub open spec fn norm_float_bits(bits: u64) -> u64 {
    if bits == neg_zero_bits() {
        0
    } else {
        bits
    }
}

} // verus!
