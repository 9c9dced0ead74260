//! Property sets: a recursive, schema-light tree of attribute records, and the
//! dynamic JSON-like value that carries them across boundaries.
//!
//! - `value`: the dynamic value, its model, and its canonical JSON text.
//! - `errors`: parse and conversion error kinds.
//! - `psets`: the leaf records, the tree, their wire forms and the ordered-fallback parse.
//! - `flatten`: the flat listing, the display tree and the one-level iteration view.
//! - `display`: display text.
//! - `laws`: laws relating these operations.

pub mod display;
pub mod errors;
pub mod flatten;
pub mod laws;
pub mod psets;
pub mod value;

pub use errors::{err_to_string, ConversionError, LeafField, ParseError};
pub use flatten::{PsetFlattenedValue, PsetFlattenedValueWithAddress, PsetTree, PsetsIterator};
pub use psets::{Pset, PsetId, PsetNestedValue, Psets};
pub use value::{DynamicValue, HostNumber, JsonNumber, JsonValue, NumberModel};
