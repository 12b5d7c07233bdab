//! Stringly is a human readable and writable serialization format that is
//! not self-describing.
//!
//! # Format
//!
//! *   Strings are written as they are, without quotes and without
//!     escaping.  Numbers are written as decimal numerals.
//!
//! *   A sequence of items is written by joining the items with `,`.  An
//!     item that holds a `,` is protected by enclosing it in curly braces:
//!     the strings `1,2`, `3` and `4` are written as `{1,2},3,4`.
//!
//! *   A mapping is written by joining its pairs with `,`, where each pair
//!     is its key and its value joined with a `=`.  A key is protected for
//!     `=` and `,`, a value for `,`.
//!
//! *   A variant of an enum is written as its name, followed by what it
//!     holds in curly braces: `Tuple{1,2}`.
//!
//! ## Protection
//!
//! Instead of escaping single characters, the format encloses a whole
//! string in curly braces.  Unprotecting a string takes the braces off.
//! So a string that starts with `{` and ends with `}` must be protected
//! whatever it holds, or it would lose braces of its own; and a string with
//! unbalanced braces must be balanced and protected, or a separator behind
//! it would not be seen.  A string is balanced by a marker `<{...{>` behind
//! the opening brace and a marker `<}...}>` before the closing brace, which
//! hold the braces that the string lacks.
//!
//! The module [`util`] holds the functions that split, protect and
//! prettify; what they return is stated in their contracts, and
//! [`util::guarantees`] and [`util::inverse`] prove that what was protected
//! or prettified is read back unchanged.  [`ser`] and [`de`] hold the text
//! of each kind of value.

pub mod de;
pub mod error;
pub mod number;
pub mod ser;
pub mod text;
pub mod util;

pub use de::Deserializer;
pub use error::Error;
pub use ser::{SerializeSequence, SerializeVariantSequence, Serializer};
