//! A codec for bencode, the encoding built from four shapes: signed
//! integers, byte strings, lists, and dictionaries keyed by text.
//!
//! Decoding and encoding work on a complete buffer in memory. They are
//! stated against one mathematical account of the wire format and proved
//! to follow it:
//!
//! - [`document`] says what a document is, and [`grammar`] what each
//!   document is encoded as and what each input decodes to, errors
//!   included;
//! - [`stream`] holds the read heads over a byte buffer, [`de`] the decoder
//!   that recognises tokens, [`ser`] the encoder that writes them;
//! - [`value`] and [`value_ref`] hold the two types for any decoded
//!   document, one owning its data and one borrowing from the input, with
//!   [`from_binary`] and [`to_binary`] as the entry points;
//! - [`dictionary`] is the mapping from text to values that keeps its keys
//!   in ascending byte order, and [`order`] is that order;
//! - [`compare`] is the total order of documents, and [`relations`] gives
//!   the values their `==` and `<` by it;
//! - [`laws`] proves that decoding inverts encoding.
//!
//! No function of this crate panics, whatever the input. Decoding and
//! encoding recurse once for each level of nesting and set no limit to it,
//! so a document nested deeply enough can exhaust the call stack.

pub mod compare;
pub mod de;
pub mod dictionary;
pub mod document;
pub mod err;
pub mod grammar;
pub mod laws;
pub mod order;
pub mod relations;
pub mod ser;
pub mod stream;
pub mod value;
pub mod value_ref;

pub use dictionary::Dictionary;
pub use err::Error;
pub use value::{from_binary, to_binary, Value};
pub use value_ref::{from_binary_ref, to_binary_ref, ValueRef};
