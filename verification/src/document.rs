//! What a bencoded document is, apart from any way of holding it in memory.

use crate::dictionary::keys_ascending;
use vstd::prelude::*;
use vstd::utf8::{decode_utf8, encode_utf8, valid_utf8};

verus! {

/// A document: the mathematical value that the owning and the borrowing
/// value types both stand for, and that the wire format encodes.
///
/// A dictionary is the sequence of its entries. In a document that the
/// library built, the keys of that sequence ascend strictly.
pub enum Document {
    /// A signed integer.
    Number(i64),
    /// A byte string that holds valid text.
    Text(Seq<char>),
    /// A byte string that is kept as raw bytes.
    Bytes(Seq<u8>),
    /// A sequence of documents.
    List(Seq<Document>),
    /// Keys with their documents.
    Dictionary(Seq<(Seq<char>, Document)>),
}

/// A byte string of `len` bytes is short enough for a length prefix: the
/// prefix is read as a 64-bit signed number.
pub open spec fn fits_prefix(len: nat) -> bool {
    len <= i64::MAX
}

impl Document {
    /// The document is one that decoding can give back unchanged:
    /// every dictionary has its keys in strictly ascending order, raw bytes
    /// are kept only where they are no valid text, and every byte string is
    /// short enough for its length prefix.
    pub open spec fn canonical(self) -> bool
        decreases self,
    {
        match self {
            Document::Number(_) => true,
            Document::Text(text) => fits_prefix(encode_utf8(text).len()),
            Document::Bytes(bytes) => !valid_utf8(bytes) && fits_prefix(bytes.len()),
            Document::List(items) => forall|i: int|
                0 <= i < items.len() ==> (#[trigger] items[i]).canonical(),
            Document::Dictionary(entries) => keys_ascending(entries) && forall|i: int|
                0 <= i < entries.len() ==> fits_prefix(
                    encode_utf8((#[trigger] entries[i]).0).len(),
                ) && entries[i].1.canonical(),
        }
    }
}

impl Document {
    /// The document is one that a value can hold and a token can announce:
    /// every dictionary has its keys in strictly ascending order, and every
    /// byte string is short enough for its length prefix.
    pub open spec fn well_formed(self) -> bool
        decreases self,
    {
        match self {
            Document::Number(_) => true,
            Document::Text(text) => fits_prefix(encode_utf8(text).len()),
            Document::Bytes(bytes) => fits_prefix(bytes.len()),
            Document::List(items) => forall|i: int|
                0 <= i < items.len() ==> (#[trigger] items[i]).well_formed(),
            Document::Dictionary(entries) => keys_ascending(entries) && forall|i: int|
                0 <= i < entries.len() ==> fits_prefix(
                    encode_utf8((#[trigger] entries[i]).0).len(),
                ) && entries[i].1.well_formed(),
        }
    }

    /// The document as decoding gives it back: raw bytes that are valid
    /// text are that text, all else is as it was.
    pub open spec fn normalized(self) -> Document
        decreases self, 0int,
    {
        match self {
            Document::Number(n) => self,
            Document::Text(text) => self,
            Document::Bytes(bytes) => if valid_utf8(bytes) {
                Document::Text(decode_utf8(bytes))
            } else {
                self
            },
            Document::List(items) => Document::List(normalized_items(items)),
            Document::Dictionary(entries) => Document::Dictionary(normalized_entries(entries)),
        }
    }
}

/// The items of a list, each as decoding gives it back.
pub open spec fn normalized_items(items: Seq<Document>) -> Seq<Document>
    decreases items, 1int,
{
    if items.len() == 0 {
        Seq::empty()
    } else {
        normalized_items(items.drop_last()).push(items.last().normalized())
    }
}

/// The entries of a dictionary, each value as decoding gives it back.
pub open spec fn normalized_entries(entries: Seq<(Seq<char>, Document)>) -> Seq<
    (Seq<char>, Document),
>
    decreases entries, 1int,
{
    if entries.len() == 0 {
        Seq::empty()
    } else {
        normalized_entries(entries.drop_last()).push(
            (entries.last().0, entries.last().1.normalized()),
        )
    }
}

} // verus!
