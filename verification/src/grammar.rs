//! The wire format, as functions on mathematical values: what each
//! document is encoded as, and what each byte string decodes to.
//!
//! Places in the input are indices into the whole buffer. Every parsing
//! function takes the place where a token starts and gives, with the value,
//! the place just behind the token.
//!
//! Where the input ends too early, the error tells what was being read. An
//! integer or a byte string that is cut short, or a token that is due and
//! not there at all, is `Eof`. A list or a dictionary whose input ends
//! where its closing `e` or one more item is due is `ExpectedEnd`: all
//! that it holds is complete, and it is not closed.

use crate::dictionary::dict_from;
use crate::document::Document;
use crate::err::Error;
use vstd::prelude::*;
use vstd::utf8::{decode_utf8, encode_utf8, valid_utf8};

verus! {

/// The byte `-`.
pub const MINUS: u8 = 45;

/// The byte `0`, the first of the ten digits.
pub const ZERO: u8 = 48;

/// The byte `9`, the last of the ten digits.
pub const NINE: u8 = 57;

/// The byte `:`, which ends a length prefix.
pub const COLON: u8 = 58;

/// The byte `d`, which opens a dictionary.
pub const DICTIONARY: u8 = 100;

/// The byte `e`, which ends an integer, a list and a dictionary.
pub const END: u8 = 101;

/// The byte `i`, which opens an integer.
pub const INTEGER: u8 = 105;

/// The byte `l`, which opens a list.
pub const LIST: u8 = 108;

/// The byte is one of the ASCII digits `0` to `9`.
pub open spec fn is_digit(byte: u8) -> bool {
    ZERO <= byte <= NINE
}

/// The ASCII digit that stands for `d`, a number from 0 to 9.
pub open spec fn digit(d: int) -> u8 {
    (ZERO + d) as u8
}

/// The decimal digits of `n`, most significant first, without leading
/// zeros; `0` for zero.
pub open spec fn digits(n: nat) -> Seq<u8>
    decreases n,
{
    if n < 10 {
        seq![digit(n as int)]
    } else {
        digits(n / 10).push(digit(n as int % 10))
    }
}

/// The decimal notation of `n`, with a leading `-` where `n` is negative.
pub open spec fn decimal(n: int) -> Seq<u8> {
    if n < 0 {
        seq![MINUS] + digits((-n) as nat)
    } else {
        digits(n as nat)
    }
}

/// An integer token: `i`, the decimal notation, `e`.
pub open spec fn encode_number(n: int) -> Seq<u8> {
    seq![INTEGER] + decimal(n) + seq![END]
}

/// A byte string token: the decimal length, `:`, the bytes as they are.
pub open spec fn encode_bytes(bytes: Seq<u8>) -> Seq<u8> {
    digits(bytes.len()) + seq![COLON] + bytes
}

/// Text as a byte string token of its UTF-8 encoding.
pub open spec fn encode_text(text: Seq<char>) -> Seq<u8> {
    encode_bytes(encode_utf8(text))
}

/// The encoding of a document.
pub open spec fn encode(doc: Document) -> Seq<u8>
    decreases doc, 0int,
{
    match doc {
        Document::Number(n) => encode_number(n as int),
        Document::Text(text) => encode_text(text),
        Document::Bytes(bytes) => encode_bytes(bytes),
        Document::List(items) => seq![LIST] + encode_items(items) + seq![END],
        Document::Dictionary(entries) => seq![DICTIONARY] + encode_entries(entries) + seq![END],
    }
}

/// The encodings of the items of a list, one after another.
pub open spec fn encode_items(items: Seq<Document>) -> Seq<u8>
    decreases items, 1int,
{
    if items.len() == 0 {
        Seq::empty()
    } else {
        encode_items(items.drop_last()) + encode(items.last())
    }
}

/// The entries of a dictionary, one after another in the order of the
/// sequence: each key as a byte string token, then the encoding of what it
/// is bound to.
pub open spec fn encode_entries(entries: Seq<(Seq<char>, Document)>) -> Seq<u8>
    decreases entries, 1int,
{
    if entries.len() == 0 {
        Seq::empty()
    } else {
        encode_entries(entries.drop_last()) + encode_text(entries.last().0) + encode(
            entries.last().1,
        )
    }
}

/// The first place at or behind `pos` that holds no digit, or holds
/// `terminator`; the length of `data` if there is none.
pub open spec fn token_end(data: Seq<u8>, pos: int, terminator: u8) -> int
    decreases data.len() - pos,
{
    if 0 <= pos < data.len() && is_digit(data[pos]) && data[pos] != terminator {
        token_end(data, pos + 1, terminator)
    } else {
        pos
    }
}

/// The number that the digits of `data` from `from` up to `to` spell.
pub open spec fn digits_value(data: Seq<u8>, from: int, to: int) -> nat
    decreases to - from,
{
    if from >= to {
        0
    } else {
        (digits_value(data, from, to - 1) * 10 + (data[to - 1] - ZERO)) as nat
    }
}

/// A signed number that stands at `pos` and runs up to `terminator`: an
/// optional `-`, then one digit or more. Leading zeros are accepted. The
/// place that comes back is that of the terminator.
///
/// The input ending before the terminator is `Eof`; a byte that is neither
/// a digit nor the terminator, or no digit at all, is `Syntax`; a number
/// outside the 64-bit signed range is `ExpectedNumber`.
pub open spec fn lex_number(data: Seq<u8>, pos: int, terminator: u8) -> Result<(i64, int), Error> {
    if pos < 0 || pos >= data.len() {
        Err(Error::Eof)
    } else {
        let negative = data[pos] == MINUS;
        let start = if negative {
            pos + 1
        } else {
            pos
        };
        let end = token_end(data, start, terminator);
        let magnitude = digits_value(data, start, end);
        let value = if negative {
            -magnitude
        } else {
            magnitude as int
        };
        if start >= data.len() {
            Err(Error::Eof)
        } else if end == start {
            Err(Error::Syntax)
        } else if end >= data.len() {
            Err(Error::Eof)
        } else if data[end] != terminator {
            Err(Error::Syntax)
        } else if value < i64::MIN || value > i64::MAX {
            Err(Error::ExpectedNumber)
        } else {
            Ok((value as i64, end))
        }
    }
}

/// The one byte `byte` at `pos`, which opens or closes a token.
/// Another byte in its place is `otherwise`; none at all is `Eof`.
pub open spec fn parse_byte(data: Seq<u8>, pos: int, byte: u8, otherwise: Error) -> Result<
    int,
    Error,
> {
    if pos < 0 || pos >= data.len() {
        Err(Error::Eof)
    } else if data[pos] != byte {
        Err(otherwise)
    } else {
        Ok(pos + 1)
    }
}

/// An integer token at `pos`: `i`, a signed number, `e`.
/// Another byte in place of `i` is `ExpectedNumber`.
pub open spec fn parse_integer(data: Seq<u8>, pos: int) -> Result<(i64, int), Error> {
    match parse_byte(data, pos, INTEGER, Error::ExpectedNumber) {
        Ok(start) => match lex_number(data, start, END) {
            Ok((value, end)) => Ok((value, end + 1)),
            Err(e) => Err(e),
        },
        Err(e) => Err(e),
    }
}

/// An integer token at `pos` whose number lies from `min` to `max`.
/// A number outside is `ExpectedNumber`.
pub open spec fn parse_integer_within(data: Seq<u8>, pos: int, min: int, max: int) -> Result<
    (int, int),
    Error,
> {
    match parse_integer(data, pos) {
        Ok((value, end)) => {
            if min <= value <= max {
                Ok((value as int, end))
            } else {
                Err(Error::ExpectedNumber)
            }
        },
        Err(e) => Err(e),
    }
}

/// A byte string token at `pos`: a length, `:`, and that many bytes.
/// A first byte that is no digit is `ExpectedString`: a length has no
/// sign. Fewer bytes than announced is `Eof`.
pub open spec fn parse_bytes(data: Seq<u8>, pos: int) -> Result<(Seq<u8>, int), Error> {
    if pos < 0 || pos >= data.len() {
        Err(Error::Eof)
    } else if !is_digit(data[pos]) {
        Err(Error::ExpectedString)
    } else {
        match lex_number(data, pos, COLON) {
            Ok((len, colon)) => {
                if colon + 1 + len > data.len() {
                    Err(Error::Eof)
                } else {
                    Ok((data.subrange(colon + 1, colon + 1 + len), colon + 1 + len))
                }
            },
            Err(e) => Err(e),
        }
    }
}

/// A byte string token at `pos`, read as text.
/// Bytes that are no valid UTF-8 are `InvalidString`.
pub open spec fn parse_text(data: Seq<u8>, pos: int) -> Result<(Seq<char>, int), Error> {
    match parse_bytes(data, pos) {
        Ok((bytes, end)) => {
            if valid_utf8(bytes) {
                Ok((decode_utf8(bytes), end))
            } else {
                Err(Error::InvalidString)
            }
        },
        Err(e) => Err(e),
    }
}

/// The kinds of token, each told by the byte that it starts with.
#[derive(Debug, Clone, Copy, PartialEq, Eq)]
pub enum TokenKind {
    /// A byte string: it starts with a digit.
    ByteString,
    /// An integer: it starts with `i`.
    Integer,
    /// A list: it starts with `l`.
    List,
    /// A dictionary: it starts with `d`.
    Dictionary,
}

/// The kind of token that starts with `byte`, where one does.
pub open spec fn kind_of(byte: u8) -> Option<TokenKind> {
    if is_digit(byte) {
        Some(TokenKind::ByteString)
    } else if byte == INTEGER {
        Some(TokenKind::Integer)
    } else if byte == LIST {
        Some(TokenKind::List)
    } else if byte == DICTIONARY {
        Some(TokenKind::Dictionary)
    } else {
        None
    }
}

/// The place `next` lies behind `pos` and within an input of `len` bytes.
///
/// The functions that parse one token after another ask this of every
/// token's end before they go on from there, which makes them well
/// founded. It always holds: no token is empty, and none ends behind the
/// input.
pub open spec fn advances(pos: int, next: int, len: nat) -> bool {
    pos < next <= len
}

/// What was parsed so far, then what parsing the rest gives: the whole,
/// where the rest is no failure.
pub open spec fn prepend<A>(done: Seq<A>, rest: Result<(Seq<A>, int), Error>) -> Result<
    (Seq<A>, int),
    Error,
> {
    match rest {
        Ok((more, end)) => Ok((done + more, end)),
        Err(e) => Err(e),
    }
}

/// The token at `pos`, whatever its kind, told by its first byte: a digit
/// opens a byte string, which becomes text where it is valid UTF-8 and raw
/// bytes where it is not; `i` an integer; `l` a list; `d` a dictionary.
/// Any other byte is `Syntax`.
///
/// A dictionary's entries are bound in the order in which they stand, so
/// their order in the input does not matter and a later entry replaces an
/// earlier one with the same key.
pub open spec fn parse_value(data: Seq<u8>, pos: int) -> Result<(Document, int), Error>
    decreases data.len() - pos, 0int,
{
    if pos < 0 || pos >= data.len() {
        Err(Error::Eof)
    } else {
        match kind_of(data[pos]) {
            Some(TokenKind::ByteString) => match parse_bytes(data, pos) {
                Ok((bytes, end)) => {
                    if valid_utf8(bytes) {
                        Ok((Document::Text(decode_utf8(bytes)), end))
                    } else {
                        Ok((Document::Bytes(bytes), end))
                    }
                },
                Err(e) => Err(e),
            },
            Some(TokenKind::Integer) => match parse_integer(data, pos) {
                Ok((value, end)) => Ok((Document::Number(value), end)),
                Err(e) => Err(e),
            },
            Some(TokenKind::List) => match parse_items(data, pos + 1) {
                Ok((items, end)) => Ok((Document::List(items), end)),
                Err(e) => Err(e),
            },
            Some(TokenKind::Dictionary) => match parse_entries(data, pos + 1) {
                Ok((pairs, end)) => Ok((Document::Dictionary(dict_from(pairs)), end)),
                Err(e) => Err(e),
            },
            None => Err(Error::Syntax),
        }
    }
}

/// Whether the list or dictionary that is being read ends at `pos`: an
/// `e` stands there. The input ending there, where the `e` or one more item
/// is due, is `ExpectedEnd`: the list or dictionary is not closed.
pub open spec fn closes_at(data: Seq<u8>, pos: int) -> Result<bool, Error> {
    if pos < 0 || pos >= data.len() {
        Err(Error::ExpectedEnd)
    } else {
        Ok(data[pos] == END)
    }
}

/// The `e` at `pos` that closes a list or a dictionary. Anything else in
/// its place, another byte or the end of the input, is `ExpectedEnd`.
pub open spec fn parse_end(data: Seq<u8>, pos: int) -> Result<int, Error> {
    if closes_at(data, pos) == Ok::<bool, Error>(true) {
        Ok(pos + 1)
    } else {
        Err(Error::ExpectedEnd)
    }
}

/// The items of a list from `pos` on, up to and with the `e` that ends the
/// list.
///
/// The input ending where that `e` or one more item is due is
/// `ExpectedEnd`. The input ending inside an item is the item's own
/// failure: `Eof` for a number or a byte string that is cut short.
pub open spec fn parse_items(data: Seq<u8>, pos: int) -> Result<(Seq<Document>, int), Error>
    decreases data.len() - pos, 1int,
{
    match closes_at(data, pos) {
        Err(e) => Err(e),
        Ok(true) => Ok((Seq::empty(), pos + 1)),
        Ok(false) => match parse_value(data, pos) {
            Ok((first, next)) => {
                if advances(pos, next, data.len()) {
                    match parse_items(data, next) {
                        Ok((rest, end)) => Ok((seq![first] + rest, end)),
                        Err(e) => Err(e),
                    }
                } else {
                    Err(Error::Eof)
                }
            },
            Err(e) => Err(e),
        },
    }
}

/// The entries of a dictionary from `pos` on, in the order in which they
/// stand, up to and with the `e` that ends the dictionary. Each key is a
/// byte string token that holds valid text.
///
/// The input ending where that `e` or one more entry is due is
/// `ExpectedEnd`. The input ending behind a key, where its value is due, is
/// `Eof`, as it is inside a key or a value that is cut short.
pub open spec fn parse_entries(data: Seq<u8>, pos: int) -> Result<
    (Seq<(Seq<char>, Document)>, int),
    Error,
>
    decreases data.len() - pos, 1int,
{
    match closes_at(data, pos) {
        Err(e) => Err(e),
        Ok(true) => Ok((Seq::empty(), pos + 1)),
        Ok(false) => match parse_text(data, pos) {
            Ok((key, middle)) => {
                if advances(pos, middle, data.len()) {
                    match parse_value(data, middle) {
                        Ok((value, next)) => {
                            if advances(middle, next, data.len()) {
                                match parse_entries(data, next) {
                                    Ok((rest, end)) => Ok((seq![(key, value)] + rest, end)),
                                    Err(e) => Err(e),
                                }
                            } else {
                                Err(Error::Eof)
                            }
                        },
                        Err(e) => Err(e),
                    }
                } else {
                    Err(Error::Eof)
                }
            },
            Err(e) => Err(e),
        },
    }
}

/// The document that `data` starts with. Bytes behind its first token are
/// not looked at.
pub open spec fn decode(data: Seq<u8>) -> Result<Document, Error> {
    match parse_value(data, 0) {
        Ok((doc, _)) => Ok(doc),
        Err(e) => Err(e),
    }
}

} // verus!
