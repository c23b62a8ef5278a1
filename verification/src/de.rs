//! The decoder: a read head with the routines that recognise tokens.

use crate::err::Error;
use crate::grammar::{
    closes_at, digits_value, is_digit, kind_of, lex_number, parse_byte, parse_bytes, parse_end,
    parse_integer, parse_integer_within, parse_text, token_end, TokenKind, COLON, DICTIONARY,
    END, INTEGER, LIST, MINUS, NINE, ZERO,
};
use crate::stream::read::ReadBinaryStream;
use vstd::prelude::*;
use vstd::slice::slice_to_vec;
use vstd::std_specs::convert::TryFromSpec;
use vstd::string::StringSliceAdditionalSpecFns;
use vstd::utf8::{decode_utf8, valid_utf8};

verus! {

/// The largest magnitude that a 64-bit signed number can have: that of
/// the smallest one.
const LIMIT: u64 = 0x8000_0000_0000_0000;

/// Reads tokens from a byte buffer, front to back, without ever going
/// back. What it hands out as bytes or borrowed text is a part of the
/// buffer itself.
pub struct Deserializer<'de> {
    input: ReadBinaryStream<'de>,
}

/// `std::str::from_utf8`: borrowed text exactly where the bytes are valid
/// UTF-8, and then text whose UTF-8 encoding is those bytes.
#[verifier::external_body]
fn str_from_utf8<'a>(bytes: &'a [u8]) -> (r: Option<&'a str>)
    ensures
        r.is_some() == valid_utf8(bytes@),
        r.is_some() ==> r.unwrap().spec_bytes() == bytes@,
{
    match std::str::from_utf8(bytes) {
        Ok(text) => Some(text),
        Err(_) => None,
    }
}

/// `From<X> for X` of std, the conversion of a value into its own type: it
/// hands the value back as it is. The conversion of an `i64` into an `i64`
/// ends in it, which is how `parse_numeric` reads a number as an `i64`.
pub assume_specification<X>[ <X as core::convert::From<X>>::from ](a: X) -> (ret: X)
    ensures
        ret == a,
;

/// What a conversion gave, with its refusal as `ExpectedNumber`.
pub open spec fn narrowed<T, E>(converted: Result<T, E>) -> Result<T, Error> {
    match converted {
        Ok(number) => Ok(number),
        Err(_) => Err(Error::ExpectedNumber),
    }
}

/// The digit that `byte` shows, where it is one.
fn digit_of(byte: u8) -> (r: Option<u8>)
    ensures
        is_digit(byte) ==> r == Some((byte - ZERO) as u8),
        !is_digit(byte) ==> r.is_none(),
{
    if ZERO <= byte && byte <= NINE {
        Some(byte - ZERO)
    } else {
        None
    }
}

impl<'de> Deserializer<'de> {
    /// The whole input, read or not.
    pub closed spec fn data(&self) -> Seq<u8> {
        self.input.data()
    }

    /// The place of the next byte to read.
    pub closed spec fn position(&self) -> int {
        self.input.position() as int
    }

    /// The decoder reads the input that `before` read and stands where
    /// `before` stood or further on, within the input.
    pub open spec fn follows(&self, before: &Self) -> bool {
        &&& self.data() == before.data()
        &&& before.position() <= self.position() <= self.data().len()
    }

    /// A decoder at the start of `data`.
    pub fn new(data: &'de [u8]) -> (de: Self)
        ensures
            de.data() == data@,
            de.position() == 0,
    {
        Self { input: ReadBinaryStream::new(data) }
    }

    /// The next byte, which is not consumed. `Eof` at the end of the input.
    pub fn peek(&self) -> (r: Result<u8, Error>)
        ensures
            0 <= self.position() <= self.data().len(),
            self.position() < self.data().len() ==> r == Ok::<u8, Error>(
                self.data()[self.position()],
            ),
            self.position() >= self.data().len() ==> r == Err::<u8, Error>(Error::Eof),
    {
        self.input.try_peek()
    }

    /// The kind of the next token, told by its first byte, which is not
    /// consumed. A byte that starts no token is `Syntax`.
    pub fn peek_kind(&self) -> (r: Result<TokenKind, Error>)
        ensures
            0 <= self.position() <= self.data().len(),
            match r {
                Ok(kind) => self.position() < self.data().len() && kind_of(
                    self.data()[self.position()],
                ) == Some(kind),
                Err(e) => if self.position() >= self.data().len() {
                    e == Error::Eof
                } else {
                    kind_of(self.data()[self.position()]).is_none() && e == Error::Syntax
                },
            },
    {
        let byte = match self.input.try_peek() {
            Ok(byte) => byte,
            Err(e) => {
                return Err(e);
            },
        };
        if ZERO <= byte && byte <= NINE {
            Ok(TokenKind::ByteString)
        } else if byte == INTEGER {
            Ok(TokenKind::Integer)
        } else if byte == LIST {
            Ok(TokenKind::List)
        } else if byte == DICTIONARY {
            Ok(TokenKind::Dictionary)
        } else {
            Err(Error::Syntax)
        }
    }

    /// Reads a signed number that runs up to `terminator`: an optional `-`,
    /// then one digit or more. The terminator itself is left for the
    /// caller. A `-` counts by its presence, whatever digits follow.
    #[verifier::loop_isolation(false)]
    pub fn parse_seq_number(&mut self, terminator: u8) -> (r: Result<i64, Error>)
        ensures
            final(self).follows(old(self)),
            match lex_number(old(self).data(), old(self).position(), terminator) {
                Ok((value, end)) => r == Ok::<i64, Error>(value) && final(self).position() == end,
                Err(e) => r == Err::<i64, Error>(e),
            },
    {
        let ghost data = self.data();
        let ghost pos = self.position();
        let first = match self.input.try_next() {
            Ok(byte) => byte,
            Err(_) => {
                return Err(Error::Eof);
            },
        };
        let negative = first == MINUS;
        let ghost start = if negative {
            pos + 1
        } else {
            pos
        };
        let lead = if negative {
            match self.input.try_next() {
                Ok(byte) => byte,
                Err(_) => {
                    return Err(Error::Eof);
                },
            }
        } else {
            first
        };
        if lead == terminator {
            return Err(Error::Syntax);
        }
        let mut magnitude: u64 = match digit_of(lead) {
            Some(d) => d as u64,
            None => {
                return Err(Error::Syntax);
            },
        };
        let mut overflow = false;
        assert(digits_value(data, start, start + 1) == magnitude) by {
            assert(digits_value(data, start, start) == 0);
        }
        assert(token_end(data, start, terminator) == token_end(data, start + 1, terminator));
        loop
            invariant
                self.data() == data,
                start < self.position() <= data.len(),
                token_end(data, start, terminator) == token_end(
                    data,
                    self.position(),
                    terminator,
                ),
                !overflow ==> magnitude == digits_value(data, start, self.position()),
                !overflow ==> magnitude <= LIMIT,
                overflow ==> digits_value(data, start, self.position()) > LIMIT,
            decreases data.len() - self.position(),
        {
            let byte = match self.input.try_peek() {
                Ok(byte) => byte,
                Err(_) => {
                    return Err(Error::Eof);
                },
            };
            if byte == terminator {
                break ;
            }
            let d = match digit_of(byte) {
                Some(d) => d,
                None => {
                    return Err(Error::Syntax);
                },
            };
            let ghost before = self.position();
            let _ = self.input.try_next();
            assert(digits_value(data, start, before + 1) == digits_value(data, start, before) * 10
                + d);
            if overflow || magnitude > LIMIT / 10 {
                overflow = true;
            } else {
                magnitude = magnitude * 10 + d as u64;
                if magnitude > LIMIT {
                    overflow = true;
                }
            }
        }
        if overflow {
            Err(Error::ExpectedNumber)
        } else if negative {
            if magnitude == LIMIT {
                Ok(i64::MIN)
            } else {
                Ok(-(magnitude as i64))
            }
        } else if magnitude == LIMIT {
            Err(Error::ExpectedNumber)
        } else {
            Ok(magnitude as i64)
        }
    }

    /// Consumes the next byte, which has to be `byte`: `otherwise` where it
    /// is another one, `Eof` where the input has ended.
    fn expect(&mut self, byte: u8, otherwise: Error) -> (r: Result<(), Error>)
        ensures
            final(self).follows(old(self)),
            match parse_byte(old(self).data(), old(self).position(), byte, otherwise) {
                Ok(end) => r is Ok && final(self).position() == end,
                Err(e) => r == Err::<(), Error>(e),
            },
    {
        match self.input.try_next() {
            Ok(found) => {
                if found == byte {
                    Ok(())
                } else {
                    Err(otherwise)
                }
            },
            Err(_) => Err(Error::Eof),
        }
    }

    /// Reads an integer token: `i`, a signed number, `e`.
    pub fn parse_integer(&mut self) -> (r: Result<i64, Error>)
        ensures
            final(self).follows(old(self)),
            match parse_integer(old(self).data(), old(self).position()) {
                Ok((value, end)) => r == Ok::<i64, Error>(value) && final(self).position() == end
                    && old(self).position() < end,
                Err(e) => r == Err::<i64, Error>(e),
            },
    {
        match self.expect(INTEGER, Error::ExpectedNumber) {
            Ok(_) => {},
            Err(e) => {
                return Err(e);
            },
        }
        let value = match self.parse_seq_number(END) {
            Ok(value) => value,
            Err(e) => {
                return Err(e);
            },
        };
        let _ = self.input.try_next();
        Ok(value)
    }

    /// Reads an integer token into a type that numbers convert into, by the
    /// conversion that the type has from `i64`. A number that the
    /// conversion refuses, as too large or too small, is `ExpectedNumber`.
    pub fn parse_numeric<T: TryFrom<i64>>(&mut self) -> (r: Result<T, Error>)
        ensures
            final(self).follows(old(self)),
            match parse_integer(old(self).data(), old(self).position()) {
                Ok((value, end)) => final(self).position() == end && exists|
                    converted: Result<T, <T as TryFrom<i64>>::Error>,
                |
                    #[trigger] call_ensures(T::try_from, (value,), converted) && r == narrowed(
                        converted,
                    ),
                Err(e) => r == Err::<T, Error>(e),
            },
            T::obeys_try_from_spec() ==> match parse_integer(
                old(self).data(),
                old(self).position(),
            ) {
                Ok((value, end)) => r == narrowed(T::try_from_spec(value)),
                Err(e) => r == Err::<T, Error>(e),
            },
    {
        let value = match self.parse_integer() {
            Ok(value) => value,
            Err(e) => {
                return Err(e);
            },
        };
        let converted = T::try_from(value);
        let ghost witness = converted;
        let r = match converted {
            Ok(number) => Ok(number),
            Err(_) => Err(Error::ExpectedNumber),
        };
        assert(call_ensures(T::try_from, (value,), witness) && r == narrowed(witness));
        r
    }

    /// Reads a byte string token and hands out its bytes, as a part of the
    /// input itself. A token of another kind is `ExpectedString`.
    pub fn parse_bytes(&mut self) -> (r: Result<&'de [u8], Error>)
        ensures
            final(self).follows(old(self)),
            match parse_bytes(old(self).data(), old(self).position()) {
                Ok((bytes, end)) => r matches Ok(run) && run@ == bytes && final(self).position()
                    == end && old(self).position() < end,
                Err(e) => r == Err::<&[u8], Error>(e),
            },
    {
        match self.input.try_peek() {
            Ok(byte) => {
                if digit_of(byte).is_none() {
                    return Err(Error::ExpectedString);
                }
            },
            Err(e) => {
                return Err(e);
            },
        }
        let len = match self.parse_seq_number(COLON) {
            Ok(len) => len,
            Err(e) => {
                return Err(e);
            },
        };
        let _ = self.input.try_next();
        if len as u64 > usize::MAX as u64 {
            return Err(Error::Eof);
        }
        self.input.try_take(len as usize)
    }

    /// Borrowed text for bytes that are valid UTF-8, `InvalidString` for
    /// bytes that are not.
    pub fn from_utf8(bytes: &[u8]) -> (r: Result<&str, Error>)
        ensures
            match r {
                Ok(text) => valid_utf8(bytes@) && text@ == decode_utf8(bytes@),
                Err(e) => !valid_utf8(bytes@) && e == Error::InvalidString,
            },
    {
        match str_from_utf8(bytes) {
            Some(text) => {
                proof {
                    vstd::utf8::encode_utf8_decode_utf8(text@);
                }
                Ok(text)
            },
            None => Err(Error::InvalidString),
        }
    }

    /// Reads a byte string token as borrowed text: a part of the input
    /// itself. Bytes that are no valid UTF-8 cannot be lent out as text:
    /// `BorrowFailure`.
    pub fn parse_str(&mut self) -> (r: Result<&'de str, Error>)
        ensures
            final(self).follows(old(self)),
            match parse_bytes(old(self).data(), old(self).position()) {
                Ok((bytes, end)) => if valid_utf8(bytes) {
                    r matches Ok(text) && text@ == decode_utf8(bytes) && final(self).position()
                        == end && old(self).position() < end
                } else {
                    r == Err::<&str, Error>(Error::BorrowFailure)
                },
                Err(e) => r == Err::<&str, Error>(e),
            },
    {
        let bytes = match self.parse_bytes() {
            Ok(bytes) => bytes,
            Err(e) => {
                return Err(e);
            },
        };
        match Self::from_utf8(bytes) {
            Ok(text) => Ok(text),
            Err(_) => Err(Error::BorrowFailure),
        }
    }

    /// Reads a byte string token as owned text. Bytes that are no valid
    /// UTF-8 are `InvalidString`.
    pub fn parse_string(&mut self) -> (r: Result<String, Error>)
        ensures
            final(self).follows(old(self)),
            match parse_text(old(self).data(), old(self).position()) {
                Ok((text, end)) => r matches Ok(owned) && owned@ == text && final(self).position()
                    == end && old(self).position() < end,
                Err(e) => r == Err::<String, Error>(e),
            },
    {
        let bytes = match self.parse_bytes() {
            Ok(bytes) => bytes,
            Err(e) => {
                return Err(e);
            },
        };
        match Self::from_utf8(bytes) {
            Ok(text) => Ok(text.to_owned()),
            Err(e) => Err(e),
        }
    }

    /// Enters a list: consumes its `l`. Another byte is `ExpectedList`.
    pub fn begin_list(&mut self) -> (r: Result<(), Error>)
        ensures
            final(self).follows(old(self)),
            match parse_byte(old(self).data(), old(self).position(), LIST, Error::ExpectedList) {
                Ok(end) => r is Ok && final(self).position() == end,
                Err(e) => r == Err::<(), Error>(e),
            },
    {
        self.expect(LIST, Error::ExpectedList)
    }

    /// Enters a dictionary: consumes its `d`. Another byte is
    /// `ExpectedDictionary`.
    pub fn begin_dictionary(&mut self) -> (r: Result<(), Error>)
        ensures
            final(self).follows(old(self)),
            match parse_byte(
                old(self).data(),
                old(self).position(),
                DICTIONARY,
                Error::ExpectedDictionary,
            ) {
                Ok(end) => r is Ok && final(self).position() == end,
                Err(e) => r == Err::<(), Error>(e),
            },
    {
        self.expect(DICTIONARY, Error::ExpectedDictionary)
    }

    /// Whether the list or dictionary that is being read ends here: the
    /// next byte is `e`. The input ending here, where that `e` or one more
    /// item is due, is `ExpectedEnd`.
    pub fn at_end(&self) -> (r: Result<bool, Error>)
        ensures
            0 <= self.position() <= self.data().len(),
            r == closes_at(self.data(), self.position()),
    {
        match self.input.try_peek() {
            Ok(byte) => Ok(byte == END),
            Err(_) => Err(Error::ExpectedEnd),
        }
    }

    /// Leaves a list or a dictionary: consumes its `e`. Anything else in
    /// its place is `ExpectedEnd`: another byte, which a reader meets that
    /// stopped before the last item, or the end of the input.
    pub fn end(&mut self) -> (r: Result<(), Error>)
        ensures
            final(self).follows(old(self)),
            match parse_end(old(self).data(), old(self).position()) {
                Ok(end) => r is Ok && final(self).position() == end,
                Err(e) => r == Err::<(), Error>(e),
            },
    {
        match self.expect(END, Error::ExpectedEnd) {
            Ok(_) => Ok(()),
            Err(_) => Err(Error::ExpectedEnd),
        }
    }

    /// A boolean has no token: `TypeNotSupported`, and nothing is read.
    pub fn deserialize_bool(&mut self) -> (r: Result<bool, Error>)
        ensures
            *final(self) == *old(self),
            r == Err::<bool, Error>(Error::TypeNotSupported),
    {
        Err(Error::TypeNotSupported)
    }

    /// A character has no token: `TypeNotSupported`, and nothing is read.
    pub fn deserialize_char(&mut self) -> (r: Result<char, Error>)
        ensures
            *final(self) == *old(self),
            r == Err::<char, Error>(Error::TypeNotSupported),
    {
        Err(Error::TypeNotSupported)
    }

    /// Reads an integer token as an `i8`. A number that does not fit
    /// is `ExpectedNumber`.
    pub fn deserialize_i8(&mut self) -> (r: Result<i8, Error>)
        ensures
            final(self).follows(old(self)),
            match parse_integer_within(
                old(self).data(),
                old(self).position(),
                i8::MIN as int,
                i8::MAX as int,
            ) {
                Ok((value, end)) => r == Ok::<i8, Error>(value as i8) && final(self).position()
                    == end,
                Err(e) => r == Err::<i8, Error>(e),
            },
    {
        self.parse_numeric::<i8>()
    }

    /// Reads an integer token as an `i16`. A number that does not fit
    /// is `ExpectedNumber`.
    pub fn deserialize_i16(&mut self) -> (r: Result<i16, Error>)
        ensures
            final(self).follows(old(self)),
            match parse_integer_within(
                old(self).data(),
                old(self).position(),
                i16::MIN as int,
                i16::MAX as int,
            ) {
                Ok((value, end)) => r == Ok::<i16, Error>(value as i16) && final(self).position()
                    == end,
                Err(e) => r == Err::<i16, Error>(e),
            },
    {
        self.parse_numeric::<i16>()
    }

    /// Reads an integer token as an `i32`. A number that does not fit
    /// is `ExpectedNumber`.
    pub fn deserialize_i32(&mut self) -> (r: Result<i32, Error>)
        ensures
            final(self).follows(old(self)),
            match parse_integer_within(
                old(self).data(),
                old(self).position(),
                i32::MIN as int,
                i32::MAX as int,
            ) {
                Ok((value, end)) => r == Ok::<i32, Error>(value as i32) && final(self).position()
                    == end,
                Err(e) => r == Err::<i32, Error>(e),
            },
    {
        self.parse_numeric::<i32>()
    }

    /// Reads an integer token as an `i64`, which holds every number that a
    /// token can stand for.
    pub fn deserialize_i64(&mut self) -> (r: Result<i64, Error>)
        ensures
            final(self).follows(old(self)),
            match parse_integer(old(self).data(), old(self).position()) {
                Ok((value, end)) => r == Ok::<i64, Error>(value) && final(self).position() == end,
                Err(e) => r == Err::<i64, Error>(e),
            },
    {
        self.parse_numeric::<i64>()
    }

    /// Reads an integer token as a `u8`. A number that does not fit
    /// is `ExpectedNumber`.
    pub fn deserialize_u8(&mut self) -> (r: Result<u8, Error>)
        ensures
            final(self).follows(old(self)),
            match parse_integer_within(
                old(self).data(),
                old(self).position(),
                u8::MIN as int,
                u8::MAX as int,
            ) {
                Ok((value, end)) => r == Ok::<u8, Error>(value as u8) && final(self).position()
                    == end,
                Err(e) => r == Err::<u8, Error>(e),
            },
    {
        self.parse_numeric::<u8>()
    }

    /// Reads an integer token as a `u16`. A number that does not fit
    /// is `ExpectedNumber`.
    pub fn deserialize_u16(&mut self) -> (r: Result<u16, Error>)
        ensures
            final(self).follows(old(self)),
            match parse_integer_within(
                old(self).data(),
                old(self).position(),
                u16::MIN as int,
                u16::MAX as int,
            ) {
                Ok((value, end)) => r == Ok::<u16, Error>(value as u16) && final(self).position()
                    == end,
                Err(e) => r == Err::<u16, Error>(e),
            },
    {
        self.parse_numeric::<u16>()
    }

    /// Reads an integer token as a `u32`. A number that does not fit
    /// is `ExpectedNumber`.
    pub fn deserialize_u32(&mut self) -> (r: Result<u32, Error>)
        ensures
            final(self).follows(old(self)),
            match parse_integer_within(
                old(self).data(),
                old(self).position(),
                u32::MIN as int,
                u32::MAX as int,
            ) {
                Ok((value, end)) => r == Ok::<u32, Error>(value as u32) && final(self).position()
                    == end,
                Err(e) => r == Err::<u32, Error>(e),
            },
    {
        self.parse_numeric::<u32>()
    }

    /// Reads an integer token as a `u64`. A number that does not fit
    /// is `ExpectedNumber`.
    pub fn deserialize_u64(&mut self) -> (r: Result<u64, Error>)
        ensures
            final(self).follows(old(self)),
            match parse_integer_within(
                old(self).data(),
                old(self).position(),
                u64::MIN as int,
                u64::MAX as int,
            ) {
                Ok((value, end)) => r == Ok::<u64, Error>(value as u64) && final(self).position()
                    == end,
                Err(e) => r == Err::<u64, Error>(e),
            },
    {
        self.parse_numeric::<u64>()
    }

    /// Reads a byte string token as borrowed text; see `parse_str`.
    pub fn deserialize_str(&mut self) -> (r: Result<&'de str, Error>)
        ensures
            final(self).follows(old(self)),
            match parse_bytes(old(self).data(), old(self).position()) {
                Ok((bytes, end)) => if valid_utf8(bytes) {
                    r matches Ok(text) && text@ == decode_utf8(bytes) && final(self).position()
                        == end
                } else {
                    r == Err::<&str, Error>(Error::BorrowFailure)
                },
                Err(e) => r == Err::<&str, Error>(e),
            },
    {
        self.parse_str()
    }

    /// Reads a byte string token as owned text; see `parse_string`.
    pub fn deserialize_string(&mut self) -> (r: Result<String, Error>)
        ensures
            final(self).follows(old(self)),
            match parse_text(old(self).data(), old(self).position()) {
                Ok((text, end)) => r matches Ok(owned) && owned@ == text && final(self).position()
                    == end,
                Err(e) => r == Err::<String, Error>(e),
            },
    {
        self.parse_string()
    }

    /// Reads a byte string token as borrowed bytes; see `parse_bytes`.
    pub fn deserialize_bytes(&mut self) -> (r: Result<&'de [u8], Error>)
        ensures
            final(self).follows(old(self)),
            match parse_bytes(old(self).data(), old(self).position()) {
                Ok((bytes, end)) => r matches Ok(run) && run@ == bytes && final(self).position()
                    == end,
                Err(e) => r == Err::<&[u8], Error>(e),
            },
    {
        self.parse_bytes()
    }

    /// Reads a byte string token into a buffer of its own.
    pub fn deserialize_byte_buf(&mut self) -> (r: Result<Vec<u8>, Error>)
        ensures
            final(self).follows(old(self)),
            match parse_bytes(old(self).data(), old(self).position()) {
                Ok((bytes, end)) => r matches Ok(owned) && owned@ == bytes
                    && final(self).position() == end,
                Err(e) => r == Err::<Vec<u8>, Error>(e),
            },
    {
        match self.parse_bytes() {
            Ok(run) => Ok(slice_to_vec(run)),
            Err(e) => Err(e),
        }
    }
}

} // verus!
