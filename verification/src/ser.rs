//! The encoder: an output buffer with the routines that write tokens.

use crate::dictionary::{dict_insert, keys_ascending, Dictionary};
use crate::document::Document;
use crate::err::Error;
use crate::grammar::{
    digit, digits, encode, encode_bytes, encode_entries, encode_number, encode_text, COLON,
    DICTIONARY, END, INTEGER, LIST, MINUS, ZERO,
};
use vstd::prelude::*;
use vstd::utf8::encode_utf8;

verus! {

/// The entries of a dictionary whose values are encoded already, one after
/// another: each key as a byte string token, then the bytes it is bound to.
pub open spec fn encode_raw_entries(entries: Seq<(Seq<char>, Vec<u8>)>) -> Seq<u8>
    decreases entries.len(),
{
    if entries.len() == 0 {
        Seq::empty()
    } else {
        encode_raw_entries(entries.drop_last()) + encode_text(entries.last().0)
            + entries.last().1@
    }
}

/// Entries whose values are the encodings of documents are written as the
/// entries of those documents are.
pub proof fn lemma_encode_raw_entries(
    raw: Seq<(Seq<char>, Vec<u8>)>,
    entries: Seq<(Seq<char>, Document)>,
)
    requires
        raw.len() == entries.len(),
        forall|i: int|
            0 <= i < raw.len() ==> (#[trigger] raw[i]).0 == entries[i].0 && raw[i].1@ == encode(
                entries[i].1,
            ),
    ensures
        encode_raw_entries(raw) == encode_entries(entries),
    decreases raw.len(),
{
    if raw.len() > 0 {
        let front = raw.drop_last();
        assert forall|i: int| 0 <= i < front.len() implies (#[trigger] front[i]).0
            == entries.drop_last()[i].0 && front[i].1@ == encode(entries.drop_last()[i].1) by {
            assert(front[i] == raw[i]);
        }
        lemma_encode_raw_entries(front, entries.drop_last());
        assert(raw[raw.len() - 1].0 == entries.last().0);
    }
}

/// Puts a field and the encoding of its value among the entries of a
/// dictionary that is being written. An empty encoding is that of an absent
/// optional value: such a field is left out, key and all.
pub fn put_field(entries: &mut Dictionary<Vec<u8>>, key: String, encoded: Vec<u8>)
    ensures
        encoded@.len() == 0 ==> final(entries)@ == old(entries)@,
        encoded@.len() > 0 ==> final(entries)@ == dict_insert(old(entries)@, key@, encoded),
{
    if encoded.len() > 0 {
        entries.insert(key, encoded);
    }
}

/// Collects the bytes of an encoding. Every write appends; nothing that
/// was written changes afterwards.
pub struct Serializer {
    container: Vec<u8>,
}

impl View for Serializer {
    type V = Seq<u8>;

    /// The bytes written so far.
    closed spec fn view(&self) -> Seq<u8> {
        self.container@
    }
}

impl Serializer {
    /// An encoder that has written nothing.
    pub fn new() -> (ser: Self)
        ensures
            ser@ == Seq::<u8>::empty(),
    {
        Self { container: Vec::new() }
    }

    /// Ends the encoding and hands out the bytes written.
    pub fn into_bytes(self) -> (bytes: Vec<u8>)
        ensures
            bytes@ == self@,
    {
        self.container
    }

    /// Writes one byte.
    fn push_byte(&mut self, byte: u8)
        ensures
            final(self)@ == old(self)@.push(byte),
    {
        self.container.push(byte);
    }

    /// Writes `bytes` as they are.
    pub fn push_bytes(&mut self, bytes: &[u8])
        ensures
            final(self)@ == old(self)@ + bytes@,
    {
        self.container.extend_from_slice(bytes);
    }

    /// Writes the UTF-8 encoding of `string` as it is.
    pub fn push_str(&mut self, string: String)
        ensures
            final(self)@ == old(self)@ + encode_utf8(string@),
    {
        self.push_bytes(string.as_str().as_bytes())
    }

    /// Writes the decimal digits of `n`.
    fn push_digits(&mut self, n: u64)
        ensures
            final(self)@ == old(self)@ + digits(n as nat),
        decreases n,
    {
        if n >= 10 {
            self.push_digits(n / 10);
        }
        self.push_byte(ZERO + (n % 10) as u8);
        proof {
            if n >= 10 {
                assert(self@ =~= old(self)@ + digits(n as nat / 10).push(digit(n as int % 10)));
            } else {
                assert(self@ =~= old(self)@ + seq![digit(n as int)]);
            }
        }
    }

    /// Writes an integer token: `i`, the decimal notation of `number` with
    /// a `-` in front where it is negative, `e`.
    pub fn ser_number(&mut self, number: i64)
        ensures
            final(self)@ == old(self)@ + encode_number(number as int),
    {
        self.push_byte(INTEGER);
        if number < 0 {
            self.push_byte(MINUS);
            let magnitude: u64 = if number == i64::MIN {
                0x8000_0000_0000_0000
            } else {
                (-number) as u64
            };
            self.push_digits(magnitude);
        } else {
            self.push_digits(number as u64);
        }
        self.push_byte(END);
        proof {
            assert(self@ =~= old(self)@ + encode_number(number as int));
        }
    }

    /// Writes a byte string token: the decimal length, `:`, then the bytes
    /// as they are.
    pub fn ser_bytes(&mut self, bytes: &[u8])
        ensures
            final(self)@ == old(self)@ + encode_bytes(bytes@),
    {
        self.push_digits(bytes.len() as u64);
        self.push_byte(COLON);
        self.push_bytes(bytes);
        proof {
            assert(self@ =~= old(self)@ + encode_bytes(bytes@));
        }
    }

    /// Writes text as a byte string token of its UTF-8 encoding.
    pub fn ser_string(&mut self, string: &str)
        ensures
            final(self)@ == old(self)@ + encode_text(string@),
    {
        self.ser_bytes(string.as_bytes())
    }

    /// Opens a list: writes `l`.
    pub fn begin_list(&mut self)
        ensures
            final(self)@ == old(self)@.push(LIST),
    {
        self.push_byte(LIST);
    }

    /// Opens a dictionary: writes `d`.
    pub fn begin_dictionary(&mut self)
        ensures
            final(self)@ == old(self)@.push(DICTIONARY),
    {
        self.push_byte(DICTIONARY);
    }

    /// Closes a list or a dictionary: writes `e`.
    pub fn end(&mut self)
        ensures
            final(self)@ == old(self)@.push(END),
    {
        self.push_byte(END);
    }

    /// A boolean has no token: `TypeNotSupported`, and nothing is written.
    pub fn serialize_bool(&mut self, v: bool) -> (r: Result<(), Error>)
        ensures
            r == Err::<(), Error>(Error::TypeNotSupported),
            final(self)@ == old(self)@,
    {
        Err(Error::TypeNotSupported)
    }

    /// Writes an `i8` as an integer token.
    pub fn serialize_i8(&mut self, v: i8) -> (r: Result<(), Error>)
        ensures
            r is Ok,
            final(self)@ == old(self)@ + encode_number(v as int),
    {
        self.ser_number(v as i64);
        Ok(())
    }

    /// Writes an `i16` as an integer token.
    pub fn serialize_i16(&mut self, v: i16) -> (r: Result<(), Error>)
        ensures
            r is Ok,
            final(self)@ == old(self)@ + encode_number(v as int),
    {
        self.ser_number(v as i64);
        Ok(())
    }

    /// Writes an `i32` as an integer token.
    pub fn serialize_i32(&mut self, v: i32) -> (r: Result<(), Error>)
        ensures
            r is Ok,
            final(self)@ == old(self)@ + encode_number(v as int),
    {
        self.ser_number(v as i64);
        Ok(())
    }

    /// Writes an `i64` as an integer token.
    pub fn serialize_i64(&mut self, v: i64) -> (r: Result<(), Error>)
        ensures
            r is Ok,
            final(self)@ == old(self)@ + encode_number(v as int),
    {
        self.ser_number(v as i64);
        Ok(())
    }

    /// Writes a `u8` as an integer token.
    pub fn serialize_u8(&mut self, v: u8) -> (r: Result<(), Error>)
        ensures
            r is Ok,
            final(self)@ == old(self)@ + encode_number(v as int),
    {
        self.ser_number(v as i64);
        Ok(())
    }

    /// Writes a `u16` as an integer token.
    pub fn serialize_u16(&mut self, v: u16) -> (r: Result<(), Error>)
        ensures
            r is Ok,
            final(self)@ == old(self)@ + encode_number(v as int),
    {
        self.ser_number(v as i64);
        Ok(())
    }

    /// Writes a `u32` as an integer token.
    pub fn serialize_u32(&mut self, v: u32) -> (r: Result<(), Error>)
        ensures
            r is Ok,
            final(self)@ == old(self)@ + encode_number(v as int),
    {
        self.ser_number(v as i64);
        Ok(())
    }

    /// Writes a `u64` as an integer token, where a 64-bit signed number can
    /// hold it. A larger one is `Syntax`, and nothing is written.
    pub fn serialize_u64(&mut self, v: u64) -> (r: Result<(), Error>)
        ensures
            v <= i64::MAX ==> r is Ok && final(self)@ == old(self)@ + encode_number(v as int),
            v > i64::MAX ==> r == Err::<(), Error>(Error::Syntax) && final(self)@ == old(self)@,
    {
        if v > i64::MAX as u64 {
            return Err(Error::Syntax);
        }
        self.ser_number(v as i64);
        Ok(())
    }

    /// A character has no token: `TypeNotSupported`, and nothing is written.
    pub fn serialize_char(&mut self, v: char) -> (r: Result<(), Error>)
        ensures
            r == Err::<(), Error>(Error::TypeNotSupported),
            final(self)@ == old(self)@,
    {
        Err(Error::TypeNotSupported)
    }

    /// Writes text as a byte string token.
    pub fn serialize_str(&mut self, v: &str) -> (r: Result<(), Error>)
        ensures
            r is Ok,
            final(self)@ == old(self)@ + encode_text(v@),
    {
        self.ser_string(v);
        Ok(())
    }

    /// Writes bytes as a byte string token.
    pub fn serialize_bytes(&mut self, v: &[u8]) -> (r: Result<(), Error>)
        ensures
            r is Ok,
            final(self)@ == old(self)@ + encode_bytes(v@),
    {
        self.ser_bytes(v);
        Ok(())
    }

    /// An absent optional value: nothing is written. Inside a dictionary
    /// the field that would hold it is left out; see `put_field`.
    pub fn serialize_none(&mut self) -> (r: Result<(), Error>)
        ensures
            r is Ok,
            final(self)@ == old(self)@,
    {
        Ok(())
    }

    /// The empty value has no token: `TypeNotSupported`, and nothing is
    /// written.
    pub fn serialize_unit(&mut self) -> (r: Result<(), Error>)
        ensures
            r == Err::<(), Error>(Error::TypeNotSupported),
            final(self)@ == old(self)@,
    {
        Err(Error::TypeNotSupported)
    }

    /// Writes a dictionary whose values are encoded already: `d`, the
    /// entries in the ascending order of their keys, `e`.
    pub fn ser_dictionary(&mut self, entries: &Dictionary<Vec<u8>>)
        ensures
            keys_ascending(entries@),
            final(self)@ == old(self)@ + seq![DICTIONARY] + encode_raw_entries(entries@)
                + seq![END],
    {
        self.push_byte(DICTIONARY);
        let count = entries.len();
        let mut i: usize = 0;
        assert(entries@.take(0) =~= Seq::empty());
        while i < count
            invariant
                i <= count == entries@.len(),
                self@ == old(self)@ + seq![DICTIONARY] + encode_raw_entries(
                    entries@.take(i as int),
                ),
            decreases count - i,
        {
            if let Some((key, encoded)) = entries.entry(i) {
                self.ser_string(key);
                self.push_bytes(encoded.as_slice());
                proof {
                    assert(entries@.take(i + 1).drop_last() =~= entries@.take(i as int));
                    assert(self@ =~= old(self)@ + seq![DICTIONARY] + encode_raw_entries(
                        entries@.take(i + 1),
                    ));
                }
            }
            i = i + 1;
        }
        proof {
            assert(entries@.take(i as int) =~= entries@);
        }
        self.push_byte(END);
    }
}

} // verus!
