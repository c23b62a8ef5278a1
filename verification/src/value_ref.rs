//! The borrowing value: any decoded document, with its byte strings and
//! its text lent by the input buffer.

use crate::de::Deserializer;
use crate::dictionary::{
    dict_from, entries_of, lemma_insert_map_values, map_values, Dictionary,
};
use crate::document::{fits_prefix, Document};
use crate::err::Error;
use crate::grammar::{
    advances, decode, encode, encode_entries, encode_items, parse_entries, parse_items,
    parse_value, prepend, TokenKind, DICTIONARY, LIST,
};
use crate::laws::{
    lemma_decode_canonical, lemma_decode_encode, lemma_decode_encode_normalized,
};
use crate::order::key_lt;
use crate::ser::Serializer;
use crate::value::decodes_to;
use vstd::prelude::*;
use vstd::utf8::encode_utf8;

verus! {

/// Any document, with byte strings and text that are parts of the buffer
/// it was decoded from: nothing of them is copied, and the value lives no
/// longer than that buffer. Dictionary keys are owned.
///
/// `String` holds valid text only: a byte string that is no valid UTF-8
/// decodes to `Bytes`, and one that is valid never does.
#[derive(Debug, Eq, Ord)]
pub enum ValueRef<'a> {
    /// A signed integer.
    Number(i64),
    /// A byte string that is valid text.
    String(&'a str),
    /// A byte string kept as raw bytes.
    Bytes(&'a [u8]),
    /// A list of values.
    List(Vec<ValueRef<'a>>),
    /// A dictionary from text to values.
    Dictionary(Dictionary<ValueRef<'a>>),
}

impl<'a> View for ValueRef<'a> {
    type V = Document;

    /// The document that the value stands for.
    open(crate) spec fn view(&self) -> Document
        decreases self, 0int,
    {
        match self {
            ValueRef::Number(n) => Document::Number(*n),
            ValueRef::String(text) => Document::Text(text@),
            ValueRef::Bytes(bytes) => Document::Bytes(bytes@),
            ValueRef::List(items) => Document::List(items_view(items@)),
            ValueRef::Dictionary(dict) => Document::Dictionary(entries_view(dict.entries@)),
        }
    }
}

/// The documents that the values of a list stand for, one by one.
pub closed spec fn items_view(items: Seq<ValueRef>) -> Seq<Document>
    decreases items, 1int,
{
    if items.len() == 0 {
        Seq::empty()
    } else {
        items_view(items.drop_last()).push(items.last()@)
    }
}

/// The entries that the pairs of a dictionary stand for, one by one.
pub closed spec fn entries_view(pairs: Seq<(String, ValueRef)>) -> Seq<
    (Seq<char>, Document),
>
    decreases pairs, 1int,
{
    if pairs.len() == 0 {
        Seq::empty()
    } else {
        entries_view(pairs.drop_last()).push((pairs.last().0@, pairs.last().1@))
    }
}

/// The documents that a list of values stands for.
pub open spec fn documents(items: Seq<ValueRef>) -> Seq<Document> {
    Seq::new(items.len(), |i: int| items[i]@)
}

/// The entries of a dictionary of values, each value as its document.
pub open spec fn entry_documents(entries: Seq<(Seq<char>, ValueRef)>) -> Seq<
    (Seq<char>, Document),
> {
    map_values(entries, |value: ValueRef| value@)
}

proof fn lemma_items_view(items: Seq<ValueRef>)
    ensures
        items_view(items) == documents(items),
    decreases items.len(),
{
    if items.len() > 0 {
        lemma_items_view(items.drop_last());
        assert(documents(items) =~= documents(items.drop_last()).push(items.last()@));
    } else {
        assert(documents(items) =~= Seq::empty());
    }
}

proof fn lemma_entries_view(pairs: Seq<(String, ValueRef)>)
    ensures
        entries_view(pairs) == entry_documents(entries_of(pairs)),
    decreases pairs.len(),
{
    if pairs.len() > 0 {
        lemma_entries_view(pairs.drop_last());
        assert(entry_documents(entries_of(pairs)) =~= entry_documents(
            entries_of(pairs.drop_last()),
        ).push((pairs.last().0@, pairs.last().1@)));
    } else {
        assert(entry_documents(entries_of(pairs)) =~= Seq::empty());
    }
}

/// What the view of a value is, variant by variant.
pub proof fn lemma_view(value: ValueRef)
    ensures
        value@ == match value {
            ValueRef::Number(n) => Document::Number(n),
            ValueRef::String(text) => Document::Text(text@),
            ValueRef::Bytes(bytes) => Document::Bytes(bytes@),
            ValueRef::List(items) => Document::List(documents(items@)),
            ValueRef::Dictionary(dict) => Document::Dictionary(entry_documents(dict@)),
        },
{
    match value {
        ValueRef::List(items) => {
            lemma_items_view(items@);
        },
        ValueRef::Dictionary(dict) => {
            lemma_entries_view(dict.entries@);
        },
        _ => {},
    }
}

/// Whether a byte string of `len` bytes is short enough for a length prefix.
fn fits(len: usize) -> (r: bool)
    ensures
        r == fits_prefix(len as nat),
{
    len as u64 <= i64::MAX as u64
}

impl<'a> ValueRef<'a> {
    /// Reads one token, whatever its kind, and builds the value that
    /// it stands for. A token that fails gives its error and no part of a
    /// value: a list or a dictionary that the input leaves unclosed is
    /// `ExpectedEnd`, a number or a byte string that is cut short is `Eof`.
    #[verifier::loop_isolation(false)]
    pub fn deserialize(de: &mut Deserializer<'a>) -> (r: Result<ValueRef<'a>, Error>)
        ensures
            final(de).follows(old(de)),
            match parse_value(old(de).data(), old(de).position()) {
                Ok((doc, end)) => r matches Ok(value) && value@ == doc && final(de).position()
                    == end && old(de).position() < end,
                Err(e) => r == Err::<ValueRef, Error>(e),
            },
        decreases old(de).data().len() - old(de).position(),
    {
        let ghost data = de.data();
        let ghost pos = de.position();
        let kind = match de.peek_kind() {
            Ok(kind) => kind,
            Err(e) => {
                return Err(e);
            },
        };
        if matches!(kind, TokenKind::ByteString) {
            let bytes = match de.parse_bytes() {
                Ok(bytes) => bytes,
                Err(e) => {
                    return Err(e);
                },
            };
            match Deserializer::from_utf8(bytes) {
                Ok(text) => Ok(ValueRef::String(text)),
                Err(_) => Ok(ValueRef::Bytes(bytes)),
            }
        } else if matches!(kind, TokenKind::Integer) {
            match de.parse_integer() {
                Ok(number) => Ok(ValueRef::Number(number)),
                Err(e) => Err(e),
            }
        } else if matches!(kind, TokenKind::List) {
            let _ = de.begin_list();
            let mut items: Vec<ValueRef<'a>> = Vec::new();
            assert(prepend(documents(items@), parse_items(data, pos + 1)) == parse_items(
                data,
                pos + 1,
            )) by {
                match parse_items(data, pos + 1) {
                    Ok((more, end)) => {
                        assert(documents(items@) + more =~= more);
                    },
                    Err(e) => {},
                }
            }
            loop
                invariant
                    de.data() == data,
                    pos < de.position() <= data.len(),
                    parse_items(data, pos + 1) == prepend(
                        documents(items@),
                        parse_items(data, de.position()),
                    ),
                decreases data.len() - de.position(),
            {
                match de.at_end() {
                    Ok(true) => {
                        break ;
                    },
                    Ok(false) => {},
                    Err(e) => {
                        return Err(e);
                    },
                }
                let ghost before = de.position();
                let ghost done = documents(items@);
                let item = match ValueRef::deserialize(de) {
                    Ok(item) => item,
                    Err(e) => {
                        return Err(e);
                    },
                };
                items.push(item);
                proof {
                    assert(advances(before, de.position(), data.len()));
                    assert(documents(items@) =~= done.push(item@));
                    match parse_items(data, de.position()) {
                        Ok((more, end)) => {
                            assert(done + (seq![item@] + more) =~= documents(items@) + more);
                        },
                        Err(e) => {},
                    }
                }
            }
            let _ = de.end();
            let value = ValueRef::List(items);
            proof {
                lemma_view(value);
                assert(documents(items@) + Seq::<Document>::empty() =~= documents(items@));
            }
            Ok(value)
        } else {
            let _ = de.begin_dictionary();
            let mut dict: Dictionary<ValueRef<'a>> = Dictionary::new();
            let ghost mut pairs: Seq<(Seq<char>, Document)> = Seq::empty();
            assert(prepend(pairs, parse_entries(data, pos + 1)) == parse_entries(data, pos + 1))
                by {
                match parse_entries(data, pos + 1) {
                    Ok((more, end)) => {
                        assert(pairs + more =~= more);
                    },
                    Err(e) => {},
                }
            }
            assert(entry_documents(dict@) =~= dict_from(pairs));
            loop
                invariant
                    de.data() == data,
                    pos < de.position() <= data.len(),
                    parse_entries(data, pos + 1) == prepend(
                        pairs,
                        parse_entries(data, de.position()),
                    ),
                    entry_documents(dict@) == dict_from(pairs),
                decreases data.len() - de.position(),
            {
                match de.at_end() {
                    Ok(true) => {
                        break ;
                    },
                    Ok(false) => {},
                    Err(e) => {
                        return Err(e);
                    },
                }
                let ghost before = de.position();
                let key = match de.parse_string() {
                    Ok(key) => key,
                    Err(e) => {
                        return Err(e);
                    },
                };
                let ghost middle = de.position();
                let value = match ValueRef::deserialize(de) {
                    Ok(value) => value,
                    Err(e) => {
                        return Err(e);
                    },
                };
                proof {
                    assert(advances(before, middle, data.len()));
                    assert(advances(middle, de.position(), data.len()));
                    lemma_insert_map_values(dict@, key@, value, |value: ValueRef| value@);
                    let entry = (key@, value@);
                    assert(pairs.push(entry).drop_last() =~= pairs);
                    match parse_entries(data, de.position()) {
                        Ok((more, end)) => {
                            assert(pairs + (seq![entry] + more) =~= pairs.push(entry) + more);
                        },
                        Err(e) => {},
                    }
                    pairs = pairs.push(entry);
                }
                dict.insert(key, value);
            }
            let _ = de.end();
            let value = ValueRef::Dictionary(dict);
            proof {
                lemma_view(value);
                assert(pairs + Seq::<(Seq<char>, Document)>::empty() =~= pairs);
            }
            Ok(value)
        }
    }

    /// Whether decoding the value's encoding gives the value back. It does
    /// unless raw bytes in it are valid text, which come back as text, or a
    /// byte string is too long for a length prefix.
    #[verifier::loop_isolation(false)]
    pub fn is_canonical(&self) -> (r: bool)
        ensures
            r == self@.canonical(),
        decreases self,
    {
        proof {
            lemma_view(*self);
        }
        match self {
            ValueRef::Number(_) => true,
            ValueRef::String(text) => fits(text.as_bytes().len()),
            ValueRef::Bytes(bytes) => Deserializer::from_utf8(bytes).is_err() && fits(bytes.len()),
            ValueRef::List(items) => {
                let ghost docs = documents(items@);
                let mut i: usize = 0;
                while i < items.len()
                    invariant
                        i <= items.len(),
                        forall|j: int| 0 <= j < i ==> (#[trigger] docs[j]).canonical(),
                    decreases items.len() - i,
                {
                    if !items[i].is_canonical() {
                        assert(!self@->List_0[i as int].canonical());
                        return false;
                    }
                    i = i + 1;
                }
                true
            },
            ValueRef::Dictionary(dict) => {
                let ghost docs = entry_documents(dict@);
                proof {
                    use_type_invariant(dict);
                    assert forall|a: int, b: int| 0 <= a < b < docs.len() implies key_lt(
                        docs[a].0,
                        docs[b].0,
                    ) by {
                        assert(key_lt(dict@[a].0, dict@[b].0));
                    }
                }
                let mut i: usize = 0;
                while i < dict.entries.len()
                    invariant
                        i <= dict.entries.len(),
                        forall|j: int|
                            0 <= j < i ==> fits_prefix(encode_utf8((#[trigger] docs[j]).0).len())
                                && docs[j].1.canonical(),
                    decreases dict.entries.len() - i,
                {
                    let fine = fits(dict.entries[i].0.as_str().as_bytes().len())
                        && dict.entries[i].1.is_canonical();
                    if !fine {
                        let ghost entry = self@->Dictionary_0[i as int];
                        assert(!(fits_prefix(encode_utf8(entry.0).len()) && entry.1.canonical()));
                        return false;
                    }
                    i = i + 1;
                }
                true
            },
        }
    }

    /// Writes the encoding of the value: its token, with the tokens of
    /// what it holds inside. A dictionary's entries are written in the
    /// ascending order of their keys.
    #[verifier::loop_isolation(false)]
    pub fn serialize(&self, ser: &mut Serializer) -> (r: Result<(), Error>)
        ensures
            r is Ok,
            final(ser)@ == old(ser)@ + encode(self@),
        decreases self,
    {
        proof {
            lemma_view(*self);
        }
        match self {
            ValueRef::Number(n) => {
                ser.ser_number(*n);
            },
            ValueRef::String(text) => {
                ser.ser_string(text);
            },
            ValueRef::Bytes(bytes) => {
                ser.ser_bytes(bytes);
            },
            ValueRef::List(items) => {
                ser.begin_list();
                let ghost docs = documents(items@);
                let mut i: usize = 0;
                assert(docs.take(0) =~= Seq::empty());
                while i < items.len()
                    invariant
                        i <= items.len(),
                        ser@ == old(ser)@.push(LIST) + encode_items(docs.take(i as int)),
                    decreases items.len() - i,
                {
                    let _ = items[i].serialize(ser);
                    proof {
                        assert(docs.take(i + 1).drop_last() =~= docs.take(i as int));
                        assert(ser@ =~= old(ser)@.push(LIST) + encode_items(docs.take(i + 1)));
                    }
                    i = i + 1;
                }
                ser.end();
                proof {
                    assert(docs.take(i as int) =~= docs);
                    assert(ser@ =~= old(ser)@ + encode(self@));
                }
            },
            ValueRef::Dictionary(dict) => {
                ser.begin_dictionary();
                let ghost docs = entry_documents(dict@);
                let mut i: usize = 0;
                assert(docs.take(0) =~= Seq::empty());
                while i < dict.entries.len()
                    invariant
                        i <= dict.entries.len(),
                        ser@ == old(ser)@.push(DICTIONARY) + encode_entries(docs.take(i as int)),
                    decreases dict.entries.len() - i,
                {
                    ser.ser_string(dict.entries[i].0.as_str());
                    let _ = dict.entries[i].1.serialize(ser);
                    proof {
                        assert(docs.take(i + 1).drop_last() =~= docs.take(i as int));
                        assert(ser@ =~= old(ser)@.push(DICTIONARY) + encode_entries(
                            docs.take(i + 1),
                        ));
                    }
                    i = i + 1;
                }
                ser.end();
                proof {
                    assert(docs.take(i as int) =~= docs);
                    assert(ser@ =~= old(ser)@ + encode(self@));
                }
            },
        }
        Ok(())
    }
}

/// Decodes the document that `data` starts with into a value that borrows
/// from `data`. Bytes behind the first token are not looked at. What comes
/// back is canonical: encoding it and decoding that again gives the same
/// value.
pub fn from_binary_ref<'a>(data: &'a [u8]) -> (r: Result<ValueRef<'a>, Error>)
    ensures
        match decode(data@) {
            Ok(doc) => r matches Ok(value) && value@ == doc && doc.canonical(),
            Err(e) => r == Err::<ValueRef, Error>(e),
        },
{
    proof {
        lemma_decode_canonical(data@);
    }
    let mut deserializer = Deserializer::new(data);
    ValueRef::deserialize(&mut deserializer)
}

/// Encodes `value`. Every value has an encoding, so this never fails. The
/// encoding of a canonical value decodes to that value; that of any other
/// decodes to the value with its raw bytes that are valid text as text.
pub fn to_binary_ref(value: &ValueRef<'_>) -> (r: Result<Vec<u8>, Error>)
    ensures
        r matches Ok(bytes) && bytes@ == encode(value@),
        value@.canonical() ==> decodes_to(r, value@),
        value@.well_formed() ==> decodes_to(r, value@.normalized()),
{
    proof {
        if value@.canonical() {
            lemma_decode_encode(value@);
        }
        if value@.well_formed() {
            lemma_decode_encode_normalized(value@);
        }
    }
    let mut serializer = Serializer::new();
    let _ = value.serialize(&mut serializer);
    let bytes = serializer.into_bytes();
    assert(bytes@ =~= encode(value@));
    Ok(bytes)
}

} // verus!
