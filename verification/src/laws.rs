//! What holds of the wire format as a whole.
//!
//! - Decoding inverts encoding: `lemma_decode_encode`, and for numbers
//!   alone `lemma_decode_encode_number`.
//! - What decodes is canonical, so its own encoding gives it back:
//!   `lemma_decode_canonical`.
//! - The encoding of canonical documents is unique:
//!   `lemma_encode_injective`.
//! - Decoding the encoding of any well-formed document gives its canonical
//!   form, which is encoded as the document is:
//!   `lemma_decode_encode_normalized`.
//!
//! The rest of the module leads up to these.

use crate::dictionary::{
    dict_from, dict_insert, keys_ascending, lemma_dict_from_all, lemma_dict_from_keys_ascending,
};
use crate::document::{fits_prefix, normalized_entries, normalized_items, Document};
use crate::err::Error;
use crate::grammar::{
    advances, decimal, decode, digit, digits, digits_value, encode, encode_bytes, encode_entries,
    encode_items, encode_number, encode_text, is_digit, lex_number, parse_bytes, parse_entries,
    parse_integer, parse_items, parse_text, parse_value, token_end, COLON, DICTIONARY, END,
    INTEGER, LIST, MINUS,
};
use crate::order::key_lt;
use vstd::prelude::*;
use vstd::utf8::{encode_utf8, valid_utf8};

verus! {

/// The bytes of `data` from `pos` on start with `token`.
pub open spec fn holds_at(data: Seq<u8>, pos: int, token: Seq<u8>) -> bool {
    &&& 0 <= pos
    &&& pos + token.len() <= data.len()
    &&& data.subrange(pos, pos + token.len()) == token
}

/// Where `data` holds `a` followed by `b`, it holds `a`, and `b` behind it.
proof fn lemma_holds_at_split(data: Seq<u8>, pos: int, a: Seq<u8>, b: Seq<u8>)
    requires
        holds_at(data, pos, a + b),
    ensures
        holds_at(data, pos, a),
        holds_at(data, pos + a.len(), b),
{
    let whole = data.subrange(pos, pos + (a + b).len());
    assert forall|i: int| 0 <= i < a.len() implies data[pos + i] == a[i] by {
        assert(whole[i] == (a + b)[i]);
    }
    assert forall|i: int| 0 <= i < b.len() implies data[pos + a.len() + i] == b[i] by {
        assert(whole[a.len() + i] == (a + b)[a.len() + i]);
    }
    assert(data.subrange(pos, pos + a.len()) =~= a);
    assert(data.subrange(pos + a.len(), pos + a.len() + b.len()) =~= b);
}

/// Where `data` holds `token`, each byte of `token` stands in its place.
proof fn lemma_holds_at_index(data: Seq<u8>, pos: int, token: Seq<u8>, i: int)
    requires
        holds_at(data, pos, token),
        0 <= i < token.len(),
    ensures
        data[pos + i] == token[i],
{
    assert(data.subrange(pos, pos + token.len())[i] == token[i]);
}

/// The decimal digits of a number are digits, and there is at least one.
pub proof fn lemma_digits_are_digits(n: nat)
    ensures
        digits(n).len() >= 1,
        forall|i: int| 0 <= i < digits(n).len() ==> is_digit(#[trigger] digits(n)[i]),
    decreases n,
{
    if n >= 10 {
        lemma_digits_are_digits(n / 10);
    }
}

/// A run of digits that ends before `end` is a token that ends there.
proof fn lemma_token_end(data: Seq<u8>, pos: int, end: int, terminator: u8)
    requires
        0 <= pos <= end <= data.len(),
        forall|i: int| pos <= i < end ==> is_digit(#[trigger] data[i]) && data[i] != terminator,
        end == data.len() || !is_digit(data[end]) || data[end] == terminator,
    ensures
        token_end(data, pos, terminator) == end,
    decreases end - pos,
{
    if pos < end {
        lemma_token_end(data, pos + 1, end, terminator);
    }
}

/// The digits of `n`, read as a number, give `n`.
proof fn lemma_digits_value(n: nat, data: Seq<u8>, pos: int)
    requires
        holds_at(data, pos, digits(n)),
    ensures
        digits_value(data, pos, pos + digits(n).len()) == n,
    decreases n,
{
    let len = digits(n).len() as int;
    lemma_digits_are_digits(n);
    lemma_holds_at_index(data, pos, digits(n), len - 1);
    if n >= 10 {
        lemma_digits_are_digits(n / 10);
        assert(digits(n) =~= digits(n / 10) + seq![digit(n as int % 10)]);
        lemma_holds_at_split(data, pos, digits(n / 10), seq![digit(n as int % 10)]);
        lemma_digits_value(n / 10, data, pos);
    } else {
        assert(digits_value(data, pos, pos) == 0);
    }
}

/// Lexing the decimal notation of a number, with its terminator behind
/// it, gives the number and the terminator's place.
pub proof fn lemma_lex_decimal(value: i64, data: Seq<u8>, pos: int, terminator: u8)
    requires
        !is_digit(terminator),
        holds_at(data, pos, decimal(value as int) + seq![terminator]),
    ensures
        lex_number(data, pos, terminator) == Ok::<(i64, int), Error>(
            (value, pos + decimal(value as int).len()),
        ),
{
    let text = decimal(value as int);
    lemma_holds_at_split(data, pos, text, seq![terminator]);
    lemma_holds_at_index(data, pos + text.len(), seq![terminator], 0);
    let magnitude: nat = if value < 0 {
        (-value) as nat
    } else {
        value as nat
    };
    lemma_digits_are_digits(magnitude);
    let start = if value < 0 {
        pos + 1
    } else {
        pos
    };
    if value < 0 {
        lemma_holds_at_split(data, pos, seq![MINUS], digits(magnitude));
        lemma_holds_at_index(data, pos, seq![MINUS], 0);
    } else {
        lemma_holds_at_index(data, pos, text, 0);
    }
    assert(holds_at(data, start, digits(magnitude)));
    let end = start + digits(magnitude).len();
    assert forall|i: int| start <= i < end implies is_digit(#[trigger] data[i]) && data[i]
        != terminator by {
        lemma_holds_at_index(data, start, digits(magnitude), i - start);
    }
    lemma_token_end(data, start, end, terminator);
    lemma_digits_value(magnitude, data, start);
}

/// An integer token decodes to the number that it was written for.
pub proof fn lemma_parse_number(value: i64, data: Seq<u8>, pos: int)
    requires
        holds_at(data, pos, encode_number(value as int)),
    ensures
        parse_integer(data, pos) == Ok::<(i64, int), Error>(
            (value, pos + encode_number(value as int).len()),
        ),
{
    let text = decimal(value as int);
    assert(encode_number(value as int) =~= seq![INTEGER] + (text + seq![END]));
    lemma_holds_at_split(data, pos, seq![INTEGER], text + seq![END]);
    lemma_holds_at_index(data, pos, seq![INTEGER], 0);
    lemma_lex_decimal(value, data, pos + 1, END);
}

/// A byte string token decodes to the bytes that it was written for.
pub proof fn lemma_parse_bytes(bytes: Seq<u8>, data: Seq<u8>, pos: int)
    requires
        fits_prefix(bytes.len()),
        holds_at(data, pos, encode_bytes(bytes)),
    ensures
        parse_bytes(data, pos) == Ok::<(Seq<u8>, int), Error>(
            (bytes, pos + encode_bytes(bytes).len()),
        ),
        is_digit(data[pos]),
{
    let prefix = decimal(bytes.len() as int);
    lemma_digits_are_digits(bytes.len());
    assert(encode_bytes(bytes) =~= (prefix + seq![COLON]) + bytes);
    lemma_holds_at_split(data, pos, prefix + seq![COLON], bytes);
    lemma_lex_decimal(bytes.len() as i64, data, pos, COLON);
    lemma_holds_at_index(data, pos, encode_bytes(bytes), 0);
}

/// A byte string token that was written for text decodes to that text.
pub proof fn lemma_parse_text(text: Seq<char>, data: Seq<u8>, pos: int)
    requires
        fits_prefix(encode_utf8(text).len()),
        holds_at(data, pos, encode_text(text)),
    ensures
        parse_text(data, pos) == Ok::<(Seq<char>, int), Error>(
            (text, pos + encode_text(text).len()),
        ),
        is_digit(data[pos]),
{
    lemma_parse_bytes(encode_utf8(text), data, pos);
    vstd::utf8::encode_utf8_valid_utf8(text);
    vstd::utf8::encode_utf8_decode_utf8(text);
}

/// An encoding is not empty, and its first byte tells the kind of the
/// document: it is never the `e` that ends a list.
pub proof fn lemma_encode_first_byte(doc: Document)
    ensures
        encode(doc).len() >= 2,
        match doc {
            Document::Number(_) => encode(doc)[0] == INTEGER,
            Document::Text(_) => is_digit(encode(doc)[0]),
            Document::Bytes(_) => is_digit(encode(doc)[0]),
            Document::List(_) => encode(doc)[0] == LIST,
            Document::Dictionary(_) => encode(doc)[0] == DICTIONARY,
        },
{
    match doc {
        Document::Number(n) => {
            lemma_digits_are_digits(
                if n < 0 {
                    (-n) as nat
                } else {
                    n as nat
                },
            );
        },
        Document::Text(text) => {
            lemma_digits_are_digits(encode_utf8(text).len());
        },
        Document::Bytes(bytes) => {
            lemma_digits_are_digits(bytes.len());
        },
        Document::List(_) => {},
        Document::Dictionary(_) => {},
    }
}

/// The encoding of a list's items is that of the first, then that of the
/// others.
proof fn lemma_encode_items_first(items: Seq<Document>)
    requires
        items.len() > 0,
    ensures
        encode_items(items) == encode(items[0]) + encode_items(items.drop_first()),
    decreases items.len(),
{
    if items.len() == 1 {
        assert(items.drop_last() =~= Seq::empty());
        assert(items.drop_first() =~= Seq::empty());
        assert(encode_items(items) =~= encode(items[0]) + encode_items(items.drop_first()));
    } else {
        lemma_encode_items_first(items.drop_last());
        assert(items.drop_last().drop_first() =~= items.drop_first().drop_last());
        assert(encode_items(items) =~= encode(items[0]) + encode_items(items.drop_first()));
    }
}

/// The encoding of a dictionary's entries is that of the first, then that
/// of the others.
proof fn lemma_encode_entries_first(entries: Seq<(Seq<char>, Document)>)
    requires
        entries.len() > 0,
    ensures
        encode_entries(entries) == encode_text(entries[0].0) + encode(entries[0].1)
            + encode_entries(entries.drop_first()),
    decreases entries.len(),
{
    if entries.len() == 1 {
        assert(entries.drop_last() =~= Seq::empty());
        assert(entries.drop_first() =~= Seq::empty());
        assert(encode_entries(entries) =~= encode_text(entries[0].0) + encode(entries[0].1)
            + encode_entries(entries.drop_first()));
    } else {
        lemma_encode_entries_first(entries.drop_last());
        assert(entries.drop_last().drop_first() =~= entries.drop_first().drop_last());
        assert(encode_entries(entries) =~= encode_text(entries[0].0) + encode(entries[0].1)
            + encode_entries(entries.drop_first()));
    }
}

/// Binding entries whose keys ascend, in their order, changes nothing.
pub proof fn lemma_dict_from_ascending<V>(entries: Seq<(Seq<char>, V)>)
    requires
        keys_ascending(entries),
    ensures
        dict_from(entries) == entries,
    decreases entries.len(),
{
    if entries.len() > 0 {
        let front = entries.drop_last();
        assert forall|i: int, j: int| 0 <= i < j < front.len() implies key_lt(
            front[i].0,
            front[j].0,
        ) by {
            assert(key_lt(entries[i].0, entries[j].0));
        }
        lemma_dict_from_ascending(front);
        if front.len() > 0 {
            assert(key_lt(entries[front.len() - 1].0, entries[entries.len() - 1].0));
        }
        assert(dict_insert(front, entries.last().0, entries.last().1) =~= entries);
    } else {
        assert(dict_from(entries) =~= entries);
    }
}

/// Where the input holds the encoding of a canonical document, parsing
/// gives the document back and stops behind the encoding.
pub proof fn lemma_parse_encoded(doc: Document, data: Seq<u8>, pos: int)
    requires
        doc.canonical(),
        holds_at(data, pos, encode(doc)),
    ensures
        parse_value(data, pos) == Ok::<(Document, int), Error>((doc, pos + encode(doc).len())),
    decreases doc, 0int,
{
    lemma_encode_first_byte(doc);
    lemma_holds_at_index(data, pos, encode(doc), 0);
    match doc {
        Document::Number(n) => {
            lemma_parse_number(n, data, pos);
        },
        Document::Text(text) => {
            lemma_parse_text(text, data, pos);
        },
        Document::Bytes(bytes) => {
            lemma_parse_bytes(bytes, data, pos);
        },
        Document::List(items) => {
            let inner = encode_items(items) + seq![END];
            assert(encode(doc) =~= seq![LIST] + inner);
            lemma_holds_at_split(data, pos, seq![LIST], inner);
            lemma_parse_encoded_items(items, data, pos + 1);
        },
        Document::Dictionary(entries) => {
            let inner = encode_entries(entries) + seq![END];
            assert(encode(doc) =~= seq![DICTIONARY] + inner);
            lemma_holds_at_split(data, pos, seq![DICTIONARY], inner);
            lemma_parse_encoded_entries(entries, data, pos + 1);
            lemma_dict_from_ascending(entries);
        },
    }
}

/// The same for the items of a list, with the `e` that ends it.
proof fn lemma_parse_encoded_items(items: Seq<Document>, data: Seq<u8>, pos: int)
    requires
        forall|i: int| 0 <= i < items.len() ==> (#[trigger] items[i]).canonical(),
        holds_at(data, pos, encode_items(items) + seq![END]),
    ensures
        parse_items(data, pos) == Ok::<(Seq<Document>, int), Error>(
            (items, pos + encode_items(items).len() + 1),
        ),
    decreases items, 1int,
{
    if items.len() == 0 {
        lemma_holds_at_index(data, pos, encode_items(items) + seq![END], 0);
        assert(items =~= Seq::empty());
    } else {
        let first = items[0];
        let others = items.drop_first();
        lemma_encode_items_first(items);
        lemma_encode_first_byte(first);
        assert(encode_items(items) + seq![END] =~= encode(first) + (encode_items(others)
            + seq![END]));
        lemma_holds_at_split(data, pos, encode(first), encode_items(others) + seq![END]);
        lemma_holds_at_index(data, pos, encode(first), 0);
        lemma_parse_encoded(first, data, pos);
        let next = pos + encode(first).len();
        assert(advances(pos, next, data.len()));
        assert forall|i: int| 0 <= i < others.len() implies (#[trigger] others[i]).canonical() by {
            assert(others[i] == items[i + 1]);
        }
        lemma_parse_encoded_items(others, data, next);
        assert(seq![first] + others =~= items);
    }
}

/// The same for the entries of a dictionary, with the `e` that ends it.
proof fn lemma_parse_encoded_entries(
    entries: Seq<(Seq<char>, Document)>,
    data: Seq<u8>,
    pos: int,
)
    requires
        forall|i: int|
            0 <= i < entries.len() ==> fits_prefix(encode_utf8((#[trigger] entries[i]).0).len())
                && entries[i].1.canonical(),
        holds_at(data, pos, encode_entries(entries) + seq![END]),
    ensures
        parse_entries(data, pos) == Ok::<(Seq<(Seq<char>, Document)>, int), Error>(
            (entries, pos + encode_entries(entries).len() + 1),
        ),
    decreases entries, 1int,
{
    if entries.len() == 0 {
        lemma_holds_at_index(data, pos, encode_entries(entries) + seq![END], 0);
        assert(entries =~= Seq::empty());
    } else {
        let key = entries[0].0;
        let value = entries[0].1;
        let others = entries.drop_first();
        lemma_encode_entries_first(entries);
        lemma_encode_first_byte(value);
        lemma_digits_are_digits(encode_utf8(key).len());
        let rest = encode(value) + (encode_entries(others) + seq![END]);
        assert(encode_entries(entries) + seq![END] =~= encode_text(key) + rest);
        lemma_holds_at_split(data, pos, encode_text(key), rest);
        lemma_parse_text(key, data, pos);
        let middle = pos + encode_text(key).len();
        lemma_holds_at_split(data, middle, encode(value), encode_entries(others) + seq![END]);
        lemma_parse_encoded(value, data, middle);
        let next = middle + encode(value).len();
        assert(advances(pos, middle, data.len()));
        assert(advances(middle, next, data.len()));
        assert forall|i: int| 0 <= i < others.len() implies fits_prefix(
            encode_utf8((#[trigger] others[i]).0).len(),
        ) && others[i].1.canonical() by {
            assert(others[i] == entries[i + 1]);
        }
        lemma_parse_encoded_entries(others, data, next);
        assert(seq![(key, value)] + others =~= entries);
    }
}

/// Decoding inverts encoding: the encoding of a canonical document decodes
/// to that document.
pub proof fn lemma_decode_encode(doc: Document)
    requires
        doc.canonical(),
    ensures
        decode(encode(doc)) == Ok::<Document, Error>(doc),
{
    let data = encode(doc);
    assert(data.subrange(0, data.len() as int) =~= data);
    lemma_parse_encoded(doc, data, 0);
}

/// Every 64-bit signed number comes back from its encoding.
pub proof fn lemma_decode_encode_number(n: i64)
    ensures
        decode(encode_number(n as int)) == Ok::<Document, Error>(Document::Number(n)),
{
    lemma_decode_encode(Document::Number(n));
}

/// A token ends at or behind the place where it starts, within the input.
proof fn lemma_token_end_bounds(data: Seq<u8>, pos: int, terminator: u8)
    requires
        0 <= pos <= data.len(),
    ensures
        pos <= token_end(data, pos, terminator) <= data.len(),
    decreases data.len() - pos,
{
    if pos < data.len() && is_digit(data[pos]) && data[pos] != terminator {
        lemma_token_end_bounds(data, pos + 1, terminator);
    }
}

/// A number that was lexed ends behind its first byte, at a place within
/// the input, and is not negative unless a `-` starts it.
pub proof fn lemma_lex_number_bounds(data: Seq<u8>, pos: int, terminator: u8)
    ensures
        lex_number(data, pos, terminator) matches Ok((value, end)) ==> pos < end < data.len()
            && (data[pos] != MINUS ==> value >= 0),
{
    if 0 <= pos < data.len() {
        let start = if data[pos] == MINUS {
            pos + 1
        } else {
            pos
        };
        if start <= data.len() {
            lemma_token_end_bounds(data, start, terminator);
        }
    }
}

/// A byte string that was parsed is short enough for a length prefix, and
/// its token is at least two bytes long.
pub proof fn lemma_parse_bytes_bounds(data: Seq<u8>, pos: int)
    ensures
        parse_bytes(data, pos) matches Ok((bytes, end)) ==> pos + 2 <= end <= data.len()
            && fits_prefix(bytes.len()),
{
    lemma_lex_number_bounds(data, pos, COLON);
}

/// What parsing hands out is canonical, whatever the input was, and its
/// token is at least one byte long and lies within the input.
pub proof fn lemma_parse_canonical(data: Seq<u8>, pos: int)
    ensures
        parse_value(data, pos) matches Ok((doc, end)) ==> doc.canonical() && pos < end
            <= data.len(),
    decreases data.len() - pos, 0int,
{
    if 0 <= pos < data.len() {
        if is_digit(data[pos]) {
            lemma_parse_bytes_bounds(data, pos);
            if let Ok((bytes, end)) = parse_bytes(data, pos) {
                if valid_utf8(bytes) {
                    vstd::utf8::decode_utf8_encode_utf8(bytes);
                }
            }
        } else if data[pos] == INTEGER {
            lemma_lex_number_bounds(data, pos + 1, END);
        } else if data[pos] == LIST {
            lemma_parse_items_canonical(data, pos + 1);
        } else if data[pos] == DICTIONARY {
            lemma_parse_entries_canonical(data, pos + 1);
            if let Ok((pairs, end)) = parse_entries(data, pos + 1) {
                let fine = |entry: (Seq<char>, Document)|
                    fits_prefix(encode_utf8(entry.0).len()) && entry.1.canonical();
                lemma_dict_from_all(pairs, fine);
                lemma_dict_from_keys_ascending(pairs);
                let entries = dict_from(pairs);
                assert forall|i: int| 0 <= i < entries.len() implies fits_prefix(
                    encode_utf8((#[trigger] entries[i]).0).len(),
                ) && entries[i].1.canonical() by {
                    assert(fine(entries[i]));
                }
            }
        }
    }
}

/// The same for the items of a list.
proof fn lemma_parse_items_canonical(data: Seq<u8>, pos: int)
    ensures
        parse_items(data, pos) matches Ok((items, end)) ==> pos < end <= data.len() && forall|
            i: int,
        | 0 <= i < items.len() ==> (#[trigger] items[i]).canonical(),
    decreases data.len() - pos, 1int,
{
    if 0 <= pos < data.len() && data[pos] != END {
        lemma_parse_canonical(data, pos);
        if let Ok((first, next)) = parse_value(data, pos) {
            if advances(pos, next, data.len()) {
                lemma_parse_items_canonical(data, next);
                if let Ok((rest, end)) = parse_items(data, next) {
                    let items = seq![first] + rest;
                    assert forall|i: int| 0 <= i < items.len() implies (
                    #[trigger] items[i]).canonical() by {
                        if i > 0 {
                            assert(items[i] == rest[i - 1]);
                        }
                    }
                }
            }
        }
    }
}

/// The same for the entries of a dictionary, as they stand in the input.
proof fn lemma_parse_entries_canonical(data: Seq<u8>, pos: int)
    ensures
        parse_entries(data, pos) matches Ok((pairs, end)) ==> pos < end <= data.len() && forall|
            i: int,
        |
            0 <= i < pairs.len() ==> fits_prefix(encode_utf8((#[trigger] pairs[i]).0).len())
                && pairs[i].1.canonical(),
    decreases data.len() - pos, 1int,
{
    if 0 <= pos < data.len() && data[pos] != END {
        lemma_parse_bytes_bounds(data, pos);
        if let Ok((key, middle)) = parse_text(data, pos) {
            let bytes = parse_bytes(data, pos)->Ok_0.0;
            vstd::utf8::decode_utf8_encode_utf8(bytes);
            if advances(pos, middle, data.len()) {
                lemma_parse_canonical(data, middle);
                if let Ok((value, next)) = parse_value(data, middle) {
                    if advances(middle, next, data.len()) {
                        lemma_parse_entries_canonical(data, next);
                        if let Ok((rest, end)) = parse_entries(data, next) {
                            let pairs = seq![(key, value)] + rest;
                            assert forall|i: int| 0 <= i < pairs.len() implies fits_prefix(
                                encode_utf8((#[trigger] pairs[i]).0).len(),
                            ) && pairs[i].1.canonical() by {
                                if i > 0 {
                                    assert(pairs[i] == rest[i - 1]);
                                }
                            }
                        }
                    }
                }
            }
        }
    }
}

/// Whatever decodes, decodes to a canonical document: one that its own
/// encoding gives back.
pub proof fn lemma_decode_canonical(data: Seq<u8>)
    ensures
        decode(data) matches Ok(doc) ==> doc.canonical() && decode(encode(doc)) == Ok::<
            Document,
            Error,
        >(doc),
{
    lemma_parse_canonical(data, 0);
    if let Ok(doc) = decode(data) {
        lemma_decode_encode(doc);
    }
}

/// The encoding is canonical: two canonical documents with one encoding
/// are one document.
pub proof fn lemma_encode_injective(a: Document, b: Document)
    requires
        a.canonical(),
        b.canonical(),
        encode(a) == encode(b),
    ensures
        a == b,
{
    lemma_decode_encode(a);
    lemma_decode_encode(b);
}

/// The items of a list as decoding gives them back, one by one.
proof fn lemma_normalized_items(items: Seq<Document>)
    ensures
        normalized_items(items).len() == items.len(),
        forall|i: int|
            0 <= i < items.len() ==> (#[trigger] normalized_items(items)[i])
                == items[i].normalized(),
    decreases items.len(),
{
    if items.len() > 0 {
        lemma_normalized_items(items.drop_last());
    }
}

/// The entries of a dictionary as decoding gives them back, one by one.
proof fn lemma_normalized_entries(entries: Seq<(Seq<char>, Document)>)
    ensures
        normalized_entries(entries).len() == entries.len(),
        forall|i: int|
            0 <= i < entries.len() ==> (#[trigger] normalized_entries(entries)[i]) == (
                entries[i].0,
                entries[i].1.normalized(),
            ),
    decreases entries.len(),
{
    if entries.len() > 0 {
        lemma_normalized_entries(entries.drop_last());
    }
}

/// What decoding gives back for a document is canonical, and is encoded
/// as the document itself is.
pub proof fn lemma_normalized(doc: Document)
    requires
        doc.well_formed(),
    ensures
        doc.normalized().canonical(),
        encode(doc.normalized()) == encode(doc),
    decreases doc, 0int,
{
    match doc {
        Document::Number(_) => {},
        Document::Text(_) => {},
        Document::Bytes(bytes) => {
            if valid_utf8(bytes) {
                vstd::utf8::decode_utf8_encode_utf8(bytes);
            }
        },
        Document::List(items) => {
            lemma_normalized_all_items(items);
        },
        Document::Dictionary(entries) => {
            lemma_normalized_all_entries(entries);
            lemma_normalized_entries(entries);
            let after = normalized_entries(entries);
            assert forall|i: int, j: int| 0 <= i < j < after.len() implies key_lt(
                after[i].0,
                after[j].0,
            ) by {
                assert(key_lt(entries[i].0, entries[j].0));
            }
        },
    }
}

proof fn lemma_normalized_all_items(items: Seq<Document>)
    requires
        forall|i: int| 0 <= i < items.len() ==> (#[trigger] items[i]).well_formed(),
    ensures
        forall|i: int|
            0 <= i < normalized_items(items).len() ==> (#[trigger] normalized_items(
                items,
            )[i]).canonical(),
        encode_items(normalized_items(items)) == encode_items(items),
    decreases items, 1int,
{
    lemma_normalized_items(items);
    if items.len() > 0 {
        let front = items.drop_last();
        assert forall|i: int| 0 <= i < front.len() implies (#[trigger] front[i]).well_formed() by {
            assert(front[i] == items[i]);
        }
        lemma_normalized_all_items(front);
        lemma_normalized(items[items.len() - 1]);
        let after = normalized_items(items);
        assert(after.drop_last() =~= normalized_items(front));
        assert forall|i: int| 0 <= i < after.len() implies (#[trigger] after[i]).canonical() by {
            if i < front.len() {
                assert(after[i] == normalized_items(front)[i]);
            }
        }
    }
}

proof fn lemma_normalized_all_entries(entries: Seq<(Seq<char>, Document)>)
    requires
        forall|i: int|
            0 <= i < entries.len() ==> fits_prefix(encode_utf8((#[trigger] entries[i]).0).len())
                && entries[i].1.well_formed(),
    ensures
        forall|i: int|
            0 <= i < normalized_entries(entries).len() ==> fits_prefix(
                encode_utf8((#[trigger] normalized_entries(entries)[i]).0).len(),
            ) && normalized_entries(entries)[i].1.canonical(),
        encode_entries(normalized_entries(entries)) == encode_entries(entries),
    decreases entries, 1int,
{
    lemma_normalized_entries(entries);
    if entries.len() > 0 {
        let front = entries.drop_last();
        assert forall|i: int| 0 <= i < front.len() implies fits_prefix(
            encode_utf8((#[trigger] front[i]).0).len(),
        ) && front[i].1.well_formed() by {
            assert(front[i] == entries[i]);
        }
        lemma_normalized_all_entries(front);
        let last = entries[entries.len() - 1];
        lemma_normalized(last.1);
        let after = normalized_entries(entries);
        assert(after.drop_last() =~= normalized_entries(front));
        assert forall|i: int| 0 <= i < after.len() implies fits_prefix(
            encode_utf8((#[trigger] after[i]).0).len(),
        ) && after[i].1.canonical() by {
            if i < front.len() {
                assert(after[i] == normalized_entries(front)[i]);
            }
        }
    }
}

/// A canonical document is well formed, and decoding gives it back as it
/// is.
pub proof fn lemma_canonical_normalized(doc: Document)
    requires
        doc.canonical(),
    ensures
        doc.well_formed(),
        doc.normalized() == doc,
    decreases doc,
{
    match doc {
        Document::List(items) => {
            lemma_normalized_items(items);
            assert forall|i: int| 0 <= i < items.len() implies (#[trigger] items[i]).well_formed()
                && items[i].normalized() == items[i] by {
                lemma_canonical_normalized(items[i]);
            }
            assert(normalized_items(items) =~= items);
        },
        Document::Dictionary(entries) => {
            lemma_normalized_entries(entries);
            assert forall|i: int| 0 <= i < entries.len() implies (
            #[trigger] entries[i]).1.well_formed() && entries[i].1.normalized()
                == entries[i].1 by {
                lemma_canonical_normalized(entries[i].1);
            }
            assert(normalized_entries(entries) =~= entries);
        },
        _ => {},
    }
}

/// Decoding the encoding of any well-formed document gives the document
/// back, with raw bytes that are valid text as that text; and encoding what
/// came back gives the same bytes again.
pub proof fn lemma_decode_encode_normalized(doc: Document)
    requires
        doc.well_formed(),
    ensures
        decode(encode(doc)) == Ok::<Document, Error>(doc.normalized()),
        encode(doc.normalized()) == encode(doc),
{
    lemma_normalized(doc);
    lemma_decode_encode(doc.normalized());
}

} // verus!
