//! The total order of documents: by kind first, then by what they hold.

use crate::document::Document;
use crate::order::{
    bytes_lt, bytes_order, bytes_order_of, key_order, lemma_bytes_lt_asymmetric,
    lemma_bytes_lt_total, lemma_bytes_lt_transitive, lemma_key_bytes_injective, Order,
};
use crate::value::{documents, entry_documents, lemma_view, Value};
use crate::value_ref::ValueRef;
use vstd::prelude::*;
use vstd::utf8::encode_utf8;

verus! {

/// The place of a document's kind among the kinds: numbers come first,
/// then text, raw bytes, lists, and dictionaries last.
pub open spec fn rank(doc: Document) -> int {
    match doc {
        Document::Number(_) => 0,
        Document::Text(_) => 1,
        Document::Bytes(_) => 2,
        Document::List(_) => 3,
        Document::Dictionary(_) => 4,
    }
}

/// How the number `a` stands to `b`.
pub open spec fn number_order(a: int, b: int) -> Order {
    if a < b {
        Order::Before
    } else if a == b {
        Order::Same
    } else {
        Order::After
    }
}

/// The order seen from the other side.
pub open spec fn reversed(order: Order) -> Order {
    match order {
        Order::Before => Order::After,
        Order::Same => Order::Same,
        Order::After => Order::Before,
    }
}

/// How the document `a` stands to `b`. Documents of different kinds stand
/// as their kinds do. Numbers stand by their size; text and raw bytes by
/// their bytes; lists by the first item in which they differ, a list coming
/// before every longer one that starts with it; dictionaries in the same
/// way by their entries, an entry standing by its key first.
pub open spec fn document_order(a: Document, b: Document) -> Order
    decreases a, 0int,
{
    match a {
        Document::Number(x) => match b {
            Document::Number(y) => number_order(x as int, y as int),
            _ => number_order(rank(a), rank(b)),
        },
        Document::Text(x) => match b {
            Document::Text(y) => bytes_order_of(encode_utf8(x), encode_utf8(y)),
            _ => number_order(rank(a), rank(b)),
        },
        Document::Bytes(x) => match b {
            Document::Bytes(y) => bytes_order_of(x, y),
            _ => number_order(rank(a), rank(b)),
        },
        Document::List(x) => match b {
            Document::List(y) => items_order(x, y),
            _ => number_order(rank(a), rank(b)),
        },
        Document::Dictionary(x) => match b {
            Document::Dictionary(y) => entries_order(x, y),
            _ => number_order(rank(a), rank(b)),
        },
    }
}

/// How the items `a` stand to the items `b`.
pub open spec fn items_order(a: Seq<Document>, b: Seq<Document>) -> Order
    decreases a, 1int,
{
    if a.len() == 0 {
        if b.len() == 0 {
            Order::Same
        } else {
            Order::Before
        }
    } else if b.len() == 0 {
        Order::After
    } else {
        match document_order(a[0], b[0]) {
            Order::Same => items_order(a.drop_first(), b.drop_first()),
            other => other,
        }
    }
}

/// How the entries `a` stand to the entries `b`.
pub open spec fn entries_order(
    a: Seq<(Seq<char>, Document)>,
    b: Seq<(Seq<char>, Document)>,
) -> Order
    decreases a, 1int,
{
    if a.len() == 0 {
        if b.len() == 0 {
            Order::Same
        } else {
            Order::Before
        }
    } else if b.len() == 0 {
        Order::After
    } else {
        match bytes_order_of(encode_utf8(a[0].0), encode_utf8(b[0].0)) {
            Order::Same => match document_order(a[0].1, b[0].1) {
                Order::Same => entries_order(a.drop_first(), b.drop_first()),
                other => other,
            },
            other => other,
        }
    }
}

/// Byte strings stand as `Same` exactly where they are equal, and the
/// order of two, seen from the other side, is the reverse.
pub proof fn lemma_bytes_order(a: Seq<u8>, b: Seq<u8>)
    ensures
        bytes_order_of(a, b) is Same <==> a == b,
        bytes_order_of(b, a) == reversed(bytes_order_of(a, b)),
{
    lemma_bytes_lt_total(a, b);
    if bytes_lt(a, b) {
        lemma_bytes_lt_asymmetric(a, b);
    }
    if bytes_lt(b, a) {
        lemma_bytes_lt_asymmetric(b, a);
    }
}

/// Documents stand as `Same` exactly where they are equal.
pub proof fn lemma_order_same(a: Document, b: Document)
    ensures
        document_order(a, b) is Same <==> a == b,
    decreases a, 0int,
{
    match a {
        Document::Number(x) => {},
        Document::Text(x) => {
            if let Document::Text(y) = b {
                lemma_bytes_order(encode_utf8(x), encode_utf8(y));
                lemma_key_bytes_injective(x, y);
            }
        },
        Document::Bytes(x) => {
            if let Document::Bytes(y) = b {
                lemma_bytes_order(x, y);
            }
        },
        Document::List(x) => {
            if let Document::List(y) = b {
                lemma_items_order_same(x, y);
            }
        },
        Document::Dictionary(x) => {
            if let Document::Dictionary(y) = b {
                lemma_entries_order_same(x, y);
            }
        },
    }
}

proof fn lemma_items_order_same(a: Seq<Document>, b: Seq<Document>)
    ensures
        items_order(a, b) is Same <==> a == b,
    decreases a, 1int,
{
    if a.len() == 0 || b.len() == 0 {
        if a.len() == 0 && b.len() == 0 {
            assert(a =~= b);
        }
    } else {
        lemma_order_same(a[0], b[0]);
        lemma_items_order_same(a.drop_first(), b.drop_first());
        if a[0] == b[0] && a.drop_first() == b.drop_first() {
            assert(a =~= seq![a[0]] + a.drop_first());
            assert(b =~= seq![b[0]] + b.drop_first());
        }
    }
}

proof fn lemma_entries_order_same(
    a: Seq<(Seq<char>, Document)>,
    b: Seq<(Seq<char>, Document)>,
)
    ensures
        entries_order(a, b) is Same <==> a == b,
    decreases a, 1int,
{
    if a.len() == 0 || b.len() == 0 {
        if a.len() == 0 && b.len() == 0 {
            assert(a =~= b);
        }
    } else {
        lemma_bytes_order(encode_utf8(a[0].0), encode_utf8(b[0].0));
        lemma_key_bytes_injective(a[0].0, b[0].0);
        lemma_order_same(a[0].1, b[0].1);
        lemma_entries_order_same(a.drop_first(), b.drop_first());
        if a[0] == b[0] && a.drop_first() == b.drop_first() {
            assert(a =~= seq![a[0]] + a.drop_first());
            assert(b =~= seq![b[0]] + b.drop_first());
        }
    }
}

/// Seen from the other side, the order of two documents is the reverse:
/// of two different documents exactly one comes before the other.
pub proof fn lemma_order_reversed(a: Document, b: Document)
    ensures
        document_order(b, a) == reversed(document_order(a, b)),
    decreases a, 0int,
{
    match a {
        Document::Number(x) => {},
        Document::Text(x) => {
            if let Document::Text(y) = b {
                lemma_bytes_order(encode_utf8(x), encode_utf8(y));
            }
        },
        Document::Bytes(x) => {
            if let Document::Bytes(y) = b {
                lemma_bytes_order(x, y);
            }
        },
        Document::List(x) => {
            if let Document::List(y) = b {
                lemma_items_order_reversed(x, y);
            }
        },
        Document::Dictionary(x) => {
            if let Document::Dictionary(y) = b {
                lemma_entries_order_reversed(x, y);
            }
        },
    }
}

proof fn lemma_items_order_reversed(a: Seq<Document>, b: Seq<Document>)
    ensures
        items_order(b, a) == reversed(items_order(a, b)),
    decreases a, 1int,
{
    if a.len() > 0 && b.len() > 0 {
        lemma_order_reversed(a[0], b[0]);
        lemma_items_order_reversed(a.drop_first(), b.drop_first());
    }
}

proof fn lemma_entries_order_reversed(
    a: Seq<(Seq<char>, Document)>,
    b: Seq<(Seq<char>, Document)>,
)
    ensures
        entries_order(b, a) == reversed(entries_order(a, b)),
    decreases a, 1int,
{
    if a.len() > 0 && b.len() > 0 {
        lemma_bytes_order(encode_utf8(a[0].0), encode_utf8(b[0].0));
        lemma_order_reversed(a[0].1, b[0].1);
        lemma_entries_order_reversed(a.drop_first(), b.drop_first());
    }
}

/// Byte strings: what comes before a byte string comes before all that
/// the byte string comes before.
proof fn lemma_bytes_order_transitive(a: Seq<u8>, b: Seq<u8>, c: Seq<u8>)
    requires
        bytes_order_of(a, b) is Before,
        bytes_order_of(b, c) is Before,
    ensures
        bytes_order_of(a, c) is Before,
{
    lemma_bytes_lt_transitive(a, b, c);
}

/// The order is transitive: what comes before a document comes before
/// all that the document comes before.
pub proof fn lemma_order_transitive(a: Document, b: Document, c: Document)
    requires
        document_order(a, b) is Before,
        document_order(b, c) is Before,
    ensures
        document_order(a, c) is Before,
    decreases a, 0int,
{
    if rank(a) == rank(b) && rank(b) == rank(c) {
        match a {
            Document::Number(x) => {},
            Document::Text(x) => {
                lemma_bytes_order_transitive(
                    encode_utf8(x),
                    encode_utf8(b->Text_0),
                    encode_utf8(c->Text_0),
                );
            },
            Document::Bytes(x) => {
                lemma_bytes_order_transitive(x, b->Bytes_0, c->Bytes_0);
            },
            Document::List(x) => {
                lemma_items_order_transitive(x, b->List_0, c->List_0);
            },
            Document::Dictionary(x) => {
                lemma_entries_order_transitive(x, b->Dictionary_0, c->Dictionary_0);
            },
        }
    }
}

proof fn lemma_items_order_transitive(a: Seq<Document>, b: Seq<Document>, c: Seq<Document>)
    requires
        items_order(a, b) is Before,
        items_order(b, c) is Before,
    ensures
        items_order(a, c) is Before,
    decreases a, 1int,
{
    if a.len() > 0 {
        let ab = document_order(a[0], b[0]);
        let bc = document_order(b[0], c[0]);
        lemma_order_same(a[0], b[0]);
        lemma_order_same(b[0], c[0]);
        if ab is Before && bc is Before {
            lemma_order_transitive(a[0], b[0], c[0]);
        } else if ab is Same && bc is Same {
            lemma_items_order_transitive(a.drop_first(), b.drop_first(), c.drop_first());
        }
    }
}

proof fn lemma_entries_order_transitive(
    a: Seq<(Seq<char>, Document)>,
    b: Seq<(Seq<char>, Document)>,
    c: Seq<(Seq<char>, Document)>,
)
    requires
        entries_order(a, b) is Before,
        entries_order(b, c) is Before,
    ensures
        entries_order(a, c) is Before,
    decreases a, 1int,
{
    if a.len() > 0 {
        let (ka, kb, kc) = (encode_utf8(a[0].0), encode_utf8(b[0].0), encode_utf8(c[0].0));
        lemma_bytes_order(ka, kb);
        lemma_bytes_order(kb, kc);
        lemma_bytes_order(ka, kc);
        let kab = bytes_order_of(ka, kb);
        let kbc = bytes_order_of(kb, kc);
        if kab is Before && kbc is Before {
            lemma_bytes_order_transitive(ka, kb, kc);
        } else if kab is Same && kbc is Same {
            let ab = document_order(a[0].1, b[0].1);
            let bc = document_order(b[0].1, c[0].1);
            lemma_order_same(a[0].1, b[0].1);
            lemma_order_same(b[0].1, c[0].1);
            if ab is Before && bc is Before {
                lemma_order_transitive(a[0].1, b[0].1, c[0].1);
            } else if ab is Same && bc is Same {
                lemma_entries_order_transitive(
                    a.drop_first(),
                    b.drop_first(),
                    c.drop_first(),
                );
            }
        }
    }
}

/// How the number `a` stands to `b`.
fn order_of_numbers(a: i64, b: i64) -> (r: Order)
    ensures
        r == number_order(a as int, b as int),
{
    if a < b {
        Order::Before
    } else if a == b {
        Order::Same
    } else {
        Order::After
    }
}

impl Value {
    /// The place of the value's kind among the kinds.
    fn rank(&self) -> (r: i64)
        ensures
            r == rank(self@),
    {
        match self {
            Value::Number(_) => 0,
            Value::String(_) => 1,
            Value::Bytes(_) => 2,
            Value::List(_) => 3,
            Value::Dictionary(_) => 4,
        }
    }

    /// How the value stands to `other` in the order of documents.
    #[verifier::loop_isolation(false)]
    pub fn compare(&self, other: &Value) -> (r: Order)
        ensures
            r == document_order(self@, other@),
        decreases self,
    {
        proof {
            lemma_view(*self);
            lemma_view(*other);
        }
        match self {
            Value::Number(x) => {
                if let Value::Number(y) = other {
                    return order_of_numbers(*x, *y);
                }
            },
            Value::String(x) => {
                if let Value::String(y) = other {
                    return key_order(x.as_str(), y.as_str());
                }
            },
            Value::Bytes(x) => {
                if let Value::Bytes(y) = other {
                    return bytes_order(x.as_slice(), y.as_slice());
                }
            },
            Value::List(x) => {
                if let Value::List(y) = other {
                    let ghost dx = documents(x@);
                    let ghost dy = documents(y@);
                    let mut i: usize = 0;
                    assert(dx.skip(0) =~= dx && dy.skip(0) =~= dy);
                    while i < x.len() && i < y.len()
                        invariant
                            i <= x.len(),
                            i <= y.len(),
                            items_order(dx, dy) == items_order(
                                dx.skip(i as int),
                                dy.skip(i as int),
                            ),
                        decreases x.len() - i,
                    {
                        let order = x[i].compare(&y[i]);
                        proof {
                            assert(dx.skip(i as int)[0] == x@[i as int]@);
                            assert(dy.skip(i as int)[0] == y@[i as int]@);
                            assert(dx.skip(i as int).drop_first() =~= dx.skip(i + 1));
                            assert(dy.skip(i as int).drop_first() =~= dy.skip(i + 1));
                        }
                        match order {
                            Order::Same => {},
                            _ => {
                                return order;
                            },
                        }
                        i = i + 1;
                    }
                    return if i < y.len() {
                        Order::Before
                    } else if i < x.len() {
                        Order::After
                    } else {
                        Order::Same
                    };
                }
            },
            Value::Dictionary(x) => {
                if let Value::Dictionary(y) = other {
                    let ghost dx = entry_documents(x@);
                    let ghost dy = entry_documents(y@);
                    let mut i: usize = 0;
                    assert(dx.skip(0) =~= dx && dy.skip(0) =~= dy);
                    while i < x.entries.len() && i < y.entries.len()
                        invariant
                            i <= x.entries.len(),
                            i <= y.entries.len(),
                            entries_order(dx, dy) == entries_order(
                                dx.skip(i as int),
                                dy.skip(i as int),
                            ),
                        decreases x.entries.len() - i,
                    {
                        proof {
                            assert(dx.skip(i as int)[0] == (
                                x.entries@[i as int].0@,
                                x.entries@[i as int].1@,
                            ));
                            assert(dy.skip(i as int)[0] == (
                                y.entries@[i as int].0@,
                                y.entries@[i as int].1@,
                            ));
                            assert(dx.skip(i as int).drop_first() =~= dx.skip(i + 1));
                            assert(dy.skip(i as int).drop_first() =~= dy.skip(i + 1));
                        }
                        let keys = key_order(x.entries[i].0.as_str(), y.entries[i].0.as_str());
                        match keys {
                            Order::Same => {},
                            _ => {
                                return keys;
                            },
                        }
                        let order = x.entries[i].1.compare(&y.entries[i].1);
                        match order {
                            Order::Same => {},
                            _ => {
                                return order;
                            },
                        }
                        i = i + 1;
                    }
                    return if i < y.entries.len() {
                        Order::Before
                    } else if i < x.entries.len() {
                        Order::After
                    } else {
                        Order::Same
                    };
                }
            },
        }
        order_of_numbers(self.rank(), other.rank())
    }
}

impl<'a> ValueRef<'a> {
    /// The place of the value's kind among the kinds.
    fn rank(&self) -> (r: i64)
        ensures
            r == rank(self@),
    {
        match self {
            ValueRef::Number(_) => 0,
            ValueRef::String(_) => 1,
            ValueRef::Bytes(_) => 2,
            ValueRef::List(_) => 3,
            ValueRef::Dictionary(_) => 4,
        }
    }

    /// How the value stands to `other` in the order of documents.
    #[verifier::loop_isolation(false)]
    pub fn compare(&self, other: &ValueRef<'a>) -> (r: Order)
        ensures
            r == document_order(self@, other@),
        decreases self,
    {
        proof {
            crate::value_ref::lemma_view(*self);
            crate::value_ref::lemma_view(*other);
        }
        match self {
            ValueRef::Number(x) => {
                if let ValueRef::Number(y) = other {
                    return order_of_numbers(*x, *y);
                }
            },
            ValueRef::String(x) => {
                if let ValueRef::String(y) = other {
                    return key_order(x, y);
                }
            },
            ValueRef::Bytes(x) => {
                if let ValueRef::Bytes(y) = other {
                    return bytes_order(x, y);
                }
            },
            ValueRef::List(x) => {
                if let ValueRef::List(y) = other {
                    let ghost dx = crate::value_ref::documents(x@);
                    let ghost dy = crate::value_ref::documents(y@);
                    let mut i: usize = 0;
                    assert(dx.skip(0) =~= dx && dy.skip(0) =~= dy);
                    while i < x.len() && i < y.len()
                        invariant
                            i <= x.len(),
                            i <= y.len(),
                            items_order(dx, dy) == items_order(
                                dx.skip(i as int),
                                dy.skip(i as int),
                            ),
                        decreases x.len() - i,
                    {
                        let order = x[i].compare(&y[i]);
                        proof {
                            assert(dx.skip(i as int)[0] == x@[i as int]@);
                            assert(dy.skip(i as int)[0] == y@[i as int]@);
                            assert(dx.skip(i as int).drop_first() =~= dx.skip(i + 1));
                            assert(dy.skip(i as int).drop_first() =~= dy.skip(i + 1));
                        }
                        match order {
                            Order::Same => {},
                            _ => {
                                return order;
                            },
                        }
                        i = i + 1;
                    }
                    return if i < y.len() {
                        Order::Before
                    } else if i < x.len() {
                        Order::After
                    } else {
                        Order::Same
                    };
                }
            },
            ValueRef::Dictionary(x) => {
                if let ValueRef::Dictionary(y) = other {
                    let ghost dx = crate::value_ref::entry_documents(x@);
                    let ghost dy = crate::value_ref::entry_documents(y@);
                    let mut i: usize = 0;
                    assert(dx.skip(0) =~= dx && dy.skip(0) =~= dy);
                    while i < x.entries.len() && i < y.entries.len()
                        invariant
                            i <= x.entries.len(),
                            i <= y.entries.len(),
                            entries_order(dx, dy) == entries_order(
                                dx.skip(i as int),
                                dy.skip(i as int),
                            ),
                        decreases x.entries.len() - i,
                    {
                        proof {
                            assert(dx.skip(i as int)[0] == (
                                x.entries@[i as int].0@,
                                x.entries@[i as int].1@,
                            ));
                            assert(dy.skip(i as int)[0] == (
                                y.entries@[i as int].0@,
                                y.entries@[i as int].1@,
                            ));
                            assert(dx.skip(i as int).drop_first() =~= dx.skip(i + 1));
                            assert(dy.skip(i as int).drop_first() =~= dy.skip(i + 1));
                        }
                        let keys = key_order(x.entries[i].0.as_str(), y.entries[i].0.as_str());
                        match keys {
                            Order::Same => {},
                            _ => {
                                return keys;
                            },
                        }
                        let order = x.entries[i].1.compare(&y.entries[i].1);
                        match order {
                            Order::Same => {},
                            _ => {
                                return order;
                            },
                        }
                        i = i + 1;
                    }
                    return if i < y.entries.len() {
                        Order::Before
                    } else if i < x.entries.len() {
                        Order::After
                    } else {
                        Order::Same
                    };
                }
            },
        }
        order_of_numbers(self.rank(), other.rank())
    }
}

} // verus!
