//! The order of byte strings, which is that of dictionary keys.

use vstd::prelude::*;
use vstd::utf8::encode_utf8;

verus! {

/// Strict lexicographic order on byte strings: `a` comes before `b` when,
/// at the first place where they differ, `a` has ended or holds the smaller
/// byte.
pub open spec fn bytes_lt(a: Seq<u8>, b: Seq<u8>) -> bool {
    exists|k: int| differ_at(a, b, k)
}

/// `a` and `b` agree before place `k`, and there `a` has ended while `b`
/// goes on, or holds the smaller byte.
pub open spec fn differ_at(a: Seq<u8>, b: Seq<u8>, k: int) -> bool {
    &&& 0 <= k <= a.len()
    &&& k < b.len()
    &&& a.take(k) == b.take(k)
    &&& k < a.len() ==> a[k] < b[k]
}

/// The order of dictionary keys: the byte order of their UTF-8 encodings.
pub open spec fn key_lt(a: Seq<char>, b: Seq<char>) -> bool {
    bytes_lt(encode_utf8(a), encode_utf8(b))
}

/// How one value stands to another in an order.
#[derive(Debug, Clone, Copy, PartialEq, Eq)]
pub enum Order {
    /// The first comes before the second.
    Before,
    /// The two are the same.
    Same,
    /// The first comes after the second.
    After,
}

/// How the byte string `a` stands to `b`.
pub open spec fn bytes_order_of(a: Seq<u8>, b: Seq<u8>) -> Order {
    if bytes_lt(a, b) {
        Order::Before
    } else if a == b {
        Order::Same
    } else {
        Order::After
    }
}

/// Of two byte strings in order, the second is not before the first, and
/// they differ.
pub proof fn lemma_bytes_lt_asymmetric(a: Seq<u8>, b: Seq<u8>)
    requires
        bytes_lt(a, b),
    ensures
        !bytes_lt(b, a),
        a != b,
{
    let k = choose|k: int| differ_at(a, b, k);
    if bytes_lt(b, a) {
        let m = choose|m: int| differ_at(b, a, m);
        if k < m {
            assert(a.take(m)[k] == b.take(m)[k]);
        } else if m < k {
            assert(a.take(k)[m] == b.take(k)[m]);
        }
    }
}

/// The order is transitive.
pub proof fn lemma_bytes_lt_transitive(a: Seq<u8>, b: Seq<u8>, c: Seq<u8>)
    requires
        bytes_lt(a, b),
        bytes_lt(b, c),
    ensures
        bytes_lt(a, c),
{
    let k = choose|k: int| differ_at(a, b, k);
    let m = choose|m: int| differ_at(b, c, m);
    let n = if k < m {
        k
    } else {
        m
    };
    assert(a.take(n) =~= c.take(n)) by {
        assert forall|i: int| 0 <= i < n implies a[i] == c[i] by {
            assert(a.take(k)[i] == b.take(k)[i]);
            assert(b.take(m)[i] == c.take(m)[i]);
        }
    }
    if k < m {
        assert(b.take(m)[k] == c.take(m)[k]);
    } else if m < k {
        assert(a.take(k)[m] == b.take(k)[m]);
    }
    assert(differ_at(a, c, n));
}

/// Of two different byte strings one comes before the other.
pub proof fn lemma_bytes_lt_total(a: Seq<u8>, b: Seq<u8>)
    ensures
        bytes_lt(a, b) || a == b || bytes_lt(b, a),
{
    assert(a.take(0) =~= b.take(0));
    lemma_first_difference(a, b, 0);
}

/// Two byte strings that agree before place `from` are equal or in order,
/// one way or the other.
proof fn lemma_first_difference(a: Seq<u8>, b: Seq<u8>, from: int)
    requires
        0 <= from <= a.len(),
        from <= b.len(),
        a.take(from) == b.take(from),
    ensures
        bytes_lt(a, b) || a == b || bytes_lt(b, a),
    decreases a.len() - from,
{
    if from == a.len() {
        if from == b.len() {
            assert(a.take(from) == a);
            assert(b.take(from) == b);
        } else {
            assert(differ_at(a, b, from));
        }
    } else if from == b.len() {
        assert(differ_at(b, a, from));
    } else if a[from] < b[from] {
        assert(differ_at(a, b, from));
    } else if b[from] < a[from] {
        assert(differ_at(b, a, from));
    } else {
        assert(a.take(from + 1) =~= a.take(from).push(a[from]));
        assert(b.take(from + 1) =~= b.take(from).push(b[from]));
        lemma_first_difference(a, b, from + 1);
    }
}

/// Keys are equal exactly where their UTF-8 encodings are.
pub proof fn lemma_key_bytes_injective(a: Seq<char>, b: Seq<char>)
    ensures
        encode_utf8(a) == encode_utf8(b) <==> a == b,
{
    vstd::utf8::encode_utf8_decode_utf8(a);
    vstd::utf8::encode_utf8_decode_utf8(b);
}

/// How the byte string `a` stands to `b`.
pub fn bytes_order(a: &[u8], b: &[u8]) -> (r: Order)
    ensures
        r == bytes_order_of(a@, b@),
        r is After <==> bytes_lt(b@, a@),
{
    let mut i: usize = 0;
    while i < a.len() && i < b.len() && a[i] == b[i]
        invariant
            i <= a.len(),
            i <= b.len(),
            a@.take(i as int) == b@.take(i as int),
        decreases a.len() - i,
    {
        assert(a@.take(i + 1) =~= a@.take(i as int).push(a@[i as int]));
        assert(b@.take(i + 1) =~= b@.take(i as int).push(b@[i as int]));
        i = i + 1;
    }
    if i == a.len() && i == b.len() {
        proof {
            assert(a@.take(i as int) == a@);
            assert(b@.take(i as int) == b@);
            if bytes_lt(a@, b@) {
                lemma_bytes_lt_asymmetric(a@, b@);
            }
        }
        Order::Same
    } else if i == a.len() || (i < b.len() && a[i] < b[i]) {
        proof {
            assert(differ_at(a@, b@, i as int));
            lemma_bytes_lt_asymmetric(a@, b@);
        }
        Order::Before
    } else {
        proof {
            assert(differ_at(b@, a@, i as int));
            lemma_bytes_lt_asymmetric(b@, a@);
        }
        Order::After
    }
}

/// How the key `a` stands to `b`: as their UTF-8 encodings do.
pub fn key_order(a: &str, b: &str) -> (r: Order)
    ensures
        r == bytes_order_of(encode_utf8(a@), encode_utf8(b@)),
        r is Before <==> key_lt(a@, b@),
        r is Same <==> a@ == b@,
        r is After <==> key_lt(b@, a@),
{
    proof {
        lemma_key_bytes_injective(a@, b@);
    }
    bytes_order(a.as_bytes(), b.as_bytes())
}

} // verus!
