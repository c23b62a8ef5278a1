//! The mapping from text to values that a dictionary token stands for.
//!
//! The entries are kept in a vector, in the strictly ascending byte order
//! of their keys. An ordered map of the standard library would keep the
//! same order, but nothing could be proved of it here: vstd states what
//! such a map does only for keys whose order it models, and it models
//! none for `String`.

use crate::order::{
    key_lt, key_order, lemma_bytes_lt_asymmetric, lemma_bytes_lt_total,
    lemma_bytes_lt_transitive, lemma_key_bytes_injective, Order,
};
use vstd::prelude::*;
use vstd::utf8::encode_utf8;

verus! {

/// The keys of `entries` ascend strictly, so none occurs twice.
pub open spec fn keys_ascending<V>(entries: Seq<(Seq<char>, V)>) -> bool {
    forall|i: int, j: int| 0 <= i < j < entries.len() ==> key_lt(entries[i].0, entries[j].0)
}

/// `entries` with `key` bound to `value`: a new entry where the order of
/// keys puts it, or the value replaced where `key` is already bound.
pub open spec fn dict_insert<V>(entries: Seq<(Seq<char>, V)>, key: Seq<char>, value: V) -> Seq<
    (Seq<char>, V),
>
    decreases entries.len(),
{
    if entries.len() == 0 {
        seq![(key, value)]
    } else if key_lt(entries.last().0, key) {
        entries.push((key, value))
    } else if entries.last().0 == key {
        entries.drop_last().push((key, value))
    } else {
        dict_insert(entries.drop_last(), key, value).push(entries.last())
    }
}

/// The dictionary that results from binding the pairs one after another,
/// first to last: of two pairs with one key the later one stays.
pub open spec fn dict_from<V>(pairs: Seq<(Seq<char>, V)>) -> Seq<(Seq<char>, V)>
    decreases pairs.len(),
{
    if pairs.len() == 0 {
        Seq::empty()
    } else {
        dict_insert(dict_from(pairs.drop_last()), pairs.last().0, pairs.last().1)
    }
}

/// What `key` is bound to in `entries`, where it is bound.
pub open spec fn lookup<V>(entries: Seq<(Seq<char>, V)>, key: Seq<char>) -> Option<V>
    decreases entries.len(),
{
    if entries.len() == 0 {
        None
    } else if entries.last().0 == key {
        Some(entries.last().1)
    } else {
        lookup(entries.drop_last(), key)
    }
}

/// `entries` with `f` applied to every value.
pub open spec fn map_values<A, B>(entries: Seq<(Seq<char>, A)>, f: spec_fn(A) -> B) -> Seq<
    (Seq<char>, B),
> {
    Seq::new(entries.len(), |i: int| (entries[i].0, f(entries[i].1)))
}

/// A mapping from text to values that keeps its entries in the strictly
/// ascending byte order of their keys, whatever the order in which they
/// were put in.
#[derive(Debug, PartialEq, Eq, PartialOrd, Ord)]
pub struct Dictionary<T> {
    pub(crate) entries: Vec<(String, T)>,
}

impl<T> View for Dictionary<T> {
    type V = Seq<(Seq<char>, T)>;

    /// The entries in their order, each key as text.
    open(crate) spec fn view(&self) -> Seq<(Seq<char>, T)> {
        entries_of(self.entries@)
    }
}

/// The entries that a list of pairs holds, each key as text.
pub open spec fn entries_of<T>(list: Seq<(String, T)>) -> Seq<(Seq<char>, T)> {
    Seq::new(list.len(), |i: int| (list[i].0@, list[i].1))
}

impl<T> Dictionary<T> {
    #[verifier::type_invariant]
    pub(crate) open spec fn ascending(self) -> bool {
        keys_ascending(self@)
    }

    /// A dictionary without entries.
    pub fn new() -> (dict: Self)
        ensures
            dict@ == Seq::<(Seq<char>, T)>::empty(),
    {
        let dict = Dictionary { entries: Vec::new() };
        assert(dict@ =~= Seq::<(Seq<char>, T)>::empty());
        dict
    }

    /// The number of entries. Their keys ascend strictly, whatever was
    /// done to the dictionary.
    pub fn len(&self) -> (n: usize)
        ensures
            n == self@.len(),
            keys_ascending(self@),
    {
        proof {
            use_type_invariant(self);
        }
        self.entries.len()
    }

    /// Whether the dictionary has no entries.
    pub fn is_empty(&self) -> (empty: bool)
        ensures
            empty == (self@.len() == 0),
    {
        self.entries.len() == 0
    }

    /// The entry at place `i` in the ascending order of keys: its key and
    /// what the key is bound to. `None` where `i` is no place of an entry.
    pub fn entry(&self, i: usize) -> (r: Option<(&str, &T)>)
        ensures
            keys_ascending(self@),
            match r {
                Some((key, value)) => i < self@.len() && key@ == self@[i as int].0 && *value
                    == self@[i as int].1,
                None => i >= self@.len(),
            },
    {
        proof {
            use_type_invariant(self);
        }
        if i < self.entries.len() {
            Some((self.entries[i].0.as_str(), &self.entries[i].1))
        } else {
            None
        }
    }

    /// What `key` is bound to; `None` where it is not bound.
    pub fn get(&self, key: &str) -> (r: Option<&T>)
        ensures
            match r {
                Some(value) => lookup(self@, key@) == Some(*value),
                None => lookup(self@, key@).is_none(),
            },
    {
        let mut i: usize = 0;
        while i < self.entries.len()
            invariant
                i <= self.entries.len(),
                forall|j: int| 0 <= j < i ==> (#[trigger] self@[j]).0 != key@,
            decreases self.entries.len() - i,
        {
            match key_order(self.entries[i].0.as_str(), key) {
                Order::Same => {
                    proof {
                        use_type_invariant(self);
                        lemma_lookup_entry(self@, key@);
                        let found = self@[i as int];
                        assert(found.0 == key@ && found.1 == self.entries[i as int].1);
                        let value = lookup(self@, key@)->Some_0;
                        let j = choose|j: int|
                            0 <= j < self@.len() && #[trigger] self@[j] == (key@, value);
                        if i < j {
                            assert(key_lt(self@[i as int].0, self@[j].0));
                            lemma_bytes_lt_asymmetric(encode_utf8(key@), encode_utf8(key@));
                        } else if j < i {
                            assert(key_lt(self@[j].0, self@[i as int].0));
                            lemma_bytes_lt_asymmetric(encode_utf8(key@), encode_utf8(key@));
                        }
                    }
                    return Some(&self.entries[i].1);
                },
                _ => {},
            }
            i = i + 1;
        }
        proof {
            lemma_lookup_entry(self@, key@);
        }
        None
    }

    /// Binds `key` to `value`. A key that is new gets its entry where the
    /// order of keys puts it; for a key that is bound already the new value
    /// replaces the old one.
    pub fn insert(&mut self, key: String, value: T)
        ensures
            final(self)@ == dict_insert(old(self)@, key@, value),
            keys_ascending(final(self)@),
    {
        proof {
            use_type_invariant(&*self);
            lemma_insert_ascending(self@, key@, value);
        }
        let ghost before = self@;
        let mut entries: Vec<(String, T)> = Vec::new();
        core::mem::swap(&mut self.entries, &mut entries);
        assert(self@ =~= Seq::empty());
        let mut i = entries.len();
        let mut replace = false;
        while i > 0
            invariant_except_break
                !replace,
            invariant
                entries_of(entries@) == before,
                i <= entries.len(),
                forall|j: int|
                    i <= j < before.len() ==> !key_lt((#[trigger] before[j]).0, key@)
                        && before[j].0 != key@,
            ensures
                replace ==> i > 0 && before[i - 1].0 == key@ && !key_lt(before[i - 1].0, key@),
                !replace ==> i == 0 || key_lt(before[i - 1].0, key@),
            decreases i,
        {
            assert(before[i - 1].0 == entries@[i - 1].0@);
            match key_order(entries[i - 1].0.as_str(), key.as_str()) {
                Order::Before => {
                    break ;
                },
                Order::Same => {
                    replace = true;
                    break ;
                },
                Order::After => {
                    i = i - 1;
                },
            }
        }
        proof {
            lemma_insert_place(before, key@, value, i as int);
            if i > 0 {
                assert(before.take(i as int).last() == before[i - 1]);
                assert(before.take(i as int).drop_last() =~= before.take(i - 1));
            }
        }
        if replace {
            entries[i - 1] = (key, value);
            assert(entries_of(entries@) =~= before.take(i - 1).push((key@, value)) + before.skip(
                i as int,
            ));
        } else {
            entries.insert(i, (key, value));
            assert(entries_of(entries@) =~= before.take(i as int).push((key@, value))
                + before.skip(i as int));
        }
        assert(entries_of(entries@) == dict_insert(before, key@, value));
        core::mem::swap(&mut self.entries, &mut entries);
    }
}

/// What holds of every entry, and of a new one, holds of every entry once
/// the new one is bound.
pub proof fn lemma_insert_all<V>(
    entries: Seq<(Seq<char>, V)>,
    key: Seq<char>,
    value: V,
    holds: spec_fn((Seq<char>, V)) -> bool,
)
    requires
        holds((key, value)),
        forall|i: int| 0 <= i < entries.len() ==> holds(#[trigger] entries[i]),
    ensures
        forall|i: int|
            0 <= i < dict_insert(entries, key, value).len() ==> holds(
                #[trigger] dict_insert(entries, key, value)[i],
            ),
    decreases entries.len(),
{
    let after = dict_insert(entries, key, value);
    if entries.len() == 0 {
    } else if key_lt(entries.last().0, key) {
        assert forall|i: int| 0 <= i < after.len() implies holds(#[trigger] after[i]) by {
            if i < entries.len() {
                assert(after[i] == entries[i]);
            }
        }
    } else if entries.last().0 == key {
        assert forall|i: int| 0 <= i < after.len() implies holds(#[trigger] after[i]) by {
            if i < entries.len() - 1 {
                assert(after[i] == entries[i]);
            }
        }
    } else {
        let front = entries.drop_last();
        assert forall|i: int| 0 <= i < front.len() implies holds(#[trigger] front[i]) by {
            assert(front[i] == entries[i]);
        }
        lemma_insert_all(front, key, value, holds);
        let inner = dict_insert(front, key, value);
        assert forall|i: int| 0 <= i < after.len() implies holds(#[trigger] after[i]) by {
            if i < inner.len() {
                assert(after[i] == inner[i]);
            } else {
                assert(after[i] == entries[entries.len() - 1]);
            }
        }
    }
}

/// What holds of every pair holds of every entry of the dictionary that
/// the pairs are bound into.
pub proof fn lemma_dict_from_all<V>(
    pairs: Seq<(Seq<char>, V)>,
    holds: spec_fn((Seq<char>, V)) -> bool,
)
    requires
        forall|i: int| 0 <= i < pairs.len() ==> holds(#[trigger] pairs[i]),
    ensures
        forall|i: int|
            0 <= i < dict_from(pairs).len() ==> holds(#[trigger] dict_from(pairs)[i]),
    decreases pairs.len(),
{
    if pairs.len() > 0 {
        let front = pairs.drop_last();
        assert forall|i: int| 0 <= i < front.len() implies holds(#[trigger] front[i]) by {
            assert(front[i] == pairs[i]);
        }
        lemma_dict_from_all(front, holds);
        assert(holds(pairs[pairs.len() - 1]));
        lemma_insert_all(dict_from(front), pairs.last().0, pairs.last().1, holds);
    }
}

/// Binding a key keeps the keys in strictly ascending order.
pub proof fn lemma_insert_ascending<V>(entries: Seq<(Seq<char>, V)>, key: Seq<char>, value: V)
    requires
        keys_ascending(entries),
    ensures
        keys_ascending(dict_insert(entries, key, value)),
    decreases entries.len(),
{
    let after = dict_insert(entries, key, value);
    if entries.len() == 0 {
    } else if key_lt(entries.last().0, key) {
        assert forall|i: int, j: int| 0 <= i < j < after.len() implies key_lt(
            after[i].0,
            after[j].0,
        ) by {
            if j == entries.len() && i < entries.len() - 1 {
                assert(key_lt(entries[i].0, entries[entries.len() - 1].0));
                lemma_bytes_lt_transitive(
                    encode_utf8(entries[i].0),
                    encode_utf8(entries.last().0),
                    encode_utf8(key),
                );
            }
        }
    } else if entries.last().0 == key {
        assert forall|i: int, j: int| 0 <= i < j < after.len() implies key_lt(
            after[i].0,
            after[j].0,
        ) by {
            assert(key_lt(entries[i].0, entries[j].0));
        }
    } else {
        let front = entries.drop_last();
        let last = entries.last();
        assert forall|i: int, j: int| 0 <= i < j < front.len() implies key_lt(
            front[i].0,
            front[j].0,
        ) by {
            assert(key_lt(entries[i].0, entries[j].0));
        }
        lemma_insert_ascending(front, key, value);
        lemma_bytes_lt_total(encode_utf8(key), encode_utf8(last.0));
        lemma_key_bytes_injective(key, last.0);
        let below = |entry: (Seq<char>, V)| key_lt(entry.0, last.0);
        assert forall|i: int| 0 <= i < front.len() implies below(#[trigger] front[i]) by {
            assert(key_lt(entries[i].0, entries[entries.len() - 1].0));
        }
        lemma_insert_all(front, key, value, below);
        let inner = dict_insert(front, key, value);
        assert forall|i: int, j: int| 0 <= i < j < after.len() implies key_lt(
            after[i].0,
            after[j].0,
        ) by {
            if j < inner.len() {
                assert(key_lt(inner[i].0, inner[j].0));
            } else {
                assert(below(inner[i]));
            }
        }
    }
}

/// In whatever order keys are bound, and however often, the entries that
/// result stand in the strictly ascending order of their keys.
pub proof fn lemma_dict_from_keys_ascending<V>(pairs: Seq<(Seq<char>, V)>)
    ensures
        keys_ascending(dict_from(pairs)),
    decreases pairs.len(),
{
    if pairs.len() > 0 {
        lemma_dict_from_keys_ascending(pairs.drop_last());
        lemma_insert_ascending(dict_from(pairs.drop_last()), pairs.last().0, pairs.last().1);
    }
}

/// Entries whose keys all come after `key` stay where they are when `key`
/// is bound: it is bound among the entries before them.
proof fn lemma_insert_place<V>(entries: Seq<(Seq<char>, V)>, key: Seq<char>, value: V, i: int)
    requires
        0 <= i <= entries.len(),
        forall|j: int|
            i <= j < entries.len() ==> !key_lt((#[trigger] entries[j]).0, key) && entries[j].0
                != key,
    ensures
        dict_insert(entries, key, value) == dict_insert(entries.take(i), key, value)
            + entries.skip(i),
    decreases entries.len() - i,
{
    if i < entries.len() {
        let front = entries.drop_last();
        assert(!key_lt(entries[entries.len() - 1].0, key) && entries[entries.len() - 1].0 != key);
        assert forall|j: int| i <= j < front.len() implies !key_lt((#[trigger] front[j]).0, key)
            && front[j].0 != key by {
            assert(front[j] == entries[j]);
        }
        lemma_insert_place(front, key, value, i);
        assert(front.take(i) =~= entries.take(i));
        assert((dict_insert(front.take(i), key, value) + front.skip(i)).push(entries.last())
            =~= dict_insert(entries.take(i), key, value) + entries.skip(i));
    } else {
        assert(entries.take(i) =~= entries);
        assert(dict_insert(entries, key, value) + entries.skip(i) =~= dict_insert(
            entries,
            key,
            value,
        ));
    }
}

/// After `key` is bound to `value`, that is what `key` is bound to, and
/// every other key is bound as before.
pub proof fn lemma_lookup_insert<V>(
    entries: Seq<(Seq<char>, V)>,
    key: Seq<char>,
    value: V,
    other: Seq<char>,
)
    ensures
        lookup(dict_insert(entries, key, value), other) == if other == key {
            Some(value)
        } else {
            lookup(entries, other)
        },
    decreases entries.len(),
{
    if entries.len() == 0 {
        assert(seq![(key, value)].drop_last() =~= entries);
    } else if key_lt(entries.last().0, key) {
        assert(entries.push((key, value)).drop_last() =~= entries);
    } else if entries.last().0 == key {
        assert(entries.drop_last().push((key, value)).drop_last() =~= entries.drop_last());
    } else {
        lemma_lookup_insert(entries.drop_last(), key, value, other);
        let inner = dict_insert(entries.drop_last(), key, value);
        assert(inner.push(entries.last()).drop_last() =~= inner);
    }
}

/// A key that is bound stands in an entry, with what it is bound to; a
/// key that is not bound stands in none.
proof fn lemma_lookup_entry<V>(entries: Seq<(Seq<char>, V)>, key: Seq<char>)
    ensures
        match lookup(entries, key) {
            Some(value) => exists|i: int|
                0 <= i < entries.len() && #[trigger] entries[i] == (key, value),
            None => forall|i: int| 0 <= i < entries.len() ==> (#[trigger] entries[i]).0 != key,
        },
    decreases entries.len(),
{
    if entries.len() == 0 {
    } else if entries.last().0 == key {
        assert(entries[entries.len() - 1] == (key, entries.last().1));
    } else {
        let front = entries.drop_last();
        lemma_lookup_entry(front, key);
        match lookup(front, key) {
            Some(value) => {
                let i = choose|i: int| 0 <= i < front.len() && #[trigger] front[i] == (key, value);
                assert(entries[i] == (key, value));
            },
            None => {
                assert forall|i: int| 0 <= i < entries.len() implies (#[trigger] entries[i]).0
                    != key by {
                    if i < front.len() {
                        assert(front[i] == entries[i]);
                    }
                }
            },
        }
    }
}

/// The entries of a dictionary are settled by what each key is bound to:
/// two sequences of entries with ascending keys that bind every key alike
/// are one and the same.
pub proof fn lemma_ascending_unique<V>(a: Seq<(Seq<char>, V)>, b: Seq<(Seq<char>, V)>)
    requires
        keys_ascending(a),
        keys_ascending(b),
        forall|key: Seq<char>| #[trigger] lookup(a, key) == lookup(b, key),
    ensures
        a == b,
    decreases a.len(),
{
    if a.len() == 0 {
        if b.len() > 0 {
            assert(lookup(a, b.last().0) == lookup(b, b.last().0));
        }
        assert(a =~= b);
    } else {
        let ka = a.last().0;
        assert(lookup(a, ka) == lookup(b, ka));
        assert(b.len() > 0);
        let kb = b.last().0;
        assert(lookup(a, kb) == lookup(b, kb));
        lemma_lookup_entry(a, kb);
        lemma_lookup_entry(b, ka);
        let i = choose|i: int| 0 <= i < a.len() && #[trigger] a[i] == (kb, b.last().1);
        let j = choose|j: int| 0 <= j < b.len() && #[trigger] b[j] == (ka, a.last().1);
        if i < a.len() - 1 {
            assert(key_lt(a[i].0, a[a.len() - 1].0));
            if j < b.len() - 1 {
                assert(key_lt(b[j].0, b[b.len() - 1].0));
                lemma_bytes_lt_asymmetric(encode_utf8(ka), encode_utf8(kb));
            }
        }
        assert(ka == kb);
        assert(a.last() == b.last());
        let front_a = a.drop_last();
        let front_b = b.drop_last();
        assert forall|key: Seq<char>| #[trigger]
            lookup(front_a, key) == lookup(front_b, key) by {
            if key == ka {
                lemma_lookup_entry(front_a, key);
                lemma_lookup_entry(front_b, key);
                if lookup(front_a, key) is Some {
                    let value = lookup(front_a, key)->Some_0;
                    let m = choose|m: int|
                        0 <= m < front_a.len() && #[trigger] front_a[m] == (key, value);
                    assert(key_lt(a[m].0, a[a.len() - 1].0));
                    lemma_bytes_lt_asymmetric(encode_utf8(ka), encode_utf8(ka));
                }
                if lookup(front_b, key) is Some {
                    let value = lookup(front_b, key)->Some_0;
                    let m = choose|m: int|
                        0 <= m < front_b.len() && #[trigger] front_b[m] == (key, value);
                    assert(key_lt(b[m].0, b[b.len() - 1].0));
                    lemma_bytes_lt_asymmetric(encode_utf8(kb), encode_utf8(kb));
                }
            } else {
                assert(lookup(a, key) == lookup(b, key));
            }
        }
        assert forall|i: int, j: int| 0 <= i < j < front_a.len() implies key_lt(
            front_a[i].0,
            front_a[j].0,
        ) by {
            assert(key_lt(a[i].0, a[j].0));
        }
        assert forall|i: int, j: int| 0 <= i < j < front_b.len() implies key_lt(
            front_b[i].0,
            front_b[j].0,
        ) by {
            assert(key_lt(b[i].0, b[j].0));
        }
        lemma_ascending_unique(front_a, front_b);
        assert(a =~= front_a.push(a.last()));
        assert(b =~= front_b.push(b.last()));
    }
}

/// The order in which two different keys are bound does not matter.
pub proof fn lemma_insert_commutes<V>(
    entries: Seq<(Seq<char>, V)>,
    key: Seq<char>,
    value: V,
    other_key: Seq<char>,
    other_value: V,
)
    requires
        keys_ascending(entries),
        key != other_key,
    ensures
        dict_insert(dict_insert(entries, key, value), other_key, other_value) == dict_insert(
            dict_insert(entries, other_key, other_value),
            key,
            value,
        ),
{
    let first = dict_insert(entries, key, value);
    let second = dict_insert(entries, other_key, other_value);
    let a = dict_insert(first, other_key, other_value);
    let b = dict_insert(second, key, value);
    lemma_insert_ascending(entries, key, value);
    lemma_insert_ascending(entries, other_key, other_value);
    lemma_insert_ascending(first, other_key, other_value);
    lemma_insert_ascending(second, key, value);
    assert forall|k: Seq<char>| #[trigger] lookup(a, k) == lookup(b, k) by {
        lemma_lookup_insert(first, other_key, other_value, k);
        lemma_lookup_insert(entries, key, value, k);
        lemma_lookup_insert(second, key, value, k);
        lemma_lookup_insert(entries, other_key, other_value, k);
    }
    lemma_ascending_unique(a, b);
}

/// Binding a key and then applying `f` to every value gives what applying
/// `f` first and binding the key to the value's image gives.
pub proof fn lemma_insert_map_values<A, B>(
    entries: Seq<(Seq<char>, A)>,
    key: Seq<char>,
    value: A,
    f: spec_fn(A) -> B,
)
    ensures
        map_values(dict_insert(entries, key, value), f) == dict_insert(
            map_values(entries, f),
            key,
            f(value),
        ),
    decreases entries.len(),
{
    let mapped = map_values(entries, f);
    if entries.len() == 0 {
        assert(map_values(seq![(key, value)], f) =~= seq![(key, f(value))]);
    } else if key_lt(entries.last().0, key) {
        assert(map_values(entries.push((key, value)), f) =~= mapped.push((key, f(value))));
    } else if entries.last().0 == key {
        assert(map_values(entries.drop_last().push((key, value)), f) =~= mapped.drop_last().push(
            (key, f(value)),
        ));
    } else {
        lemma_insert_map_values(entries.drop_last(), key, value, f);
        assert(mapped.drop_last() =~= map_values(entries.drop_last(), f));
        assert(map_values(dict_insert(entries.drop_last(), key, value).push(entries.last()), f)
            =~= map_values(dict_insert(entries.drop_last(), key, value), f).push(mapped.last()));
    }
}

} // verus!
