use serde_bencode::order::Order;
use serde_bencode::{Dictionary, Value, ValueRef};
use std::cmp::Ordering;

fn sample_values() -> Vec<Value> {
    let text = |s: &str| Value::String(s.to_string());
    let mut small = Dictionary::new();
    small.insert("a".to_string(), Value::Number(1));
    let mut large = Dictionary::new();
    large.insert("a".to_string(), Value::Number(1));
    large.insert("b".to_string(), Value::Number(0));
    let mut other = Dictionary::new();
    other.insert("a".to_string(), Value::Number(2));
    let mut early = Dictionary::new();
    early.insert("A".to_string(), Value::List(vec![]));
    vec![
        Value::Number(i64::MIN),
        Value::Number(-1),
        Value::Number(0),
        Value::Number(7),
        Value::Number(i64::MAX),
        text(""),
        text("a"),
        text("ab"),
        text("b"),
        text("\u{e9}"),
        Value::Bytes(vec![]),
        Value::Bytes(vec![0]),
        Value::Bytes(vec![0, 0]),
        Value::Bytes(vec![0xFF]),
        Value::List(vec![]),
        Value::List(vec![Value::Number(1)]),
        Value::List(vec![Value::Number(1), Value::Number(0)]),
        Value::List(vec![Value::Number(2)]),
        Value::List(vec![text("a")]),
        Value::List(vec![Value::List(vec![])]),
        Value::Dictionary(Dictionary::new()),
        Value::Dictionary(early),
        Value::Dictionary(small),
        Value::Dictionary(large),
        Value::Dictionary(other),
    ]
}

fn as_order(ordering: Ordering) -> Order {
    match ordering {
        Ordering::Less => Order::Before,
        Ordering::Equal => Order::Same,
        Ordering::Greater => Order::After,
    }
}

#[test]
fn compare_is_the_order_of_the_values() {
    let values = sample_values();
    for a in &values {
        for b in &values {
            assert_eq!(a.compare(b), as_order(a.cmp(b)), "{:?} and {:?}", a, b);
        }
    }
}

#[test]
fn compare_ranks_the_kinds() {
    let number = Value::Number(i64::MAX);
    let text = Value::String(String::new());
    let bytes = Value::Bytes(vec![]);
    let list = Value::List(vec![]);
    let dict = Value::Dictionary(Dictionary::new());
    assert_eq!(number.compare(&text), Order::Before);
    assert_eq!(text.compare(&bytes), Order::Before);
    assert_eq!(bytes.compare(&list), Order::Before);
    assert_eq!(list.compare(&dict), Order::Before);
    assert_eq!(dict.compare(&number), Order::After);
    assert_eq!(list.compare(&list), Order::Same);
}

#[test]
fn compare_is_total_on_samples() {
    let values = sample_values();
    for (i, a) in values.iter().enumerate() {
        for (j, b) in values.iter().enumerate() {
            let expected = if i < j {
                Order::Before
            } else if i == j {
                Order::Same
            } else {
                Order::After
            };
            assert_eq!(a.compare(b), expected, "{:?} and {:?}", a, b);
        }
    }
}

#[test]
fn borrowing_values_compare_alike() {
    let mut one = Dictionary::new();
    one.insert("k".to_string(), ValueRef::String("v"));
    let mut two = Dictionary::new();
    two.insert("k".to_string(), ValueRef::String("w"));
    let values = vec![
        ValueRef::Number(-3),
        ValueRef::Number(3),
        ValueRef::String("a"),
        ValueRef::String("b"),
        ValueRef::Bytes(b"a"),
        ValueRef::Bytes(b"\xFF"),
        ValueRef::List(vec![]),
        ValueRef::List(vec![ValueRef::Bytes(b"")]),
        ValueRef::Dictionary(Dictionary::new()),
        ValueRef::Dictionary(one),
        ValueRef::Dictionary(two),
    ];
    for (i, a) in values.iter().enumerate() {
        for (j, b) in values.iter().enumerate() {
            assert_eq!(a.compare(b), as_order(i.cmp(&j)));
            assert_eq!(a.compare(b), as_order(a.cmp(b)));
        }
    }
}

#[test]
fn operators_follow_the_order_of_documents() {
    let values = sample_values();
    for a in &values {
        for b in &values {
            let order = a.compare(b);
            assert_eq!(a == b, order == Order::Same, "{:?} and {:?}", a, b);
            assert_eq!(a != b, order != Order::Same, "{:?} and {:?}", a, b);
            assert_eq!(a < b, order == Order::Before, "{:?} and {:?}", a, b);
            assert_eq!(a > b, order == Order::After, "{:?} and {:?}", a, b);
            assert_eq!(a <= b, order != Order::After, "{:?} and {:?}", a, b);
            assert_eq!(a >= b, order != Order::Before, "{:?} and {:?}", a, b);
            assert_eq!(a.partial_cmp(b), Some(a.cmp(b)), "{:?} and {:?}", a, b);
        }
    }
}

#[test]
fn values_sort_by_the_order_of_documents() {
    let mut values = sample_values();
    values.reverse();
    values.sort();
    assert_eq!(values, sample_values());
}
