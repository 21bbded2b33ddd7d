use std::cmp::Ordering;

use docmarks::marks::{Mark, MarkData};
use docmarks::order::{LamportOrder, OpOrder};
use docmarks::types::OpId;
use docmarks::value::{ObjType, ScalarValue, Value};
use smol_str::SmolStr;

#[test]
fn lamport_order_goes_by_counter_then_actor() {
    let order = LamportOrder::new();
    assert_eq!(order.lamport_cmp(OpId::new(1, 9), OpId::new(2, 0)), Ordering::Less);
    assert_eq!(order.lamport_cmp(OpId::new(2, 0), OpId::new(1, 9)), Ordering::Greater);
    assert_eq!(order.lamport_cmp(OpId::new(2, 0), OpId::new(2, 1)), Ordering::Less);
    assert_eq!(order.lamport_cmp(OpId::new(2, 1), OpId::new(2, 0)), Ordering::Greater);
    assert_eq!(order.lamport_cmp(OpId::new(2, 1), OpId::new(2, 1)), Ordering::Equal);
    assert!(order.less(OpId::new(1, 9), OpId::new(2, 0)));
    assert!(!order.less(OpId::new(2, 0), OpId::new(2, 0)));
    assert!(!order.less(OpId::new(2, 1), OpId::new(2, 0)));
}

#[test]
fn an_end_follows_its_begin() {
    let begin = OpId::new(4, 2);
    assert_eq!(begin.next(), OpId::new(5, 2));
    assert_eq!(begin.next().prev(), begin);
    assert_eq!(OpId::new(1, 0).prev(), OpId::new(0, 0));
    assert_eq!((begin.counter(), begin.actor()), (4, 2));
}

#[test]
fn values_compare_by_kind_and_content() {
    assert!(ScalarValue::Int(3).same(&ScalarValue::Int(3)));
    assert!(!ScalarValue::Int(3).same(&ScalarValue::Uint(3)));
    assert!(!ScalarValue::Int(3).same(&ScalarValue::Counter(3)));
    assert!(!ScalarValue::Timestamp(3).same(&ScalarValue::Counter(3)));
    assert!(ScalarValue::Bytes(vec![1, 2]).same(&ScalarValue::Bytes(vec![1, 2])));
    assert!(!ScalarValue::Bytes(vec![1, 2]).same(&ScalarValue::Bytes(vec![1, 3])));
    assert!(!ScalarValue::Bytes(vec![1, 2]).same(&ScalarValue::Bytes(vec![1])));
    assert!(ScalarValue::str("a").same(&ScalarValue::Str(SmolStr::new("a"))));
    assert!(!ScalarValue::str("a").same(&ScalarValue::str("b")));
    assert!(ScalarValue::Null.same(&ScalarValue::Null));
    assert!(!ScalarValue::Null.same(&ScalarValue::Boolean(false)));
    let unknown = ScalarValue::Unknown { type_code: 7, bytes: vec![9] };
    assert!(unknown.same(&ScalarValue::Unknown { type_code: 7, bytes: vec![9] }));
    assert!(!unknown.same(&ScalarValue::Unknown { type_code: 8, bytes: vec![9] }));
    assert!(!unknown.same(&ScalarValue::Unknown { type_code: 7, bytes: vec![] }));
    assert_eq!(ScalarValue::Uint(5), ScalarValue::Uint(5));
    assert_ne!(ScalarValue::Uint(5), ScalarValue::Uint(6));
}

#[test]
fn only_null_is_null() {
    assert!(ScalarValue::Null.is_null());
    assert!(!ScalarValue::Boolean(false).is_null());
    assert!(!ScalarValue::Int(0).is_null());
    assert!(!ScalarValue::str("").is_null());
}

#[test]
fn values_come_from_plain_values() {
    assert_eq!(ScalarValue::from(true), ScalarValue::Boolean(true));
    assert_eq!(ScalarValue::from(-4i64), ScalarValue::Int(-4));
    assert_eq!(ScalarValue::from(4u64), ScalarValue::Uint(4));
    assert_eq!(ScalarValue::from("hi"), ScalarValue::Str(SmolStr::new("hi")));
    assert_eq!(ScalarValue::from("hi".to_string()), ScalarValue::Str(SmolStr::new("hi")));
    assert_eq!(ScalarValue::from(vec![1u8, 2]), ScalarValue::Bytes(vec![1, 2]));
}

#[test]
fn clones_hold_the_same() {
    let values = vec![
        ScalarValue::Bytes(vec![1, 2, 3]),
        ScalarValue::str("a long enough string to leave the inline buffer behind"),
        ScalarValue::Int(-1),
        ScalarValue::Uint(1),
        ScalarValue::Counter(2),
        ScalarValue::Timestamp(3),
        ScalarValue::Boolean(true),
        ScalarValue::Unknown { type_code: 1, bytes: vec![4] },
        ScalarValue::Null,
    ];
    for value in &values {
        assert_eq!(value.clone(), *value);
    }
    let data = MarkData { name: SmolStr::new("comment"), value: ScalarValue::str("hi") };
    assert_eq!(data.clone(), data);
    assert_eq!(Value::Object(ObjType::Text).clone(), Value::Object(ObjType::Text));
    assert_ne!(Value::Object(ObjType::Text), Value::Object(ObjType::List));
    assert_ne!(Value::Object(ObjType::Text), Value::Scalar(ScalarValue::Null));
    assert_eq!(Value::Scalar(ScalarValue::Int(1)).clone(), Value::Scalar(ScalarValue::Int(1)));
}

#[test]
fn a_mark_hands_out_what_it_was_made_of() {
    let mark = Mark::new("comment".to_string(), "hi", 3, 7);
    assert_eq!(mark.name(), "comment");
    assert_eq!(*mark.value(), ScalarValue::str("hi"));
    assert_eq!((mark.start, mark.end), (3, 7));
    assert_ne!(mark, Mark::new("comment".to_string(), "ho", 3, 7));
    assert_ne!(mark, Mark::new("remark".to_string(), "hi", 3, 7));
    assert_ne!(mark, Mark::new("comment".to_string(), "hi", 3, 8));
    assert_ne!(mark, Mark::new("comment".to_string(), "hi", 2, 7));
}

#[test]
fn an_owned_mark_equals_the_borrowed_one() {
    let data = MarkData { name: SmolStr::new("bold"), value: ScalarValue::Boolean(true) };
    let owned = {
        let borrowed = Mark { start: 1, end: 4, data: std::borrow::Cow::Borrowed(&data) };
        assert_eq!(borrowed.clone(), borrowed);
        borrowed.into_owned()
    };
    assert_eq!(owned, Mark::new("bold".to_string(), true, 1, 4));
    assert!(matches!(owned.data, std::borrow::Cow::Owned(_)));
    assert_eq!(owned.clone(), owned);
}
