use sortcore::symbol::{Symbol, FAKE_NAME_ID, I64_NAME_ID, SYMBOL_NAME_ID, UNIT_NAME_ID};
use sortcore::value::{Id, Value};

#[test]
fn unit_value_is_tagged_unit_with_zero_payload() {
    let u = Value::unit();
    assert_eq!(u.tag.id, UNIT_NAME_ID);
    assert_eq!(u.bits, 0);
    assert_eq!(u, Value::unit());
}

#[test]
fn fake_value_is_a_sentinel_distinct_from_unit() {
    let f = Value::fake();
    assert_eq!(f.tag.id, FAKE_NAME_ID);
    assert_eq!(f.bits, 1234567890);
    assert_ne!(f, Value::unit());
    assert_eq!(f, Value::fake());
}

#[test]
fn from_id_keeps_tag_and_index() {
    let tag = Symbol::new(42);
    let v = Value::from_id(tag, Id { index: 7 });
    assert_eq!(v.tag, tag);
    assert_eq!(v.bits, 7);
}

#[test]
fn from_i64_stores_the_bit_pattern() {
    let v = Value::from(5i64);
    assert_eq!(v.tag.id, I64_NAME_ID);
    assert_eq!(v.bits, 5);
    let w = Value::from(-1i64);
    assert_eq!(w.tag.id, I64_NAME_ID);
    assert_eq!(w.bits, u64::MAX);
    assert_eq!(Value::from(i64::MIN).bits, 1u64 << 63);
}

#[test]
fn from_symbol_stores_the_symbol_id() {
    let v = Value::from(Symbol::new(31));
    assert_eq!(v.tag.id, SYMBOL_NAME_ID);
    assert_eq!(v.bits, 31);
}

#[test]
fn values_are_ordered_by_tag_then_payload() {
    let a = Value { tag: Symbol::new(1), bits: 9 };
    let b = Value { tag: Symbol::new(2), bits: 0 };
    let c = Value { tag: Symbol::new(2), bits: 5 };
    assert!(a.lt(&b));
    assert!(b.lt(&c));
    assert!(a.lt(&c));
    assert!(!c.lt(&a));
    assert!(!a.lt(&a));
}

#[test]
fn equal_values_have_equal_parts() {
    let a = Value { tag: Symbol::new(3), bits: 8 };
    let b = Value { tag: Symbol::new(3), bits: 8 };
    assert_eq!(a, b);
    assert_ne!(a, Value { tag: Symbol::new(3), bits: 9 });
    assert_ne!(a, Value { tag: Symbol::new(4), bits: 8 });
}
