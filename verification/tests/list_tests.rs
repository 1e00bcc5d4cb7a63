use starlark_values::{Heap, List, Value, ValueError};
use std::cmp::Ordering;

fn ints(heap: &mut Heap, xs: &[i64]) -> Value {
    let values: Vec<Value> = xs.iter().map(|x| Value::Int(*x)).collect();
    List::from_values(heap, values)
}

#[test]
fn test_to_str() {
    let mut h = Heap::new();
    let a = ints(&mut h, &[1, 2, 3]);
    assert_eq!("[1, 2, 3]", h.to_str(a).unwrap());
    let inner = ints(&mut h, &[2, 3]);
    let b = List::from_values(&mut h, vec![Value::Int(1), inner]);
    assert_eq!("[1, [2, 3]]", h.to_str(b).unwrap());
    let c = ints(&mut h, &[1]);
    assert_eq!("[1]", h.to_str(c).unwrap());
    let d = ints(&mut h, &[]);
    assert_eq!("[]", h.to_str(d).unwrap());
}

#[test]
fn test_mutate_list() {
    let mut h = Heap::new();
    let v = ints(&mut h, &[1, 2, 3]);
    h.set_at(v, Value::Int(1), Value::Int(1)).unwrap();
    let inner = ints(&mut h, &[2, 3]);
    h.set_at(v, Value::Int(2), inner).unwrap();
    assert_eq!("[1, 1, [2, 3]]", h.to_repr(v).unwrap());
}

#[test]
fn test_arithmetic_on_list() {
    let mut h = Heap::new();
    // [1, 2, 3] + [2, 3] == [1, 2, 3, 2, 3]
    let a = ints(&mut h, &[1, 2, 3]);
    let b = ints(&mut h, &[2, 3]);
    let sum = h.add(a, b).unwrap();
    let expected = ints(&mut h, &[1, 2, 3, 2, 3]);
    assert_eq!(h.compare(sum, expected).unwrap(), Ordering::Equal);
    // [1, 2, 3] * 3 == [1, 2, 3, 1, 2, 3, 1, 2, 3]
    let prod = h.mul(a, Value::Int(3)).unwrap();
    let expected3 = ints(&mut h, &[1, 2, 3, 1, 2, 3, 1, 2, 3]);
    assert_eq!(h.compare(prod, expected3).unwrap(), Ordering::Equal);
}

#[test]
fn freeze_propagates_to_nested_list() {
    let mut h = Heap::new();
    let inner = ints(&mut h, &[2]);
    let outer = List::from_values(&mut h, vec![Value::Int(1), inner]);
    assert!(!h.immutable(outer));
    assert!(!h.immutable(inner));
    h.freeze(outer);
    assert!(h.immutable(outer));
    assert!(h.immutable(inner));
    assert_eq!(
        h.set_at(outer, Value::Int(0), Value::Int(9)),
        Err(ValueError::CannotMutateImmutableValue)
    );
    assert_eq!(
        h.set_at(inner, Value::Int(0), Value::Int(9)),
        Err(ValueError::CannotMutateImmutableValue)
    );
}

#[test]
fn concatenation_preserves_order() {
    let mut h = Heap::new();
    let a = ints(&mut h, &[1, 2, 3]);
    let b = ints(&mut h, &[2, 3]);
    let sum = h.add(a, b).unwrap();
    assert_eq!("[1, 2, 3, 2, 3]", h.to_repr(sum).unwrap());
    // the result is a fresh, unfrozen list
    assert!(!h.immutable(sum));
}

#[test]
fn repetition_identities() {
    let mut h = Heap::new();
    let a = ints(&mut h, &[1, 2, 3]);
    let zero = h.mul(a, Value::Int(0)).unwrap();
    assert_eq!("[]", h.to_repr(zero).unwrap());
    let neg = h.mul(a, Value::Int(-4)).unwrap();
    assert_eq!("[]", h.to_repr(neg).unwrap());
    let three = h.mul(a, Value::Int(3)).unwrap();
    assert_eq!(h.length(three).unwrap(), 9);
    assert_eq!("[1, 2, 3, 1, 2, 3, 1, 2, 3]", h.to_repr(three).unwrap());
    // a boolean count coerces to 0 or 1
    let one = h.mul(a, Value::Bool(true)).unwrap();
    assert_eq!("[1, 2, 3]", h.to_repr(one).unwrap());
}

#[test]
fn negative_index_resolution() {
    let mut h = Heap::new();
    let a = ints(&mut h, &[1, 2, 3]);
    assert_eq!(h.at(a, Value::Int(-1)).unwrap(), Value::Int(3));
    assert_eq!(h.at(a, Value::Int(-3)).unwrap(), Value::Int(1));
    assert_eq!(h.at(a, Value::Int(-4)), Err(ValueError::IndexOutOfBound));
    assert_eq!(h.at(a, Value::Int(3)), Err(ValueError::IndexOutOfBound));
}

#[test]
fn slice_with_negative_stride() {
    let mut h = Heap::new();
    let a = ints(&mut h, &[0, 1, 2, 3, 4]);
    let rev = h.slice(a, None, None, Some(Value::Int(-1))).unwrap();
    assert_eq!("(4, 3, 2, 1, 0)", h.to_repr(rev).unwrap());
    let skip2 = h.slice(a, None, None, Some(Value::Int(-2))).unwrap();
    assert_eq!("(4, 2, 0)", h.to_repr(skip2).unwrap());
}

#[test]
fn slice_forward_windows() {
    let mut h = Heap::new();
    let a = ints(&mut h, &[0, 1, 2, 3, 4]);
    let all = h.slice(a, None, None, None).unwrap();
    assert_eq!("(0, 1, 2, 3, 4)", h.to_repr(all).unwrap());
    let mid = h
        .slice(a, Some(Value::Int(1)), Some(Value::Int(4)), None)
        .unwrap();
    assert_eq!("(1, 2, 3)", h.to_repr(mid).unwrap());
    let tail = h.slice(a, Some(Value::Int(-2)), None, None).unwrap();
    assert_eq!("(3, 4)", h.to_repr(tail).unwrap());
    let empty = h
        .slice(a, Some(Value::Int(3)), Some(Value::Int(1)), None)
        .unwrap();
    assert_eq!("()", h.to_repr(empty).unwrap());
    let single = h
        .slice(a, Some(Value::Int(2)), Some(Value::Int(3)), None)
        .unwrap();
    assert_eq!("(2,)", h.to_repr(single).unwrap());
    let big_stride = h.slice(a, None, None, Some(Value::Int(7))).unwrap();
    assert_eq!("(0,)", h.to_repr(big_stride).unwrap());
}

#[test]
fn lexicographic_comparison() {
    let mut h = Heap::new();
    let a12 = ints(&mut h, &[1, 2]);
    let a123 = ints(&mut h, &[1, 2, 3]);
    let a13 = ints(&mut h, &[1, 3]);
    let empty = ints(&mut h, &[]);
    let one = ints(&mut h, &[1]);
    assert_eq!(h.compare(a12, a123).unwrap(), Ordering::Less);
    assert_eq!(h.compare(a13, a123).unwrap(), Ordering::Greater);
    assert_eq!(h.compare(empty, one).unwrap(), Ordering::Less);
    let b123 = ints(&mut h, &[1, 2, 3]);
    assert_eq!(h.compare(a123, b123).unwrap(), Ordering::Equal);
}

#[test]
fn slice_result_is_immutable_and_independent() {
    let mut h = Heap::new();
    let a = ints(&mut h, &[1, 2, 3]);
    let t = h.slice(a, None, None, None).unwrap();
    assert!(h.immutable(t));
    assert_eq!(h.get_type(t), "tuple");
    assert_eq!(
        h.set_at(t, Value::Int(0), Value::Int(9)),
        Err(ValueError::CannotMutateImmutableValue)
    );
    // mutating the source list afterwards does not change the slice
    h.set_at(a, Value::Int(0), Value::Int(9)).unwrap();
    assert_eq!("[9, 2, 3]", h.to_repr(a).unwrap());
    assert_eq!("(1, 2, 3)", h.to_repr(t).unwrap());
}

#[test]
fn membership_is_structural() {
    let mut h = Heap::new();
    let inner = ints(&mut h, &[2, 3]);
    let a = List::from_values(&mut h, vec![Value::Int(1), inner]);
    assert_eq!(h.is_in(a, Value::Int(1)).unwrap(), Value::Bool(true));
    assert_eq!(h.is_in(a, Value::Int(2)).unwrap(), Value::Bool(false));
    // a structurally equal but distinct list is found
    let other = ints(&mut h, &[2, 3]);
    assert_eq!(h.is_in(a, other).unwrap(), Value::Bool(true));
}
