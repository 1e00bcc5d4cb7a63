use starlark_values::{Heap, List, Tuple, Value, ValueError};
use std::cmp::Ordering;

fn ints(heap: &mut Heap, xs: &[i64]) -> Value {
    let values: Vec<Value> = xs.iter().map(|x| Value::Int(*x)).collect();
    List::from_values(heap, values)
}

#[test]
fn scalar_representations() {
    let mut h = Heap::new();
    assert_eq!("None", h.to_repr(Value::NoneVal).unwrap());
    assert_eq!("True", h.to_repr(Value::Bool(true)).unwrap());
    assert_eq!("False", h.to_repr(Value::Bool(false)).unwrap());
    assert_eq!("0", h.to_repr(Value::Int(0)).unwrap());
    assert_eq!("-5", h.to_repr(Value::Int(-5)).unwrap());
    assert_eq!("1234567890", h.to_repr(Value::Int(1234567890)).unwrap());
    assert_eq!(
        "-9223372036854775808",
        h.to_repr(Value::Int(i64::MIN)).unwrap()
    );
    assert_eq!(
        "9223372036854775807",
        h.to_repr(Value::Int(i64::MAX)).unwrap()
    );
}

#[test]
fn type_names_and_truth() {
    let mut h = Heap::new();
    assert_eq!(h.get_type(Value::NoneVal), "NoneType");
    assert_eq!(h.get_type(Value::Bool(true)), "boolean");
    assert_eq!(h.get_type(Value::Int(7)), "int");
    let l = ints(&mut h, &[]);
    assert_eq!(h.get_type(l), "list");
    let t = Tuple::from_values(&mut h, vec![]);
    assert_eq!(h.get_type(t), "tuple");
    assert!(!h.to_bool(Value::NoneVal));
    assert!(!h.to_bool(Value::Int(0)));
    assert!(h.to_bool(Value::Int(-1)));
    assert!(!h.to_bool(l));
    let m = ints(&mut h, &[0]);
    assert!(h.to_bool(m));
}

#[test]
fn operand_kind_errors() {
    let mut h = Heap::new();
    let a = ints(&mut h, &[1]);
    // list + non-list declines
    assert_eq!(h.add(a, Value::Int(2)), Err(ValueError::IncorrectParameterType));
    // list + tuple declines: concatenation is list-with-list only
    let t = Tuple::from_values(&mut h, vec![Value::Int(2)]);
    assert_eq!(h.add(a, t), Err(ValueError::IncorrectParameterType));
    // repetition needs an integer or boolean count
    assert_eq!(h.mul(a, Value::NoneVal), Err(ValueError::IncorrectParameterType));
    let b = ints(&mut h, &[2]);
    assert_eq!(h.mul(a, b), Err(ValueError::IncorrectParameterType));
    // indexing needs an integer-like index
    assert_eq!(h.at(a, Value::NoneVal), Err(ValueError::IncorrectParameterType));
    // container operations decline on scalars
    assert_eq!(h.at(Value::Int(1), Value::Int(0)), Err(ValueError::OperationNotSupported));
    assert_eq!(h.length(Value::Bool(true)), Err(ValueError::OperationNotSupported));
    // a zero stride is a slice resolution error
    assert_eq!(
        h.slice(a, None, None, Some(Value::Int(0))),
        Err(ValueError::IndexOutOfBound)
    );
}

#[test]
fn declined_operations() {
    let mut h = Heap::new();
    let a = ints(&mut h, &[1]);
    assert_eq!(h.sub(a, Value::Int(1)), Err(ValueError::OperationNotSupported));
    assert_eq!(h.div(a, Value::Int(1)), Err(ValueError::OperationNotSupported));
    assert_eq!(h.percent(a, Value::Int(1)), Err(ValueError::OperationNotSupported));
    assert_eq!(h.pipe(a, Value::Int(1)), Err(ValueError::OperationNotSupported));
    assert_eq!(h.plus(a), Err(ValueError::OperationNotSupported));
    assert_eq!(h.minus(a), Err(ValueError::OperationNotSupported));
    assert_eq!(h.attr(a, "field"), Err(ValueError::OperationNotSupported));
    assert_eq!(h.function(a), Err(ValueError::OperationNotSupported));
}

#[test]
fn self_referential_list_exceeds_recursion_budget() {
    let mut h = Heap::new();
    let a = ints(&mut h, &[1]);
    // aliasing through the arena allows a cycle; deep operations report it
    h.set_at(a, Value::Int(0), a).unwrap();
    assert_eq!(h.to_repr(a), Err(ValueError::TooManyRecursionLevel));
    assert_eq!(h.get_hash(a), Err(ValueError::TooManyRecursionLevel));
    let b = ints(&mut h, &[1]);
    assert_eq!(h.compare(a, b), Err(ValueError::TooManyRecursionLevel));
}

#[test]
fn hashing_is_order_sensitive() {
    let mut h = Heap::new();
    let a = ints(&mut h, &[1, 2]);
    let b = ints(&mut h, &[2, 1]);
    let a2 = ints(&mut h, &[1, 2]);
    assert_eq!(h.get_hash(a).unwrap(), h.get_hash(a2).unwrap());
    assert_ne!(h.get_hash(a).unwrap(), h.get_hash(b).unwrap());
    // a list and a tuple of the same elements hash differently
    let t = Tuple::from_values(&mut h, vec![Value::Int(1), Value::Int(2)]);
    assert_ne!(h.get_hash(a).unwrap(), h.get_hash(t).unwrap());
    // scalars hash
    assert_eq!(h.get_hash(Value::Int(5)).unwrap(), 5);
    assert_eq!(h.get_hash(Value::Bool(true)).unwrap(), 1);
}

#[test]
fn cross_kind_ordering_is_total() {
    let mut h = Heap::new();
    let l = ints(&mut h, &[1]);
    let t = Tuple::from_values(&mut h, vec![Value::Int(1)]);
    // "NoneType" < "boolean" < "int" < "list" < "tuple"
    assert_eq!(h.compare(Value::NoneVal, Value::Bool(false)).unwrap(), Ordering::Less);
    assert_eq!(h.compare(Value::Bool(true), Value::Int(0)).unwrap(), Ordering::Less);
    assert_eq!(h.compare(Value::Int(99), l).unwrap(), Ordering::Less);
    assert_eq!(h.compare(l, t).unwrap(), Ordering::Less);
    assert_eq!(h.compare(t, Value::NoneVal).unwrap(), Ordering::Greater);
}

#[test]
fn elements_snapshot_and_shared_mutation() {
    let mut h = Heap::new();
    let inner = ints(&mut h, &[2]);
    let outer = List::from_values(&mut h, vec![inner, inner]);
    // both holders see a mutation through one of them
    h.set_at(inner, Value::Int(0), Value::Int(7)).unwrap();
    assert_eq!("[[7], [7]]", h.to_repr(outer).unwrap());
    let es = h.elements(outer).unwrap();
    assert_eq!(es.len(), 2);
    assert_eq!(es[0], inner);
    assert_eq!(es[1], inner);
    assert_eq!(h.elements(Value::Int(3)), Err(ValueError::OperationNotSupported));
}

#[test]
fn freeze_scalars_and_refreeze() {
    let mut h = Heap::new();
    // freezing a scalar is a no-op, freezing twice is harmless
    h.freeze(Value::Int(3));
    let a = ints(&mut h, &[1]);
    h.freeze(a);
    h.freeze(a);
    assert!(h.immutable(a));
    assert_eq!("[1]", h.to_repr(a).unwrap());
}
