//! Resolution of indices and slice bounds, with Python-style negative-index
//! semantics.

use vstd::prelude::*;
use crate::value::{Value, ValueError};

verus! {

/// The integer a value coerces to in index or repetition position: integers
/// stand for themselves, booleans for 0 and 1, all other kinds decline.
pub open spec fn to_int_spec(v: Value) -> Option<int> {
    match v {
        Value::Int(i) => Some(i as int),
        Value::Bool(b) => Some(if b { 1int } else { 0int }),
        _ => None,
    }
}

/// A negative index counts from the end; after that adjustment the index must
/// lie in `[0, len)`.
pub open spec fn resolve_index(i: int, len: int) -> Option<int> {
    let j = if i < 0 { i + len } else { i };
    if 0 <= j && j < len {
        Some(j)
    } else {
        None
    }
}

/// Coerce a value to an integer, declining non-numeric kinds.
pub fn to_int(v: Value) -> (r: Result<i64, ValueError>)
    ensures
        match r {
            Ok(i) => to_int_spec(v) == Some(i as int),
            Err(e) => e == ValueError::IncorrectParameterType && to_int_spec(v) is None,
        },
{
    match v {
        Value::Int(i) => Ok(i),
        Value::Bool(b) => Ok(if b { 1 } else { 0 }),
        _ => Err(ValueError::IncorrectParameterType),
    }
}

/// Resolve an index value against the current length, counting negative
/// indices from the end; out of range after resolution is an error, never a
/// silent clamp.
pub fn convert_index(index: Value, len: usize) -> (r: Result<usize, ValueError>)
    ensures
        match r {
            Ok(j) => {
                &&& to_int_spec(index) is Some
                &&& resolve_index(to_int_spec(index)->Some_0, len as int) == Some(j as int)
            },
            Err(ValueError::IncorrectParameterType) => to_int_spec(index) is None,
            Err(ValueError::IndexOutOfBound) => {
                &&& to_int_spec(index) is Some
                &&& resolve_index(to_int_spec(index)->Some_0, len as int) is None
            },
            Err(_) => false,
        },
{
    let i = match to_int(index) {
        Ok(i) => i,
        Err(e) => {
            return Err(e);
        },
    };
    let j: i128 = if i < 0 {
        i as i128 + len as i128
    } else {
        i as i128
    };
    if 0 <= j && j < len as i128 {
        Ok(j as usize)
    } else {
        Err(ValueError::IndexOutOfBound)
    }
}

/// Clamp `x` into `[lo, hi]`.
pub open spec fn clamp(x: int, lo: int, hi: int) -> int {
    if x < lo {
        lo
    } else if x > hi {
        hi
    } else {
        x
    }
}

/// True when an optional slice bound has an acceptable kind: absent, the
/// `None` value, an integer or a boolean.
pub open spec fn slice_param_ok(v: Option<Value>) -> bool {
    match v {
        Option::None => true,
        Option::Some(x) => x is NoneVal || to_int_spec(x) is Some,
    }
}

/// The integer a slice bound stands for, with `default` for an absent bound
/// or the `None` value.  The default is used as given; a supplied value is
/// not (see [`slice_bound_resolved`]).
pub open spec fn slice_param(v: Option<Value>, default: int) -> int {
    match v {
        Option::None => default,
        Option::Some(x) => if x is NoneVal {
            default
        } else {
            match to_int_spec(x) {
                Some(i) => i,
                None => default,
            }
        },
    }
}

/// A supplied slice bound after negative-index adjustment and clamping into
/// `[lo, hi]`.
pub open spec fn resolve_slice_bound(x: int, len: int, lo: int, hi: int) -> int {
    clamp(if x < 0 { x + len } else { x }, lo, hi)
}

/// A slice bound: an absent bound or the `None` value stands for the default
/// exactly; a supplied integer counts from the end when negative and is then
/// clamped into `[lo, hi]`.
pub open spec fn slice_bound_resolved(v: Option<Value>, len: int, default: int, lo: int, hi: int) -> int {
    match v {
        Option::None => default,
        Option::Some(x) => if x is NoneVal {
            default
        } else {
            match to_int_spec(x) {
                Some(i) => resolve_slice_bound(i, len, lo, hi),
                None => default,
            }
        },
    }
}

/// The resolved start bound of a slice of a sequence of length `len` with
/// stride `stride`.
pub open spec fn slice_start(start: Option<Value>, len: int, stride: int) -> int {
    if stride < 0 {
        slice_bound_resolved(start, len, len - 1, -1, len - 1)
    } else {
        slice_bound_resolved(start, len, 0, 0, len)
    }
}

/// The resolved stop bound of a slice of a sequence of length `len` with
/// stride `stride`.
pub open spec fn slice_stop(stop: Option<Value>, len: int, stride: int) -> int {
    if stride < 0 {
        slice_bound_resolved(stop, len, -1, -1, len - 1)
    } else {
        slice_bound_resolved(stop, len, len, 0, len)
    }
}

fn resolve_bound_exec(v: Option<Value>, len: usize, default: i128, lo: i128, hi: i128) -> (r: Result<
    i128,
    ValueError,
>)
    requires
        -1 <= lo <= hi <= len as int,
        lo <= default <= hi,
    ensures
        match r {
            Ok(x) => slice_param_ok(v) && x as int == slice_bound_resolved(
                v,
                len as int,
                default as int,
                lo as int,
                hi as int,
            ),
            Err(e) => e == ValueError::IncorrectParameterType && !slice_param_ok(v),
        },
{
    let raw: i128 = match v {
        Option::None => default,
        Option::Some(x) => match x {
            Value::NoneVal => default,
            _ => match to_int(x) {
                Ok(i) => {
                    let i: i128 = i as i128;
                    if i < 0 {
                        i + len as i128
                    } else {
                        i
                    }
                },
                Err(e) => {
                    return Err(e);
                },
            },
        },
    };
    if raw < lo {
        Ok(lo)
    } else if raw > hi {
        Ok(hi)
    } else {
        Ok(raw)
    }
}

/// Resolve the three optional slice bounds against the current length.
/// Each bound is independently adjusted for a negative value and clamped;
/// the defaults depend on the sign of the stride, and a zero stride is
/// rejected.
pub fn convert_slice_indices(
    len: usize,
    start: Option<Value>,
    stop: Option<Value>,
    stride: Option<Value>,
) -> (r: Result<(i128, i128, i128), ValueError>)
    ensures
        match r {
            Ok((a, b, s)) => {
                &&& slice_param_ok(start) && slice_param_ok(stop) && slice_param_ok(stride)
                &&& s as int == slice_param(stride, 1) && s != 0
                &&& a as int == slice_start(start, len as int, s as int)
                &&& b as int == slice_stop(stop, len as int, s as int)
            },
            Err(ValueError::IncorrectParameterType) => !(slice_param_ok(start) && slice_param_ok(
                stop,
            ) && slice_param_ok(stride)),
            Err(ValueError::IndexOutOfBound) => {
                &&& slice_param_ok(start) && slice_param_ok(stop) && slice_param_ok(stride)
                &&& slice_param(stride, 1) == 0
            },
            Err(_) => false,
        },
{
    let s: i128 = match stride {
        Option::None => 1,
        Option::Some(x) => match x {
            Value::NoneVal => 1,
            _ => match to_int(x) {
                Ok(i) => i as i128,
                Err(e) => {
                    return Err(e);
                },
            },
        },
    };
    let (a, b) = if s < 0 {
        let a = match resolve_bound_exec(start, len, len as i128 - 1, -1, len as i128 - 1) {
            Ok(x) => x,
            Err(e) => {
                return Err(e);
            },
        };
        let b = match resolve_bound_exec(stop, len, -1, -1, len as i128 - 1) {
            Ok(x) => x,
            Err(e) => {
                return Err(e);
            },
        };
        (a, b)
    } else {
        let a = match resolve_bound_exec(start, len, 0, 0, len as i128) {
            Ok(x) => x,
            Err(e) => {
                return Err(e);
            },
        };
        let b = match resolve_bound_exec(stop, len, len as i128, 0, len as i128) {
            Ok(x) => x,
            Err(e) => {
                return Err(e);
            },
        };
        (a, b)
    };
    if s == 0 {
        return Err(ValueError::IndexOutOfBound);
    }
    Ok((a, b, s))
}

} // verus!
