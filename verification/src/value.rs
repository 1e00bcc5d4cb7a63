//! The uniform value handle and the error taxonomy of the runtime.

use vstd::prelude::*;

verus! {

/// A uniformly-sized, cheaply copyable handle to a runtime value.
///
/// Scalars are stored inline; containers are stored as an index into the
/// [`crate::heap::Heap`] arena, so that every holder of the same `Ref` shares
/// one payload and observes its mutations.
#[derive(Clone, Copy, PartialEq, Eq, Structural, Debug)]
pub enum Value {
    /// The unit value of the language (`None`).
    NoneVal,
    /// A boolean.
    Bool(bool),
    /// A 64-bit integer.
    Int(i64),
    /// A handle to a container payload stored in the heap arena.
    Ref(usize),
}

/// The failure vocabulary produced by variant operations.
#[derive(Clone, Copy, PartialEq, Eq, Structural, Debug)]
pub enum ValueError {
    /// An operator received an operand of a kind it cannot combine with.
    IncorrectParameterType,
    /// An index or slice bound fell outside the valid range after
    /// negative-index normalization, or a slice stride was zero.
    IndexOutOfBound,
    /// A mutating operation was attempted on an immutable payload.
    CannotMutateImmutableValue,
    /// A recursive operation ran out of nesting budget; with a well-founded
    /// value graph this can only happen when a container reaches itself.
    TooManyRecursionLevel,
    /// The fixed decline outcome for a contract method a variant does not
    /// implement.
    OperationNotSupported,
}

impl Value {
    /// True when the handle does not dangle: a `Ref` points below `n`,
    /// the number of cells of its heap.
    pub open spec fn valid(self, n: int) -> bool {
        match self {
            Value::Ref(i) => i < n,
            _ => true,
        }
    }

    /// The arena index of a `Ref` handle, or `-1` for a scalar.
    pub open spec fn ref_index(self) -> int {
        match self {
            Value::Ref(i) => i as int,
            _ => -1,
        }
    }
}

/// True when every value of `items` is valid for a heap of `n` cells.
pub open spec fn all_valid(items: Seq<Value>, n: int) -> bool {
    forall|k: int| 0 <= k < items.len() ==> (#[trigger] items[k]).valid(n)
}

} // verus!
