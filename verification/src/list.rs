//! The list variant: construction, indexing, mutation, concatenation,
//! repetition and slicing.

use vstd::prelude::*;
use vstd::arithmetic::div_mod::{lemma_fundamental_div_mod, lemma_mod_bound};
use vstd::arithmetic::mul::{lemma_mul_inequality, lemma_mul_nonnegative};
use crate::value::{Value, ValueError, all_valid};
use crate::heap::{Heap, Cell, CellModel, List, Tuple};
use crate::heap::{is_container, is_list, is_mutable_list, content_of, cells_wf};
use crate::index::{to_int, to_int_spec, convert_index, resolve_index, convert_slice_indices};
use crate::index::{slice_param_ok, slice_param, slice_start, slice_stop};

verus! {

/// `s` repeated `n` times, in order; a non-positive count yields the empty
/// sequence.
pub open spec fn repeat_seq<A>(s: Seq<A>, n: int) -> Seq<A>
    decreases n,
{
    if n <= 0 {
        Seq::empty()
    } else {
        repeat_seq(s, n - 1) + s
    }
}

/// The start of the forward window a slice filters: for a negative stride
/// the window runs from one past the resolved stop bound.
pub open spec fn slice_low(a: int, b: int, s: int) -> int {
    if s < 0 {
        b + 1
    } else {
        a
    }
}

/// The length of the forward window a slice filters.
pub open spec fn slice_take(a: int, b: int, s: int) -> int {
    if s < 0 {
        a - b
    } else {
        b - a
    }
}

/// The magnitude of the stride.
pub open spec fn slice_astride(s: int) -> int {
    if s < 0 {
        -s
    } else {
        s
    }
}

/// How many window offsets are multiples of the stride magnitude.
pub open spec fn slice_count(take: int, astride: int) -> int {
    if take <= 0 {
        0
    } else {
        (take - 1) / astride + 1
    }
}

/// Every `astride`-th element of the window, in forward order.
pub open spec fn slice_picked(content: Seq<Value>, low: int, take: int, astride: int) -> Seq<Value> {
    Seq::new(slice_count(take, astride) as nat, |k: int| content[low + k * astride])
}

/// The elements a slice with resolved bounds `a`, `b` and stride `s` selects:
/// the stride filter is applied over the forward window, and for a negative
/// stride the filtered sequence is then reversed.
pub open spec fn slice_result(content: Seq<Value>, a: int, b: int, s: int) -> Seq<Value> {
    let picked = slice_picked(
        content,
        slice_low(a, b, s),
        slice_take(a, b, s),
        slice_astride(s),
    );
    if s < 0 {
        picked.reverse()
    } else {
        picked
    }
}

/// A picked window offset stays within the window.
proof fn lemma_slice_pick_bound(take: int, astride: int, j: int)
    requires
        1 <= take,
        1 <= astride,
        0 <= j < slice_count(take, astride),
    ensures
        0 <= j * astride <= take - 1,
{
    let q = (take - 1) / astride;
    lemma_fundamental_div_mod(take - 1, astride);
    lemma_mod_bound(take - 1, astride);
    lemma_mul_inequality(j, q, astride);
    lemma_mul_nonnegative(j, astride);
    assert(q * astride == astride * q) by (nonlinear_arith);
}

/// The model of a fresh, unfrozen list cell.
pub open spec fn new_list_cell(content: Seq<Value>) -> CellModel {
    CellModel { is_tuple: false, frozen: false, content: content }
}

/// The model of a fresh tuple cell.
pub open spec fn new_tuple_cell(content: Seq<Value>) -> CellModel {
    CellModel { is_tuple: true, frozen: false, content: content }
}

/// Appending a cell whose elements are valid handles preserves heap
/// well-formedness.
proof fn lemma_wf_push(cells: Seq<CellModel>, c: CellModel)
    requires
        cells_wf(cells),
        all_valid(c.content, cells.len() as int),
        !c.frozen,
    ensures
        cells_wf(cells.push(c)),
{
    let cells2 = cells.push(c);
    assert forall|i: int| 0 <= i < cells2.len() implies all_valid(
        #[trigger] cells2[i].content,
        cells2.len() as int,
    ) by {
        if i < cells.len() {
            assert(all_valid(cells[i].content, cells.len() as int));
            assert(forall|k: int|
                0 <= k < cells2[i].content.len() ==> (#[trigger] cells2[i].content[k]).valid(
                    cells.len() as int,
                ));
        }
    }
    assert forall|i: int, k: int|
        0 <= i < cells2.len() && cells2[i].frozen && 0 <= k < cells2[i].content.len()
            && #[trigger] cells2[i].content[k] is Ref implies cells2[cells2[i].content[k].ref_index()].frozen by {
        assert(i < cells.len());
        assert(cells[i].content[k].ref_index() < cells.len());
    }
}

impl List {
    /// A fresh, empty, unfrozen list value.
    pub fn new(heap: &mut Heap) -> (r: Value)
        requires
            old(heap).inv(),
        ensures
            final(heap).inv(),
            final(heap)@ == old(heap)@.push(new_list_cell(Seq::empty())),
            r == Value::Ref(old(heap)@.len() as usize),
    {
        List::from_values(heap, Vec::new())
    }

    /// A fresh, unfrozen list value holding `values`, in order.
    pub fn from_values(heap: &mut Heap, values: Vec<Value>) -> (r: Value)
        requires
            old(heap).inv(),
            all_valid(values@, old(heap)@.len() as int),
        ensures
            final(heap).inv(),
            final(heap)@ == old(heap)@.push(new_list_cell(values@)),
            r == Value::Ref(old(heap)@.len() as usize),
    {
        let i = heap.cells.len();
        proof {
            lemma_wf_push(heap@, new_list_cell(values@));
        }
        heap.cells.push(Cell::ListCell(List { frozen: false, content: values }));
        proof {
            assert(heap@ =~= old(heap)@.push(new_list_cell(values@)));
        }
        Value::Ref(i)
    }
}

impl Tuple {
    /// A fresh tuple value holding `values`, in order.  A tuple declines
    /// mutation from the moment it is built.
    pub fn from_values(heap: &mut Heap, values: Vec<Value>) -> (r: Value)
        requires
            old(heap).inv(),
            all_valid(values@, old(heap)@.len() as int),
        ensures
            final(heap).inv(),
            final(heap)@ == old(heap)@.push(new_tuple_cell(values@)),
            r == Value::Ref(old(heap)@.len() as usize),
    {
        let i = heap.cells.len();
        proof {
            lemma_wf_push(heap@, new_tuple_cell(values@));
        }
        heap.cells.push(Cell::TupleCell(Tuple { frozen: false, content: values }));
        proof {
            assert(heap@ =~= old(heap)@.push(new_tuple_cell(values@)));
        }
        Value::Ref(i)
    }
}

impl Heap {
    /// The number of elements of a container; scalars decline.
    pub fn length(&self, v: Value) -> (r: Result<usize, ValueError>)
        requires
            self.inv(),
            v.valid(self@.len() as int),
        ensures
            match r {
                Ok(n) => is_container(self@, v) && n == content_of(self@, v).len(),
                Err(e) => e == ValueError::OperationNotSupported && !is_container(self@, v),
            },
    {
        match v {
            Value::Ref(i) => Ok(self.cell_content(i).len()),
            _ => Err(ValueError::OperationNotSupported),
        }
    }

    /// The elements of a container, each one a shared handle; scalars
    /// decline.  This is the iteration entry point: the returned sequence is
    /// a snapshot, restartable from scratch.
    pub fn elements(&self, v: Value) -> (r: Result<Vec<Value>, ValueError>)
        requires
            self.inv(),
            v.valid(self@.len() as int),
        ensures
            match r {
                Ok(es) => is_container(self@, v) && es@ == content_of(self@, v),
                Err(e) => e == ValueError::OperationNotSupported && !is_container(self@, v),
            },
    {
        match v {
            Value::Ref(i) => {
                let content = self.cell_content(i);
                let mut es: Vec<Value> = Vec::new();
                let mut k: usize = 0;
                while k < content.len()
                    invariant
                        k <= content.len(),
                        es@ =~= content@.subrange(0, k as int),
                    decreases content.len() - k,
                {
                    es.push(content[k]);
                    proof {
                        assert(es@ =~= content@.subrange(0, k + 1 as int));
                    }
                    k = k + 1;
                }
                proof {
                    assert(content@ =~= content@.subrange(0, content@.len() as int));
                }
                Ok(es)
            },
            _ => Err(ValueError::OperationNotSupported),
        }
    }

    /// Indexing, with negative indices counting from the end; out of range
    /// after resolution is an error, not a clamp.
    pub fn at(&self, v: Value, index: Value) -> (r: Result<Value, ValueError>)
        requires
            self.inv(),
            v.valid(self@.len() as int),
        ensures
            match r {
                Ok(x) => {
                    &&& is_container(self@, v)
                    &&& to_int_spec(index) is Some
                    &&& resolve_index(to_int_spec(index)->Some_0, content_of(self@, v).len() as int)
                        is Some
                    &&& x == content_of(self@, v)[resolve_index(
                        to_int_spec(index)->Some_0,
                        content_of(self@, v).len() as int,
                    )->Some_0]
                    &&& x.valid(self@.len() as int)
                },
                Err(ValueError::OperationNotSupported) => !is_container(self@, v),
                Err(ValueError::IncorrectParameterType) => is_container(self@, v) && to_int_spec(
                    index,
                ) is None,
                Err(ValueError::IndexOutOfBound) => {
                    &&& is_container(self@, v)
                    &&& to_int_spec(index) is Some
                    &&& resolve_index(to_int_spec(index)->Some_0, content_of(self@, v).len() as int)
                        is None
                },
                Err(_) => false,
            },
    {
        match v {
            Value::Ref(i) => {
                let content = self.cell_content(i);
                let j = match convert_index(index, content.len()) {
                    Ok(j) => j,
                    Err(e) => {
                        return Err(e);
                    },
                };
                assert(all_valid(self@[i as int].content, self@.len() as int));
                Ok(content[j])
            },
            _ => Err(ValueError::OperationNotSupported),
        }
    }

    /// In-place element update.  The immutability check comes first: a frozen
    /// list, a tuple or a scalar declines before the index is even resolved,
    /// and a failed operation leaves the heap untouched.
    pub fn set_at(&mut self, v: Value, index: Value, new_value: Value) -> (r: Result<
        (),
        ValueError,
    >)
        requires
            old(self).inv(),
            v.valid(old(self)@.len() as int),
            new_value.valid(old(self)@.len() as int),
        ensures
            final(self).inv(),
            final(self)@.len() == old(self)@.len(),
            match r {
                Ok(()) => {
                    &&& is_mutable_list(old(self)@, v)
                    &&& to_int_spec(index) is Some
                    &&& resolve_index(
                        to_int_spec(index)->Some_0,
                        content_of(old(self)@, v).len() as int,
                    ) is Some
                    &&& final(self)@ == old(self)@.update(
                        v.ref_index(),
                        new_list_cell(
                            content_of(old(self)@, v).update(
                                resolve_index(
                                    to_int_spec(index)->Some_0,
                                    content_of(old(self)@, v).len() as int,
                                )->Some_0,
                                new_value,
                            ),
                        ),
                    )
                },
                Err(ValueError::CannotMutateImmutableValue) => !is_mutable_list(old(self)@, v)
                    && final(self)@ == old(self)@,
                Err(ValueError::IncorrectParameterType) => {
                    &&& is_mutable_list(old(self)@, v)
                    &&& to_int_spec(index) is None
                    &&& final(self)@ == old(self)@
                },
                Err(ValueError::IndexOutOfBound) => {
                    &&& is_mutable_list(old(self)@, v)
                    &&& to_int_spec(index) is Some
                    &&& resolve_index(
                        to_int_spec(index)->Some_0,
                        content_of(old(self)@, v).len() as int,
                    ) is None
                    &&& final(self)@ == old(self)@
                },
                Err(_) => false,
            },
    {
        let i = match v {
            Value::Ref(i) => i,
            _ => {
                return Err(ValueError::CannotMutateImmutableValue);
            },
        };
        if self.immutable(v) {
            return Err(ValueError::CannotMutateImmutableValue);
        }
        let ghost cells0 = self@;
        match &mut self.cells[i] {
            Cell::ListCell(l) => {
                let j = match convert_index(index, l.content.len()) {
                    Ok(j) => j,
                    Err(e) => {
                        proof {
                            assert(self@ =~= cells0);
                        }
                        return Err(e);
                    },
                };
                l.content[j] = new_value;
            },
            Cell::TupleCell(_) => {
                proof {
                    assert(self@ =~= cells0);
                }
                return Err(ValueError::CannotMutateImmutableValue);
            },
        }
        proof {
            let cells2 = self@;
            let j = resolve_index(to_int_spec(index)->Some_0, content_of(cells0, v).len() as int)->Some_0;
            assert(cells2 =~= cells0.update(
                v.ref_index(),
                new_list_cell(content_of(cells0, v).update(j, new_value)),
            ));
            assert forall|a: int| 0 <= a < cells2.len() implies all_valid(
                #[trigger] cells2[a].content,
                cells2.len() as int,
            ) by {
                assert(all_valid(cells0[a].content, cells0.len() as int));
                if a == v.ref_index() {
                    assert(forall|k: int|
                        0 <= k < cells2[a].content.len() ==> (
                        #[trigger] cells2[a].content[k]).valid(cells2.len() as int));
                }
            }
            assert forall|a: int, k: int|
                0 <= a < cells2.len() && cells2[a].frozen && 0 <= k < cells2[a].content.len()
                    && #[trigger] cells2[a].content[k] is Ref implies cells2[cells2[a].content[k].ref_index()].frozen by {
                assert(a != v.ref_index());
                assert(cells0[a].frozen && cells0[a].content[k] == cells2[a].content[k]);
            }
        }
        Ok(())
    }

    /// Concatenation: defined only between two lists; the result is a new,
    /// unfrozen list holding this list's elements followed by the other's.
    pub fn add(&mut self, v: Value, other: Value) -> (r: Result<Value, ValueError>)
        requires
            old(self).inv(),
            v.valid(old(self)@.len() as int),
            other.valid(old(self)@.len() as int),
        ensures
            final(self).inv(),
            match r {
                Ok(x) => {
                    &&& is_list(old(self)@, v) && is_list(old(self)@, other)
                    &&& final(self)@ == old(self)@.push(
                        new_list_cell(content_of(old(self)@, v) + content_of(old(self)@, other)),
                    )
                    &&& x == Value::Ref(old(self)@.len() as usize)
                },
                Err(e) => {
                    &&& e == ValueError::IncorrectParameterType
                    &&& !(is_list(old(self)@, v) && is_list(old(self)@, other))
                    &&& final(self)@ == old(self)@
                },
            },
    {
        let (i, j) = match (v, other) {
            (Value::Ref(i), Value::Ref(j)) => (i, j),
            _ => {
                return Err(ValueError::IncorrectParameterType);
            },
        };
        if self.cell_is_tuple(i) || self.cell_is_tuple(j) {
            return Err(ValueError::IncorrectParameterType);
        }
        let mut out: Vec<Value> = Vec::new();
        self.append_cell_content(&mut out, i);
        self.append_cell_content(&mut out, j);
        proof {
            assert(all_valid(self@[i as int].content, self@.len() as int));
            assert(all_valid(self@[j as int].content, self@.len() as int));
            assert forall|k: int| 0 <= k < out@.len() implies (#[trigger] out@[k]).valid(
                self@.len() as int,
            ) by {
                let ci = self@[i as int].content;
                let cj = self@[j as int].content;
                if k < ci.len() {
                    assert(out@[k] == ci[k]);
                } else {
                    assert(out@[k] == cj[k - ci.len()]);
                }
            }
        }
        Ok(List::from_values(self, out))
    }

    /// Append the elements of cell `i` to `out`.
    fn append_cell_content(&self, out: &mut Vec<Value>, i: usize)
        requires
            i < self@.len(),
        ensures
            final(out)@ == old(out)@ + self@[i as int].content,
    {
        let content = self.cell_content(i);
        let mut k: usize = 0;
        while k < content.len()
            invariant
                k <= content.len(),
                content@ == self@[i as int].content,
                out@ =~= old(out)@ + content@.subrange(0, k as int),
            decreases content.len() - k,
        {
            out.push(content[k]);
            proof {
                assert(out@ =~= old(out)@ + content@.subrange(0, k + 1 as int));
            }
            k = k + 1;
        }
        proof {
            assert(out@ =~= old(out)@ + content@);
        }
    }

    /// Repetition: defined only for a list and an integer or boolean count;
    /// the result is a new, unfrozen list holding the elements repeated in
    /// order, and a non-positive count yields an empty list.
    pub fn mul(&mut self, v: Value, other: Value) -> (r: Result<Value, ValueError>)
        requires
            old(self).inv(),
            v.valid(old(self)@.len() as int),
        ensures
            final(self).inv(),
            match r {
                Ok(x) => {
                    &&& is_list(old(self)@, v) && to_int_spec(other) is Some
                    &&& final(self)@ == old(self)@.push(
                        new_list_cell(
                            repeat_seq(content_of(old(self)@, v), to_int_spec(other)->Some_0),
                        ),
                    )
                    &&& x == Value::Ref(old(self)@.len() as usize)
                },
                Err(e) => {
                    &&& e == ValueError::IncorrectParameterType
                    &&& !(is_list(old(self)@, v) && to_int_spec(other) is Some)
                    &&& final(self)@ == old(self)@
                },
            },
    {
        let i = match v {
            Value::Ref(i) => i,
            _ => {
                return Err(ValueError::IncorrectParameterType);
            },
        };
        if self.cell_is_tuple(i) {
            return Err(ValueError::IncorrectParameterType);
        }
        let n = match to_int(other) {
            Ok(n) => n,
            Err(e) => {
                return Err(e);
            },
        };
        let mut out: Vec<Value> = Vec::new();
        let mut t: i64 = 0;
        while t < n
            invariant
                0 <= t,
                n > 0 ==> t <= n,
                n <= 0 ==> t == 0,
                i < self@.len(),
                self@ == old(self)@,
                self.inv(),
                out@ =~= repeat_seq(self@[i as int].content, t as int),
                all_valid(out@, self@.len() as int),
            decreases n - t,
        {
            let ghost out0 = out@;
            self.append_cell_content(&mut out, i);
            proof {
                assert(out@ =~= out0 + self@[i as int].content);
                assert(all_valid(self@[i as int].content, self@.len() as int));
                assert forall|k: int| 0 <= k < out@.len() implies (#[trigger] out@[k]).valid(
                    self@.len() as int,
                ) by {
                    if k < out0.len() {
                        assert(out@[k] == out0[k]);
                    } else {
                        assert(out@[k] == self@[i as int].content[k - out0.len()]);
                    }
                }
            }
            t = t + 1;
        }
        proof {
            if n <= 0 {
                assert(out@ =~= repeat_seq(self@[i as int].content, n as int));
            }
        }
        Ok(List::from_values(self, out))
    }

    /// Slicing with optional bounds and stride, Python-style.  The result is
    /// a fresh tuple — an immutable sequence, never a mutable alias into the
    /// source — holding every `|stride|`-th element of the resolved forward
    /// window, reversed when the stride is negative.
    pub fn slice(
        &mut self,
        v: Value,
        start: Option<Value>,
        stop: Option<Value>,
        stride: Option<Value>,
    ) -> (r: Result<Value, ValueError>)
        requires
            old(self).inv(),
            v.valid(old(self)@.len() as int),
        ensures
            final(self).inv(),
            match r {
                Ok(x) => {
                    &&& is_container(old(self)@, v)
                    &&& slice_param_ok(start) && slice_param_ok(stop) && slice_param_ok(stride)
                    &&& slice_param(stride, 1) != 0
                    &&& final(self)@ == old(self)@.push(
                        new_tuple_cell(
                            slice_result(
                                content_of(old(self)@, v),
                                slice_start(
                                    start,
                                    content_of(old(self)@, v).len() as int,
                                    slice_param(stride, 1),
                                ),
                                slice_stop(
                                    stop,
                                    content_of(old(self)@, v).len() as int,
                                    slice_param(stride, 1),
                                ),
                                slice_param(stride, 1),
                            ),
                        ),
                    )
                    &&& x == Value::Ref(old(self)@.len() as usize)
                },
                Err(ValueError::OperationNotSupported) => !is_container(old(self)@, v)
                    && final(self)@ == old(self)@,
                Err(ValueError::IncorrectParameterType) => {
                    &&& is_container(old(self)@, v)
                    &&& !(slice_param_ok(start) && slice_param_ok(stop) && slice_param_ok(stride))
                    &&& final(self)@ == old(self)@
                },
                Err(ValueError::IndexOutOfBound) => {
                    &&& is_container(old(self)@, v)
                    &&& slice_param_ok(start) && slice_param_ok(stop) && slice_param_ok(stride)
                    &&& slice_param(stride, 1) == 0
                    &&& final(self)@ == old(self)@
                },
                Err(_) => false,
            },
    {
        let i = match v {
            Value::Ref(i) => i,
            _ => {
                return Err(ValueError::OperationNotSupported);
            },
        };
        let len = self.cell_content(i).len();
        let (a, b, s) = match convert_slice_indices(len, start, stop, stride) {
            Ok(t) => t,
            Err(e) => {
                return Err(e);
            },
        };
        let (low, take, astride): (i128, i128, i128) = if s < 0 {
            (b + 1, a - b, -s)
        } else {
            (a, b - a, s)
        };
        let ghost content = self@[i as int].content;
        proof {
            if s < 0 {
                assert(-1 <= a as int <= content.len() - 1);
                assert(-1 <= b as int <= content.len() - 1);
            } else {
                assert(0 <= a as int <= content.len());
                assert(0 <= b as int <= content.len());
            }
            assert(0 <= slice_low(a as int, b as int, s as int));
            assert(slice_low(a as int, b as int, s as int) + slice_take(a as int, b as int, s as int)
                <= content.len());
        }
        let count: i128 = if take <= 0 {
            0
        } else {
            (take - 1) / astride + 1
        };
        let content_ref = self.cell_content(i);
        let mut out: Vec<Value> = Vec::new();
        let mut j: i128 = 0;
        while j < count
            invariant
                0 <= j <= count,
                count == slice_count(take as int, astride as int),
                take as int == slice_take(a as int, b as int, s as int),
                low as int == slice_low(a as int, b as int, s as int),
                astride as int == slice_astride(s as int),
                count >= 1 ==> take >= 1,
                1 <= astride,
                0 <= low,
                low + take <= content.len(),
                content.len() == len as int,
                content_ref@ == content,
                out@.len() == j,
                forall|m: int|
                    0 <= m < j ==> #[trigger] out@[m] == (if s < 0 {
                        content[low as int + (count - 1 - m) * (astride as int)]
                    } else {
                        content[low as int + m * (astride as int)]
                    }),
            decreases count - j,
        {
            let mm: i128 = if s < 0 {
                count - 1 - j
            } else {
                j
            };
            proof {
                lemma_slice_pick_bound(take as int, astride as int, mm as int);
            }
            let idx: i128 = low + mm * astride;
            out.push(content_ref[idx as usize]);
            proof {
                assert(0 <= (idx as int));
                assert((idx as int) < content.len());
                assert forall|m: int| 0 <= m < j + 1 implies #[trigger] out@[m] == (if s < 0 {
                    content[low as int + (count - 1 - m) * (astride as int)]
                } else {
                    content[low as int + m * (astride as int)]
                }) by {
                    if m == j as int {
                        assert(out@[m] == content[idx as int]);
                        assert(mm as int == (if s < 0 { count as int - 1 - m } else { m }));
                    }
                }
            }
            j = j + 1;
        }
        proof {
            let ghost res = slice_result(content, a as int, b as int, s as int);
            let ghost picked = slice_picked(
                content,
                low as int,
                take as int,
                astride as int,
            );
            if s < 0 {
                assert forall|m: int| 0 <= m < count implies out@[m] == picked.reverse()[m] by {
                    assert(picked.reverse()[m] == picked[count - 1 - m]);
                }
                assert(out@ =~= res);
            } else {
                assert(out@ =~= res);
            }
            assert(all_valid(content, self@.len() as int));
            assert forall|m: int| 0 <= m < out@.len() implies (#[trigger] out@[m]).valid(
                self@.len() as int,
            ) by {
                if s < 0 {
                    lemma_slice_pick_bound(take as int, astride as int, count as int - 1 - m);
                    assert(out@[m] == content[low as int + (count - 1 - m) * (astride as int)]);
                } else {
                    lemma_slice_pick_bound(take as int, astride as int, m);
                    assert(out@[m] == content[low as int + m * (astride as int)]);
                }
            }
        }
        Ok(Tuple::from_values(self, out))
    }

    /// Subtraction: declined by every kind of this runtime.
    pub fn sub(&self, v: Value, other: Value) -> (r: Result<Value, ValueError>)
        ensures
            r == Err::<Value, ValueError>(ValueError::OperationNotSupported),
    {
        let _ = v;
        let _ = other;
        Err(ValueError::OperationNotSupported)
    }

    /// Division: declined by every kind of this runtime.
    pub fn div(&self, v: Value, other: Value) -> (r: Result<Value, ValueError>)
        ensures
            r == Err::<Value, ValueError>(ValueError::OperationNotSupported),
    {
        let _ = v;
        let _ = other;
        Err(ValueError::OperationNotSupported)
    }

    /// Modulo: declined by every kind of this runtime.
    pub fn percent(&self, v: Value, other: Value) -> (r: Result<Value, ValueError>)
        ensures
            r == Err::<Value, ValueError>(ValueError::OperationNotSupported),
    {
        let _ = v;
        let _ = other;
        Err(ValueError::OperationNotSupported)
    }

    /// Bitwise-or dispatch: declined by every kind of this runtime.
    pub fn pipe(&self, v: Value, other: Value) -> (r: Result<Value, ValueError>)
        ensures
            r == Err::<Value, ValueError>(ValueError::OperationNotSupported),
    {
        let _ = v;
        let _ = other;
        Err(ValueError::OperationNotSupported)
    }

    /// Unary plus: declined by every kind of this runtime.
    pub fn plus(&self, v: Value) -> (r: Result<Value, ValueError>)
        ensures
            r == Err::<Value, ValueError>(ValueError::OperationNotSupported),
    {
        let _ = v;
        Err(ValueError::OperationNotSupported)
    }

    /// Unary minus: declined by every kind of this runtime.
    pub fn minus(&self, v: Value) -> (r: Result<Value, ValueError>)
        ensures
            r == Err::<Value, ValueError>(ValueError::OperationNotSupported),
    {
        let _ = v;
        Err(ValueError::OperationNotSupported)
    }

    /// Attribute access: declined by every kind of this runtime.
    pub fn attr(&self, v: Value, name: &str) -> (r: Result<Value, ValueError>)
        ensures
            r == Err::<Value, ValueError>(ValueError::OperationNotSupported),
    {
        let _ = v;
        let _ = name;
        Err(ValueError::OperationNotSupported)
    }

    /// Calling as a function: declined by every kind of this runtime.
    pub fn function(&self, v: Value) -> (r: Result<Value, ValueError>)
        ensures
            r == Err::<Value, ValueError>(ValueError::OperationNotSupported),
    {
        let _ = v;
        Err(ValueError::OperationNotSupported)
    }
}

} // verus!
