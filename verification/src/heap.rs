//! The arena that owns every container payload, and the payload types.

use vstd::prelude::*;
use crate::value::{Value, all_valid};
use crate::model::{reaches, reachable};

verus! {

/// An ordered, mutable, freezable sequence of values: the list payload.
pub struct List {
    /// Once set, never cleared: the payload declines every further mutation.
    pub frozen: bool,
    /// The elements, in insertion order.
    pub content: Vec<Value>,
}

/// An ordered, immutable-by-construction sequence of values: the tuple
/// payload.  Slicing a list yields a tuple, never a mutable alias.
pub struct Tuple {
    /// Deep-freeze marker: set when the tuple is reached by a freeze, so that
    /// the frozen-closure invariant can propagate through tuples.  The tuple
    /// itself declines mutation whether or not this is set.
    pub frozen: bool,
    /// The elements, in order.
    pub content: Vec<Value>,
}

/// A heap cell: one container payload.
pub enum Cell {
    ListCell(List),
    TupleCell(Tuple),
}

/// The mathematical shape of one cell.
pub struct CellModel {
    pub is_tuple: bool,
    pub frozen: bool,
    pub content: Seq<Value>,
}

impl View for Cell {
    type V = CellModel;

    open spec fn view(&self) -> CellModel {
        match self {
            Cell::ListCell(l) => CellModel { is_tuple: false, frozen: l.frozen, content: l.content@ },
            Cell::TupleCell(t) => CellModel { is_tuple: true, frozen: t.frozen, content: t.content@ },
        }
    }
}

/// The arena owning every container payload of one evaluation context.
///
/// A `Value::Ref(i)` denotes the payload `cells[i]`; copying the handle adds
/// a holder without copying the payload, and a mutation through one holder is
/// visible through all of them.
pub struct Heap {
    pub cells: Vec<Cell>,
}

/// Well-formedness of a heap model: no cell holds a dangling handle, and the
/// frozen cells are closed under containment — every container reachable from
/// a frozen payload is itself frozen, so the top-level flag alone is
/// authoritative for gating mutation.
pub open spec fn cells_wf(cells: Seq<CellModel>) -> bool {
    &&& forall|i: int| 0 <= i < cells.len() ==> all_valid(#[trigger] cells[i].content, cells.len() as int)
    &&& forall|i: int, k: int|
        0 <= i < cells.len() && cells[i].frozen && 0 <= k < cells[i].content.len()
            && #[trigger] cells[i].content[k] is Ref
            ==> cells[cells[i].content[k].ref_index()].frozen
}

impl View for Heap {
    type V = Seq<CellModel>;

    open spec fn view(&self) -> Seq<CellModel> {
        self.cells@.map_values(|c: Cell| c@)
    }
}

/// The handle denotes a container payload of the heap.
pub open spec fn is_container(cells: Seq<CellModel>, v: Value) -> bool {
    v is Ref && v.ref_index() < cells.len()
}

/// The handle denotes a list payload.
pub open spec fn is_list(cells: Seq<CellModel>, v: Value) -> bool {
    is_container(cells, v) && !cells[v.ref_index()].is_tuple
}

/// The handle denotes a list payload that still accepts mutation.
pub open spec fn is_mutable_list(cells: Seq<CellModel>, v: Value) -> bool {
    is_list(cells, v) && !cells[v.ref_index()].frozen
}

/// The elements of the container payload `v` denotes.
pub open spec fn content_of(cells: Seq<CellModel>, v: Value) -> Seq<Value> {
    cells[v.ref_index()].content
}

/// Whether a value declines every mutating operation: scalars and tuples
/// always, a list once frozen.
pub open spec fn immutable_spec(cells: Seq<CellModel>, v: Value) -> bool {
    match v {
        Value::Ref(i) => cells[i as int].is_tuple || cells[i as int].frozen,
        _ => true,
    }
}

/// The language-level truth value: `None` and `False` are false, an integer
/// is true unless zero, a container is true unless empty.
pub open spec fn truth(cells: Seq<CellModel>, v: Value) -> bool {
    match v {
        Value::NoneVal => false,
        Value::Bool(b) => b,
        Value::Int(i) => i != 0,
        Value::Ref(i) => cells[i as int].content.len() > 0,
    }
}

/// The language-level type name of a value.
pub open spec fn kind_name(cells: Seq<CellModel>, v: Value) -> Seq<char> {
    match v {
        Value::NoneVal => "NoneType"@,
        Value::Bool(_) => "boolean"@,
        Value::Int(_) => "int"@,
        Value::Ref(i) => if cells[i as int].is_tuple {
            "tuple"@
        } else {
            "list"@
        },
    }
}

/// How many cells still lack the frozen mark; the measure that makes the
/// freeze traversal terminate.
pub open spec fn unfrozen_count(cells: Seq<CellModel>) -> nat
    decreases cells.len(),
{
    if cells.len() == 0 {
        0
    } else {
        unfrozen_count(cells.drop_last()) + if cells.last().frozen {
            0nat
        } else {
            1nat
        }
    }
}

/// After popping the last element, anything the stack held is either still
/// there or was the popped element.
proof fn lemma_popped_contains(s: Seq<usize>, s2: Seq<usize>, x: usize)
    requires
        s.len() > 0,
        s2 == s.subrange(0, s.len() - 1),
        s.contains(x),
    ensures
        s2.contains(x) || x == s[s.len() - 1],
{
    let p = choose|p: int| 0 <= p < s.len() && s[p] == x;
    if p < s.len() - 1 {
        assert(s2[p] == x);
        assert(s2.contains(x));
    }
}

/// Marking an unfrozen cell frozen strictly shrinks the measure.
proof fn lemma_unfrozen_count_update(cells: Seq<CellModel>, i: int, c: CellModel)
    requires
        0 <= i < cells.len(),
        !cells[i].frozen,
        c.frozen,
    ensures
        unfrozen_count(cells.update(i, c)) < unfrozen_count(cells),
    decreases cells.len(),
{
    let cells2 = cells.update(i, c);
    if i == cells.len() - 1 {
        assert(cells2.drop_last() =~= cells.drop_last());
    } else {
        assert(cells2.drop_last() =~= cells.drop_last().update(i, c));
        lemma_unfrozen_count_update(cells.drop_last(), i, c);
        assert(cells2.last() == cells.last());
    }
}

impl Heap {
    /// Well-formedness carried by every operation.
    pub open spec fn inv(&self) -> bool {
        cells_wf(self@)
    }

    /// Borrow the elements of cell `i`.
    pub(crate) fn cell_content(&self, i: usize) -> (r: &Vec<Value>)
        requires
            i < self@.len(),
        ensures
            r@ == self@[i as int].content,
    {
        match &self.cells[i] {
            Cell::ListCell(l) => &l.content,
            Cell::TupleCell(t) => &t.content,
        }
    }

    /// Whether cell `i` is a tuple payload.
    pub(crate) fn cell_is_tuple(&self, i: usize) -> (r: bool)
        requires
            i < self@.len(),
        ensures
            r == self@[i as int].is_tuple,
    {
        match &self.cells[i] {
            Cell::ListCell(_) => false,
            Cell::TupleCell(_) => true,
        }
    }

    /// Whether cell `i` carries the deep-freeze mark.
    pub(crate) fn cell_frozen(&self, i: usize) -> (r: bool)
        requires
            i < self@.len(),
        ensures
            r == self@[i as int].frozen,
    {
        match &self.cells[i] {
            Cell::ListCell(l) => l.frozen,
            Cell::TupleCell(t) => t.frozen,
        }
    }

    /// The language-level type name of `v`.
    pub fn get_type(&self, v: Value) -> (r: &'static str)
        requires
            v.valid(self@.len() as int),
        ensures
            r@ == kind_name(self@, v),
    {
        match v {
            Value::NoneVal => "NoneType",
            Value::Bool(_) => "boolean",
            Value::Int(_) => "int",
            Value::Ref(i) => if self.cell_is_tuple(i) {
                "tuple"
            } else {
                "list"
            },
        }
    }

    /// The truth value of `v`: a container is true exactly when non-empty.
    pub fn to_bool(&self, v: Value) -> (r: bool)
        requires
            v.valid(self@.len() as int),
        ensures
            r == truth(self@, v),
    {
        match v {
            Value::NoneVal => false,
            Value::Bool(b) => b,
            Value::Int(i) => i != 0,
            Value::Ref(i) => self.cell_content(i).len() > 0,
        }
    }

    /// Whether `v` declines mutation.  Freezing is eager and transitive, so
    /// this top-level test alone is authoritative for gating mutation.
    pub fn immutable(&self, v: Value) -> (r: bool)
        requires
            v.valid(self@.len() as int),
        ensures
            r == immutable_spec(self@, v),
    {
        match v {
            Value::Ref(i) => self.cell_is_tuple(i) || self.cell_frozen(i),
            _ => true,
        }
    }

    /// Set the deep-freeze mark of cell `i`.
    fn set_cell_frozen(&mut self, i: usize)
        requires
            i < old(self)@.len(),
        ensures
            final(self)@ == old(self)@.update(
                i as int,
                CellModel { frozen: true, ..old(self)@[i as int] },
            ),
    {
        match &mut self.cells[i] {
            Cell::ListCell(l) => l.frozen = true,
            Cell::TupleCell(t) => t.frozen = true,
        }
        proof {
            assert(self@ =~= old(self)@.update(
                i as int,
                CellModel { frozen: true, ..old(self)@[i as int] },
            ));
        }
    }

    /// One-way transition to the frozen state, propagated eagerly and
    /// recursively: the payload `v` denotes and every payload reachable from
    /// it through containment is marked, and nothing else changes.  Freezing
    /// a scalar is a no-op, and freezing twice is harmless.
    pub fn freeze(&mut self, v: Value)
        requires
            old(self).inv(),
            v.valid(old(self)@.len() as int),
        ensures
            final(self).inv(),
            final(self)@.len() == old(self)@.len(),
            forall|a: int|
                0 <= a < old(self)@.len() ==> (#[trigger] final(self)@[a]).content == old(
                    self,
                )@[a].content && final(self)@[a].is_tuple == old(self)@[a].is_tuple,
            forall|a: int|
                0 <= a < old(self)@.len() && old(self)@[a].frozen ==> (
                #[trigger] final(self)@[a]).frozen,
            v is Ref ==> final(self)@[v.ref_index()].frozen,
            forall|a: int|
                0 <= a < old(self)@.len() && (#[trigger] final(self)@[a]).frozen && !old(
                    self,
                )@[a].frozen ==> reachable(old(self)@, v, a),
    {
        let i0 = match v {
            Value::Ref(i0) => i0,
            _ => {
                return ;
            },
        };
        let ghost cells0 = self@;
        let mut stack: Vec<usize> = Vec::new();
        stack.push(i0);
        proof {
            assert(reaches(cells0, v, i0 as int, 0));
            assert(reachable(cells0, v, i0 as int));
            assert(stack@[0] == i0);
            assert(stack@.contains(i0));
            assert forall|p: int| 0 <= p < stack@.len() implies reachable(
                cells0,
                v,
                (#[trigger] stack@[p]) as int,
            ) by {
                assert(stack@[p] == i0);
            }
        }
        while stack.len() > 0
            invariant
                cells_wf(cells0),
                v == Value::Ref(i0),
                (i0 as int) < cells0.len(),
                self@.len() == cells0.len(),
                forall|a: int|
                    0 <= a < cells0.len() ==> (#[trigger] self@[a]).content == cells0[a].content
                        && self@[a].is_tuple == cells0[a].is_tuple,
                forall|a: int|
                    0 <= a < cells0.len() && cells0[a].frozen ==> (#[trigger] self@[a]).frozen,
                forall|p: int| 0 <= p < stack@.len() ==> (#[trigger] stack@[p]) < cells0.len(),
                forall|p: int|
                    0 <= p < stack@.len() ==> reachable(cells0, v, (#[trigger] stack@[p]) as int),
                forall|a: int|
                    0 <= a < cells0.len() && (#[trigger] self@[a]).frozen && !cells0[a].frozen
                        ==> reachable(cells0, v, a),
                self@[i0 as int].frozen || stack@.contains(i0),
                forall|a: int, c: int|
                    0 <= a < cells0.len() && (#[trigger] self@[a]).frozen && 0 <= c
                        < self@[a].content.len() && #[trigger] self@[a].content[c] is Ref ==> self@[
                        self@[a].content[c].ref_index()
                    ].frozen || stack@.contains(self@[a].content[c].ref_index() as usize),
            decreases unfrozen_count(self@), stack@.len(),
        {
            let ghost stack_before = stack@;
            let i = match stack.pop() {
                Some(i) => i,
                None => {
                    return ;
                },
            };
            proof {
                assert(stack_before[stack_before.len() - 1] == i);
                assert(reachable(cells0, v, i as int));
                assert forall|p: int| 0 <= p < stack@.len() implies reachable(
                    cells0,
                    v,
                    (#[trigger] stack@[p]) as int,
                ) by {
                    assert(stack@[p] == stack_before[p]);
                }
            }
            if !self.cell_frozen(i) {
                let ghost self_before = self@;
                proof {
                    lemma_unfrozen_count_update(
                        self@,
                        i as int,
                        CellModel { frozen: true, ..self@[i as int] },
                    );
                }
                self.set_cell_frozen(i);
                proof {
                    assert(reachable(cells0, v, i as int));
                    assert forall|a: int, cc: int|
                        0 <= a < cells0.len() && (#[trigger] self@[a]).frozen && 0 <= cc
                            < self@[a].content.len() && #[trigger] self@[a].content[cc] is Ref
                            && !(a == i as int && cc >= 0) implies self@[
                            self@[a].content[cc].ref_index()
                        ].frozen || stack@.contains(self@[a].content[cc].ref_index() as usize) by {
                        let x = self@[a].content[cc].ref_index();
                        assert(self_before[a].frozen);
                        if self_before[x].frozen {
                            assert(self@[x].frozen);
                        } else {
                            assert(stack_before.contains(x as usize));
                            lemma_popped_contains(stack_before, stack@, x as usize);
                            if x as usize == i {
                                assert(self@[x].frozen);
                            }
                        }
                    }
                    if !self@[i0 as int].frozen {
                        assert(!self_before[i0 as int].frozen);
                        assert(stack_before.contains(i0));
                        lemma_popped_contains(stack_before, stack@, i0);
                        assert(stack@.contains(i0));
                    }
                }
                let ghost reach_i: nat = choose|k: nat| reaches(cells0, v, i as int, k);
                let n = self.cell_content(i).len();
                let mut c: usize = 0;
                while c < n
                    invariant
                        cells_wf(cells0),
                        v == Value::Ref(i0),
                        (i0 as int) < cells0.len(),
                        self@.len() == cells0.len(),
                        (i as int) < cells0.len(),
                        n == self@[i as int].content.len(),
                        c <= n,
                        reaches(cells0, v, i as int, reach_i),
                        self@[i as int].frozen,
                        forall|a: int|
                            0 <= a < cells0.len() ==> (#[trigger] self@[a]).content
                                == cells0[a].content && self@[a].is_tuple == cells0[a].is_tuple,
                        forall|a: int|
                            0 <= a < cells0.len() && cells0[a].frozen ==> (
                            #[trigger] self@[a]).frozen,
                        forall|p: int|
                            0 <= p < stack@.len() ==> (#[trigger] stack@[p]) < cells0.len(),
                        forall|p: int|
                            0 <= p < stack@.len() ==> reachable(
                                cells0,
                                v,
                                (#[trigger] stack@[p]) as int,
                            ),
                        forall|a: int|
                            0 <= a < cells0.len() && (#[trigger] self@[a]).frozen
                                && !cells0[a].frozen ==> reachable(cells0, v, a),
                        self@[i0 as int].frozen || stack@.contains(i0),
                        forall|a: int, cc: int|
                            0 <= a < cells0.len() && (#[trigger] self@[a]).frozen && 0 <= cc
                                < self@[a].content.len() && #[trigger] self@[a].content[cc] is Ref
                                && !(a == i as int && cc >= c) ==> self@[
                                self@[a].content[cc].ref_index()
                            ].frozen || stack@.contains(self@[a].content[cc].ref_index() as usize),
                    decreases n - c,
                {
                    let ghost stack_b2 = stack@;
                    let child = self.cell_content(i)[c];
                    match child {
                        Value::Ref(cr) => {
                            proof {
                                assert(all_valid(cells0[i as int].content, cells0.len() as int));
                                assert(child.valid(cells0.len() as int));
                                crate::model::lemma_reaches_step(
                                    cells0,
                                    v,
                                    i as int,
                                    c as int,
                                    reach_i,
                                );
                            }
                            stack.push(cr);
                            proof {
                                assert(stack@[stack@.len() - 1] == cr);
                                assert(stack@.contains(cr));
                                assert forall|p: int| 0 <= p < stack@.len() implies (
                                #[trigger] stack@[p]) < cells0.len() by {
                                    if p < stack_b2.len() {
                                        assert(stack@[p] == stack_b2[p]);
                                    } else {
                                        assert(stack@[p] == cr);
                                    }
                                }
                                assert(reaches(cells0, v, cr as int, (reach_i + 1) as nat));
                                assert(reachable(cells0, v, cr as int));
                                assert forall|p: int| 0 <= p < stack@.len() implies reachable(
                                    cells0,
                                    v,
                                    (#[trigger] stack@[p]) as int,
                                ) by {
                                    if p < stack_b2.len() {
                                        assert(stack@[p] == stack_b2[p]);
                                    } else {
                                        assert(stack@[p] == cr);
                                    }
                                }
                                assert forall|x: usize| stack_b2.contains(x) implies stack@.contains(
                                    x,
                                ) by {
                                    let p = choose|p: int|
                                        0 <= p < stack_b2.len() && stack_b2[p] == x;
                                    assert(stack@[p] == x);
                                }
                            }
                        },
                        _ => {},
                    }
                    c = c + 1;
                }
            } else {
                proof {
                    assert forall|a: int, cc: int|
                        0 <= a < cells0.len() && (#[trigger] self@[a]).frozen && 0 <= cc
                            < self@[a].content.len() && #[trigger] self@[a].content[cc] is Ref implies self@[
                            self@[a].content[cc].ref_index()
                        ].frozen || stack@.contains(self@[a].content[cc].ref_index() as usize) by {
                        let x = self@[a].content[cc].ref_index();
                        if !self@[x].frozen {
                            assert(stack_before.contains(x as usize));
                            lemma_popped_contains(stack_before, stack@, x as usize);
                            assert(x as usize != i);
                        }
                    }
                    if !self@[i0 as int].frozen {
                        assert(stack_before.contains(i0));
                        lemma_popped_contains(stack_before, stack@, i0);
                        assert(i0 != i);
                    }
                }
            }
        }
    }

    /// An empty evaluation context.
    pub fn new() -> (r: Heap)
        ensures
            r.inv(),
            r@.len() == 0,
    {
        let h = Heap { cells: Vec::new() };
        proof {
            assert(h@ =~= Seq::<CellModel>::empty());
        }
        h
    }

    /// The number of container payloads allocated so far.
    pub fn cell_count(&self) -> (r: usize)
        ensures
            r == self@.len(),
    {
        proof {
            assert(self@.len() == self.cells@.len());
        }
        self.cells.len()
    }
}

} // verus!
