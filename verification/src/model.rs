//! The mathematical model: each well-founded value denotes a finite tree.
//!
//! A value graph in the arena may in principle be made cyclic by mutation, so
//! the denotation is computed with a nesting budget (`fuel`).  A value whose
//! tree exists within a budget of one more than the number of cells is called
//! *grounded*: any deeper nesting necessarily revisits a cell, so a
//! non-grounded container reaches itself.  Deep operations (representation,
//! hashing, ordering) are specified over the trees of grounded values.

use vstd::prelude::*;
use crate::value::Value;
use crate::heap::CellModel;

verus! {

/// The denotation of a value: a finite tree of scalars and containers.
pub enum Tree {
    NoneVal,
    Bool(bool),
    Int(int),
    List(Seq<Tree>),
    Tuple(Seq<Tree>),
}

/// The tree denoted by `v`, if it exists within a nesting budget of `fuel`.
pub open spec fn tree_of(cells: Seq<CellModel>, v: Value, fuel: nat) -> Option<Tree>
    decreases fuel, 0int, 0int,
{
    match v {
        Value::NoneVal => Some(Tree::NoneVal),
        Value::Bool(b) => Some(Tree::Bool(b)),
        Value::Int(i) => Some(Tree::Int(i as int)),
        Value::Ref(i) => {
            if fuel == 0 {
                None
            } else if i < cells.len() {
                match trees_of(cells, cells[i as int].content, (fuel - 1) as nat) {
                    Some(ts) => Some(
                        if cells[i as int].is_tuple {
                            Tree::Tuple(ts)
                        } else {
                            Tree::List(ts)
                        },
                    ),
                    None => None,
                }
            } else {
                None
            }
        },
    }
}

/// The trees denoted by a sequence of values, if all exist within `fuel`.
pub open spec fn trees_of(cells: Seq<CellModel>, items: Seq<Value>, fuel: nat) -> Option<Seq<Tree>>
    decreases fuel, 1int, items.len(),
{
    if items.len() == 0 {
        Some(Seq::empty())
    } else {
        match (tree_of(cells, items[0], fuel), trees_of(cells, items.drop_first(), fuel)) {
            (Some(t), Some(ts)) => Some(seq![t] + ts),
            _ => None,
        }
    }
}

/// The canonical nesting budget: in a well-founded graph no simple chain of
/// containers is longer than the number of cells.
pub open spec fn ground_fuel(cells: Seq<CellModel>) -> nat {
    (cells.len() + 1) as nat
}

/// True when `v` denotes a finite tree.
pub open spec fn grounded(cells: Seq<CellModel>, v: Value) -> bool {
    tree_of(cells, v, ground_fuel(cells)) is Some
}

/// The tree denoted by a grounded value.
pub open spec fn tree(cells: Seq<CellModel>, v: Value) -> Tree {
    match tree_of(cells, v, ground_fuel(cells)) {
        Some(t) => t,
        None => Tree::NoneVal,
    }
}

/// The trees of the elements of the container cell `i`.
pub open spec fn item_trees(cells: Seq<CellModel>, i: int) -> Seq<Tree> {
    match trees_of(cells, cells[i].content, (ground_fuel(cells) - 1) as nat) {
        Some(ts) => ts,
        None => Seq::empty(),
    }
}

/// A tree exists within every budget at least as large as one it exists in.
pub proof fn lemma_tree_fuel_mono(cells: Seq<CellModel>, v: Value, f1: nat, f2: nat)
    requires
        f1 <= f2,
        tree_of(cells, v, f1) is Some,
    ensures
        tree_of(cells, v, f2) == tree_of(cells, v, f1),
    decreases f1, 0int, 0int,
{
    match v {
        Value::Ref(i) => {
            if i < cells.len() {
                lemma_trees_fuel_mono(cells, cells[i as int].content, (f1 - 1) as nat, (f2 - 1) as nat);
            }
        },
        _ => {},
    }
}

/// Sequence form of [`lemma_tree_fuel_mono`].
pub proof fn lemma_trees_fuel_mono(cells: Seq<CellModel>, items: Seq<Value>, f1: nat, f2: nat)
    requires
        f1 <= f2,
        trees_of(cells, items, f1) is Some,
    ensures
        trees_of(cells, items, f2) == trees_of(cells, items, f1),
    decreases f1, 1int, items.len(),
{
    if items.len() > 0 {
        lemma_tree_fuel_mono(cells, items[0], f1, f2);
        lemma_trees_fuel_mono(cells, items.drop_first(), f1, f2);
    }
}

/// Appending fresh cells to the heap leaves the trees of old values unchanged.
pub proof fn lemma_tree_extend(cells1: Seq<CellModel>, cells2: Seq<CellModel>, v: Value, fuel: nat)
    requires
        cells1.len() <= cells2.len(),
        forall|i: int| 0 <= i < cells1.len() ==> #[trigger] cells2[i] == cells1[i],
        tree_of(cells1, v, fuel) is Some,
    ensures
        tree_of(cells2, v, fuel) == tree_of(cells1, v, fuel),
    decreases fuel, 0int, 0int,
{
    match v {
        Value::Ref(i) => {
            if i < cells1.len() {
                lemma_trees_extend(cells1, cells2, cells1[i as int].content, (fuel - 1) as nat);
            }
        },
        _ => {},
    }
}

/// Sequence form of [`lemma_tree_extend`].
pub proof fn lemma_trees_extend(cells1: Seq<CellModel>, cells2: Seq<CellModel>, items: Seq<Value>, fuel: nat)
    requires
        cells1.len() <= cells2.len(),
        forall|i: int| 0 <= i < cells1.len() ==> #[trigger] cells2[i] == cells1[i],
        trees_of(cells1, items, fuel) is Some,
    ensures
        trees_of(cells2, items, fuel) == trees_of(cells1, items, fuel),
    decreases fuel, 1int, items.len(),
{
    if items.len() > 0 {
        lemma_tree_extend(cells1, cells2, items[0], fuel);
        lemma_trees_extend(cells1, cells2, items.drop_first(), fuel);
    }
}

/// When the trees of a sequence exist, they correspond pointwise to the values.
pub proof fn lemma_trees_of_index(cells: Seq<CellModel>, items: Seq<Value>, fuel: nat)
    requires
        trees_of(cells, items, fuel) is Some,
    ensures
        trees_of(cells, items, fuel)->Some_0.len() == items.len(),
        forall|k: int|
            0 <= k < items.len() ==> tree_of(cells, #[trigger] items[k], fuel)
                == Some(trees_of(cells, items, fuel)->Some_0[k]),
    decreases items.len(),
{
    if items.len() > 0 {
        lemma_trees_of_index(cells, items.drop_first(), fuel);
        let ts = trees_of(cells, items, fuel)->Some_0;
        let rest = trees_of(cells, items.drop_first(), fuel)->Some_0;
        assert forall|k: int| 0 <= k < items.len() implies tree_of(cells, #[trigger] items[k], fuel)
            == Some(ts[k]) by {
            if k > 0 {
                assert(items.drop_first()[k - 1] == items[k]);
                assert(ts[k] == rest[k - 1]);
            }
        }
    }
}

/// The trees of a concatenation are the concatenated trees.
pub proof fn lemma_trees_of_concat(cells: Seq<CellModel>, s1: Seq<Value>, s2: Seq<Value>, fuel: nat)
    requires
        trees_of(cells, s1, fuel) is Some,
        trees_of(cells, s2, fuel) is Some,
    ensures
        trees_of(cells, s1 + s2, fuel) == Some(
            trees_of(cells, s1, fuel)->Some_0 + trees_of(cells, s2, fuel)->Some_0,
        ),
    decreases s1.len(),
{
    if s1.len() == 0 {
        assert(s1 + s2 =~= s2);
        assert(trees_of(cells, s1, fuel)->Some_0 + trees_of(cells, s2, fuel)->Some_0 =~= trees_of(
            cells,
            s2,
            fuel,
        )->Some_0);
    } else {
        assert((s1 + s2)[0] == s1[0]);
        assert((s1 + s2).drop_first() =~= s1.drop_first() + s2);
        lemma_trees_of_concat(cells, s1.drop_first(), s2, fuel);
        let t0 = tree_of(cells, s1[0], fuel)->Some_0;
        let r1 = trees_of(cells, s1.drop_first(), fuel)->Some_0;
        let r2 = trees_of(cells, s2, fuel)->Some_0;
        assert(trees_of(cells, s1 + s2, fuel) == Some(seq![t0] + (r1 + r2)));
        assert(seq![t0] + (r1 + r2) =~= (seq![t0] + r1) + r2);
        assert(trees_of(cells, s1, fuel)->Some_0 =~= seq![t0] + r1);
    }
}

/// `target` is the index of a container reachable from `v` along a chain of
/// at most `k` containment edges.
pub open spec fn reaches(cells: Seq<CellModel>, v: Value, target: int, k: nat) -> bool
    decreases k,
{
    match v {
        Value::Ref(i) => i < cells.len() && (i == target || (k > 0 && exists|m: int|
            0 <= m < cells[i as int].content.len() && reaches(
                cells,
                #[trigger] cells[i as int].content[m],
                target,
                (k - 1) as nat,
            ))),
        _ => false,
    }
}

/// The container cell `x` is reachable from `v` along some containment chain.
pub open spec fn reachable(cells: Seq<CellModel>, v: Value, x: int) -> bool {
    exists|k: nat| reaches(cells, v, x, k)
}

/// One containment edge extends a reachability chain.
pub proof fn lemma_reaches_step(cells: Seq<CellModel>, v: Value, i: int, m: int, k: nat)
    requires
        reaches(cells, v, i, k),
        0 <= i < cells.len(),
        0 <= m < cells[i].content.len(),
        cells[i].content[m] is Ref,
        cells[i].content[m].ref_index() < cells.len(),
    ensures
        reaches(cells, v, cells[i].content[m].ref_index(), (k + 1) as nat),
    decreases k,
{
    match v {
        Value::Ref(j) => {
            if j == i {
                assert(reaches(cells, cells[i].content[m], cells[i].content[m].ref_index(), k));
            } else {
                let m0 = choose|m0: int|
                    0 <= m0 < cells[j as int].content.len() && reaches(
                        cells,
                        #[trigger] cells[j as int].content[m0],
                        i,
                        (k - 1) as nat,
                    );
                lemma_reaches_step(cells, cells[j as int].content[m0], i, m, (k - 1) as nat);
            }
        },
        _ => {},
    }
}

} // verus!
