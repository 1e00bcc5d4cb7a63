//! The laws of the runtime, stated and proved once and for all values.

use vstd::prelude::*;
use vstd::arithmetic::div_mod::lemma_fundamental_div_mod;
use core::cmp::Ordering;
use crate::value::Value;
use crate::heap::{CellModel, cells_wf, is_container, is_list, is_mutable_list, content_of, immutable_spec};
use crate::model::{Tree, tree_of, trees_of, grounded, tree, ground_fuel, item_trees, reaches};
use crate::model::{lemma_trees_fuel_mono, lemma_trees_extend, lemma_trees_of_concat};
use crate::list::{repeat_seq, new_list_cell};
use crate::repr::{repr_of, repr_of_seq, dec_digits, digit_char, digit_val, int_repr, parse_dec, parse_int_literal};
use crate::cmp::{cmp_tree, cmp_seq};

verus! {

/// Freeze propagation: in a well-formed heap, once a container is frozen
/// every container it directly holds — a nested list `m` in particular — is
/// frozen too, so an in-place update of either fails with
/// `CannotMutateImmutableValue` by the contract of `set_at`.
pub proof fn lemma_freeze_propagates(cells: Seq<CellModel>, l: Value, m: Value)
    requires
        cells_wf(cells),
        is_container(cells, l),
        cells[l.ref_index()].frozen,
        content_of(cells, l).contains(m),
        m is Ref,
    ensures
        m.ref_index() < cells.len(),
        cells[m.ref_index()].frozen,
        !is_mutable_list(cells, l),
        !is_mutable_list(cells, m),
        immutable_spec(cells, l),
        immutable_spec(cells, m),
{
    let i = l.ref_index();
    let k = choose|k: int| 0 <= k < cells[i].content.len() && cells[i].content[k] == m;
    assert(cells[i].content[k] is Ref);
    assert(crate::value::all_valid(cells[i].content, cells.len() as int));
    assert(cells[i].content[k].valid(cells.len() as int));
}

/// Deep freeze propagation: every container reachable from a frozen
/// container, at any depth, is itself frozen — the eager, recursive freeze
/// leaves nothing mutable behind.
pub proof fn lemma_freeze_propagates_deep(cells: Seq<CellModel>, v: Value, x: int, k: nat)
    requires
        cells_wf(cells),
        is_container(cells, v),
        cells[v.ref_index()].frozen,
        reaches(cells, v, x, k),
    ensures
        0 <= x < cells.len(),
        cells[x].frozen,
    decreases k,
{
    let i = v.ref_index();
    if i != x {
        let m = choose|m: int|
            0 <= m < cells[i].content.len() && reaches(
                cells,
                #[trigger] cells[i].content[m],
                x,
                (k - 1) as nat,
            );
        let child = cells[i].content[m];
        assert(child is Ref);
        assert(cells[child.ref_index()].frozen);
        lemma_freeze_propagates_deep(cells, child, x, (k - 1) as nat);
    }
}

/// The comma-space join of two non-empty element lists is the join of each,
/// separated once.
pub proof fn lemma_repr_seq_concat(sa: Seq<Tree>, sb: Seq<Tree>)
    requires
        sa.len() > 0,
        sb.len() > 0,
    ensures
        repr_of_seq(sa + sb) == repr_of_seq(sa) + seq![',', ' '] + repr_of_seq(sb),
    decreases sa.len(),
{
    assert((sa + sb)[0] == sa[0]);
    assert((sa + sb).drop_first() =~= sa.drop_first() + sb);
    if sa.len() == 1 {
        assert(sa.drop_first() + sb =~= sb);
        assert(repr_of_seq(sa + sb) =~= repr_of(sa[0]) + seq![',', ' '] + repr_of_seq(sb));
    } else {
        lemma_repr_seq_concat(sa.drop_first(), sb);
        assert(repr_of_seq(sa + sb) =~= repr_of_seq(sa) + seq![',', ' '] + repr_of_seq(sb));
    }
}

/// Order-preserving concatenation: after `add` pushes the fresh list cell
/// holding `A`'s elements followed by `B`'s, the result is grounded, its tree
/// is the concatenation of the element trees, and its representation is the
/// element-wise concatenation string — `A`'s rendered elements, then `B`'s,
/// inside one pair of brackets.
pub proof fn lemma_concat_repr(
    cells: Seq<CellModel>,
    cells2: Seq<CellModel>,
    a: Value,
    b: Value,
    r: Value,
)
    requires
        is_list(cells, a),
        is_list(cells, b),
        grounded(cells, a),
        grounded(cells, b),
        cells2 == cells.push(new_list_cell(content_of(cells, a) + content_of(cells, b))),
        r is Ref,
        r.ref_index() == cells.len(),
    ensures
        grounded(cells2, r),
        tree(cells2, r) == Tree::List(
            item_trees(cells, a.ref_index()) + item_trees(cells, b.ref_index()),
        ),
        repr_of(tree(cells2, r)) == seq!['['] + join_two(
            item_trees(cells, a.ref_index()),
            item_trees(cells, b.ref_index()),
        ) + seq![']'],
{
    let fa = (ground_fuel(cells) - 1) as nat;
    let ia = content_of(cells, a);
    let ib = content_of(cells, b);
    let ta = item_trees(cells, a.ref_index());
    let tb = item_trees(cells, b.ref_index());
    let f2 = (ground_fuel(cells2) - 1) as nat;
    lemma_trees_of_concat(cells, ia, ib, fa);
    lemma_trees_fuel_mono(cells, ia + ib, fa, f2);
    lemma_trees_extend(cells, cells2, ia + ib, f2);
    assert(cells2[r.ref_index()].content == ia + ib);
    assert(trees_of(cells2, ia + ib, f2) == Some(ta + tb));
    assert(tree_of(cells2, r, ground_fuel(cells2)) == Some(Tree::List(ta + tb)));
    if ta.len() > 0 && tb.len() > 0 {
        lemma_repr_seq_concat(ta, tb);
    } else if ta.len() == 0 {
        assert(ta + tb =~= tb);
    } else {
        assert(ta + tb =~= ta);
    }
}

/// The rendered element list of a concatenation: each side's join, with one
/// separator between them when both sides are non-empty.
pub open spec fn join_two(sa: Seq<Tree>, sb: Seq<Tree>) -> Seq<char> {
    if sa.len() == 0 {
        repr_of_seq(sb)
    } else if sb.len() == 0 {
        repr_of_seq(sa)
    } else {
        repr_of_seq(sa) + seq![',', ' '] + repr_of_seq(sb)
    }
}

/// A repetition has `n` times the length of what it repeats.
pub proof fn lemma_repeat_len<A>(s: Seq<A>, n: int)
    requires
        n >= 0,
    ensures
        repeat_seq(s, n).len() == n * s.len(),
    decreases n,
{
    let l = s.len() as int;
    if n > 0 {
        lemma_repeat_len(s, n - 1);
        assert(repeat_seq(s, n) == repeat_seq(s, n - 1) + s);
        assert(repeat_seq(s, n).len() == (n - 1) * l + l);
        assert((n - 1) * l + l == n * l) by (nonlinear_arith);
    } else {
        assert(repeat_seq(s, n).len() == 0);
        assert(0 * l == 0) by (nonlinear_arith);
    }
}

/// The trees of a repetition are the repetition of the trees.
pub proof fn lemma_trees_of_repeat(cells: Seq<CellModel>, items: Seq<Value>, n: int, fuel: nat)
    requires
        trees_of(cells, items, fuel) is Some,
    ensures
        trees_of(cells, repeat_seq(items, n), fuel) == Some(
            repeat_seq(trees_of(cells, items, fuel)->Some_0, n),
        ),
    decreases n,
{
    if n <= 0 {
        assert(repeat_seq(items, n) =~= Seq::<Value>::empty());
        assert(repeat_seq(trees_of(cells, items, fuel)->Some_0, n) =~= Seq::<Tree>::empty());
    } else {
        lemma_trees_of_repeat(cells, items, n - 1, fuel);
        lemma_trees_of_concat(cells, repeat_seq(items, n - 1), items, fuel);
    }
}

/// Repetition identity: after `mul` pushes the fresh list cell holding `A`'s
/// elements repeated `n` times, the result is grounded and its tree is the
/// `n`-fold repetition — empty for a non-positive count, `A * (n-1)` followed
/// by one copy of `A` otherwise, with `n * len(A)` elements.
pub proof fn lemma_repetition(
    cells: Seq<CellModel>,
    cells2: Seq<CellModel>,
    a: Value,
    n: int,
    r: Value,
)
    requires
        is_list(cells, a),
        grounded(cells, a),
        cells2 == cells.push(new_list_cell(repeat_seq(content_of(cells, a), n))),
        r is Ref,
        r.ref_index() == cells.len(),
    ensures
        grounded(cells2, r),
        tree(cells2, r) == Tree::List(repeat_seq(item_trees(cells, a.ref_index()), n)),
        n <= 0 ==> tree(cells2, r) == Tree::List(Seq::<Tree>::empty()),
        n >= 0 ==> repeat_seq(item_trees(cells, a.ref_index()), n).len() == n * item_trees(
            cells,
            a.ref_index(),
        ).len(),
        n >= 1 ==> repeat_seq(item_trees(cells, a.ref_index()), n) == repeat_seq(
            item_trees(cells, a.ref_index()),
            n - 1,
        ) + item_trees(cells, a.ref_index()),
{
    let fa = (ground_fuel(cells) - 1) as nat;
    let ia = content_of(cells, a);
    let ta = item_trees(cells, a.ref_index());
    let f2 = (ground_fuel(cells2) - 1) as nat;
    lemma_trees_of_repeat(cells, ia, n, fa);
    lemma_trees_fuel_mono(cells, repeat_seq(ia, n), fa, f2);
    lemma_trees_extend(cells, cells2, repeat_seq(ia, n), f2);
    assert(cells2[r.ref_index()].content == repeat_seq(ia, n));
    assert(tree_of(cells2, r, ground_fuel(cells2)) == Some(Tree::List(repeat_seq(ta, n))));
    if n >= 0 {
        lemma_repeat_len(ta, n);
    }
}

/// Structural comparison is reflexive: every tree compares equal to itself.
pub proof fn lemma_cmp_tree_reflexive(t: Tree)
    ensures
        cmp_tree(t, t) == Ordering::Equal,
    decreases t, 0int, 0int,
{
    match t {
        Tree::List(ts) => lemma_cmp_seq_reflexive(ts),
        Tree::Tuple(ts) => lemma_cmp_seq_reflexive(ts),
        _ => {},
    }
}

/// Sequence form of [`lemma_cmp_tree_reflexive`].
pub proof fn lemma_cmp_seq_reflexive(ts: Seq<Tree>)
    ensures
        cmp_seq(ts, ts) == Ordering::Equal,
    decreases ts, 1int, ts.len(),
{
    if ts.len() > 0 {
        lemma_cmp_tree_reflexive(ts[0]);
        lemma_cmp_seq_reflexive(ts.drop_first());
    }
}

/// Lexicographic comparison: equal-length sequences whose elements compare
/// equal pairwise compare equal.
pub proof fn lemma_cmp_seq_pointwise_equal(sa: Seq<Tree>, sb: Seq<Tree>)
    requires
        sa.len() == sb.len(),
        forall|k: int| 0 <= k < sa.len() ==> cmp_tree(#[trigger] sa[k], sb[k]) == Ordering::Equal,
    ensures
        cmp_seq(sa, sb) == Ordering::Equal,
    decreases sa.len(),
{
    if sa.len() > 0 {
        assert(cmp_tree(sa[0], sb[0]) == Ordering::Equal);
        assert forall|k: int| 0 <= k < sa.drop_first().len() implies cmp_tree(
            #[trigger] sa.drop_first()[k],
            sb.drop_first()[k],
        ) == Ordering::Equal by {
            assert(sa.drop_first()[k] == sa[k + 1]);
            assert(sb.drop_first()[k] == sb[k + 1]);
        }
        lemma_cmp_seq_pointwise_equal(sa.drop_first(), sb.drop_first());
    }
}

/// Lexicographic comparison: a strict prefix compares less than the longer
/// sequence it starts.
pub proof fn lemma_cmp_seq_prefix_less(sa: Seq<Tree>, sb: Seq<Tree>)
    requires
        sa.len() < sb.len(),
        forall|k: int| 0 <= k < sa.len() ==> cmp_tree(#[trigger] sa[k], sb[k]) == Ordering::Equal,
    ensures
        cmp_seq(sa, sb) == Ordering::Less,
    decreases sa.len(),
{
    if sa.len() > 0 {
        assert(cmp_tree(sa[0], sb[0]) == Ordering::Equal);
        assert forall|k: int| 0 <= k < sa.drop_first().len() implies cmp_tree(
            #[trigger] sa.drop_first()[k],
            sb.drop_first()[k],
        ) == Ordering::Equal by {
            assert(sa.drop_first()[k] == sa[k + 1]);
            assert(sb.drop_first()[k] == sb[k + 1]);
        }
        lemma_cmp_seq_prefix_less(sa.drop_first(), sb.drop_first());
    }
}

/// The digits an integer renders to read back to the integer, and never start
/// with a minus sign.
pub proof fn lemma_parse_dec_digits(n: int)
    requires
        n >= 0,
    ensures
        parse_dec(dec_digits(n)) == n,
        dec_digits(n).len() >= 1,
        dec_digits(n)[0] != '-',
    decreases n,
{
    if n < 10 {
        assert(dec_digits(n) =~= seq![digit_char(n)]);
        assert(dec_digits(n).drop_last() =~= Seq::<char>::empty());
        assert(parse_dec(Seq::<char>::empty()) == 0);
        assert(digit_val(digit_char(n)) == n);
    } else {
        lemma_parse_dec_digits(n / 10);
        assert(dec_digits(n).drop_last() =~= dec_digits(n / 10));
        assert(dec_digits(n).last() == digit_char(n % 10));
        assert(digit_val(digit_char(n % 10)) == n % 10);
        lemma_fundamental_div_mod(n, 10);
        assert(dec_digits(n)[0] == dec_digits(n / 10)[0]);
    }
}

/// Round-trip, for the integer scalar kind: the literal form of an integer,
/// read back by the integer-literal rule, reproduces the integer.  The
/// literal-construction path for containers belongs to the evaluator outside
/// this runtime.
pub proof fn lemma_int_repr_round_trip(i: int)
    ensures
        parse_int_literal(int_repr(i)) == i,
{
    if i < 0 {
        lemma_parse_dec_digits(-i);
        assert(int_repr(i)[0] == '-');
        assert(int_repr(i).drop_first() =~= dec_digits(-i));
    } else {
        lemma_parse_dec_digits(i);
    }
}

/// An immutable slice result: the tuple a slice returns declines mutation by
/// construction, and an accepted in-place update of any list cell — the
/// source list in particular — leaves the tuple's element sequence untouched:
/// slicing never aliases the source.
pub proof fn lemma_slice_immutable(
    cells: Seq<CellModel>,
    cells2: Seq<CellModel>,
    t: Value,
    src: Value,
    j: int,
    x: Value,
)
    requires
        is_container(cells, t),
        cells[t.ref_index()].is_tuple,
        is_mutable_list(cells, src),
        cells2 == cells.update(
            src.ref_index(),
            new_list_cell(content_of(cells, src).update(j, x)),
        ),
    ensures
        immutable_spec(cells, t),
        !is_mutable_list(cells, t),
        content_of(cells2, t) == content_of(cells, t),
        cells2[t.ref_index()].is_tuple,
{
    assert(src.ref_index() != t.ref_index());
}

} // verus!
