//! Cross-variant ordering, structural equality and hashing.

use vstd::prelude::*;
use core::cmp::Ordering;
use crate::value::{Value, ValueError};
use crate::heap::{Heap, is_container};
use crate::model::{Tree, tree_of, trees_of, grounded, tree, ground_fuel, item_trees};
use crate::model::{lemma_tree_fuel_mono, lemma_trees_of_index};

verus! {

/// The rank of a kind in the total cross-kind order.  Incompatible kinds
/// order by their type names (`"NoneType" < "boolean" < "int" < "list" <
/// "tuple"`), so ordering never fails on a type mismatch.
pub open spec fn kind_rank(t: Tree) -> int {
    match t {
        Tree::NoneVal => 0,
        Tree::Bool(_) => 1,
        Tree::Int(_) => 2,
        Tree::List(_) => 3,
        Tree::Tuple(_) => 4,
    }
}

/// Total structural order over trees: different kinds order by rank; equal
/// kinds compare by value, sequences lexicographically.
pub open spec fn cmp_tree(a: Tree, b: Tree) -> Ordering
    decreases a, 0int, 0int,
{
    if kind_rank(a) != kind_rank(b) {
        if kind_rank(a) < kind_rank(b) {
            Ordering::Less
        } else {
            Ordering::Greater
        }
    } else {
        match (a, b) {
            (Tree::Bool(x), Tree::Bool(y)) => if x == y {
                Ordering::Equal
            } else if !x {
                Ordering::Less
            } else {
                Ordering::Greater
            },
            (Tree::Int(x), Tree::Int(y)) => if x < y {
                Ordering::Less
            } else if x == y {
                Ordering::Equal
            } else {
                Ordering::Greater
            },
            (Tree::List(sa), Tree::List(sb)) => cmp_seq(sa, sb),
            (Tree::Tuple(sa), Tree::Tuple(sb)) => cmp_seq(sa, sb),
            _ => Ordering::Equal,
        }
    }
}

/// Lexicographic order: the first unequal pair decides; an exhausted strict
/// prefix compares less.
pub open spec fn cmp_seq(sa: Seq<Tree>, sb: Seq<Tree>) -> Ordering
    decreases sa, 1int, sb.len(),
{
    if sa.len() == 0 && sb.len() == 0 {
        Ordering::Equal
    } else if sa.len() == 0 {
        Ordering::Less
    } else if sb.len() == 0 {
        Ordering::Greater
    } else {
        match cmp_tree(sa[0], sb[0]) {
            Ordering::Equal => cmp_seq(sa.drop_first(), sb.drop_first()),
            o => o,
        }
    }
}

/// Two trees are structurally equal when they compare as equal.
pub open spec fn tree_eq(a: Tree, b: Tree) -> bool {
    cmp_tree(a, b) == Ordering::Equal
}

impl Heap {
    /// Whether `v` denotes a finite tree within the given nesting budget.
    fn check_value(&self, v: Value, fuel: u128) -> (ok: bool)
        requires
            self.inv(),
        ensures
            ok == (tree_of(self@, v, fuel as nat) is Some),
        decreases fuel, 0int, 0int,
    {
        match v {
            Value::Ref(i) => {
                if fuel == 0 {
                    return false;
                }
                if i >= self.cell_count() {
                    return false;
                }
                proof {
                    assert(self@[i as int].content.skip(0) =~= self@[i as int].content);
                }
                self.check_items(i, 0, fuel - 1)
            },
            _ => true,
        }
    }

    /// Whether every element of cell `i` from position `k` on denotes a
    /// finite tree within the budget.
    fn check_items(&self, i: usize, k: usize, fuel: u128) -> (ok: bool)
        requires
            self.inv(),
            i < self@.len(),
            k <= self@[i as int].content.len(),
        ensures
            ok == (trees_of(self@, self@[i as int].content.skip(k as int), fuel as nat) is Some),
        decreases fuel, 1int, self@[i as int].content.len() - k,
    {
        let content = self.cell_content(i);
        let ghost items = self@[i as int].content.skip(k as int);
        if k == content.len() {
            proof {
                assert(items =~= Seq::<Value>::empty());
            }
            return true;
        }
        proof {
            assert(items[0] == self@[i as int].content[k as int]);
            assert(self@[i as int].content.skip(k as int + 1) =~= items.drop_first());
        }
        if !self.check_value(content[k], fuel) {
            return false;
        }
        self.check_items(i, k + 1, fuel)
    }

    /// Structural comparison of two grounded values.
    fn cmp_values(&self, a: Value, b: Value, fuel: u128) -> (r: Ordering)
        requires
            self.inv(),
            tree_of(self@, a, fuel as nat) is Some,
            tree_of(self@, b, fuel as nat) is Some,
        ensures
            r == cmp_tree(
                tree_of(self@, a, fuel as nat)->Some_0,
                tree_of(self@, b, fuel as nat)->Some_0,
            ),
        decreases fuel, 0int, 0int,
    {
        match (a, b) {
            (Value::NoneVal, Value::NoneVal) => Ordering::Equal,
            (Value::Bool(x), Value::Bool(y)) => {
                if x == y {
                    Ordering::Equal
                } else if !x {
                    Ordering::Less
                } else {
                    Ordering::Greater
                }
            },
            (Value::Int(x), Value::Int(y)) => {
                if x < y {
                    Ordering::Less
                } else if x == y {
                    Ordering::Equal
                } else {
                    Ordering::Greater
                }
            },
            (Value::Ref(i), Value::Ref(j)) => {
                let ta = self.cell_is_tuple(i);
                let tb = self.cell_is_tuple(j);
                if !ta && tb {
                    Ordering::Less
                } else if ta && !tb {
                    Ordering::Greater
                } else {
                    proof {
                        assert(self@[i as int].content.skip(0) =~= self@[i as int].content);
                        assert(self@[j as int].content.skip(0) =~= self@[j as int].content);
                    }
                    self.cmp_items(i, j, 0, fuel - 1)
                }
            },
            _ => {
                let ra = self.kind_rank_of(a);
                let rb = self.kind_rank_of(b);
                if ra < rb {
                    Ordering::Less
                } else {
                    Ordering::Greater
                }
            },
        }
    }

    /// The rank of the kind of a valid value.
    fn kind_rank_of(&self, v: Value) -> (r: u8)
        requires
            self.inv(),
            v.valid(self@.len() as int),
        ensures
            forall|fuel: nat|
                tree_of(self@, v, fuel) is Some ==> r as int == kind_rank(
                    tree_of(self@, v, fuel)->Some_0,
                ),
    {
        match v {
            Value::NoneVal => 0,
            Value::Bool(_) => 1,
            Value::Int(_) => 2,
            Value::Ref(i) => if self.cell_is_tuple(i) {
                4
            } else {
                3
            },
        }
    }

    /// Lexicographic comparison of the elements of cells `i` and `j`, from
    /// position `k` on.
    fn cmp_items(&self, i: usize, j: usize, k: usize, fuel: u128) -> (r: Ordering)
        requires
            self.inv(),
            i < self@.len(),
            j < self@.len(),
            k <= self@[i as int].content.len(),
            k <= self@[j as int].content.len(),
            trees_of(self@, self@[i as int].content.skip(k as int), fuel as nat) is Some,
            trees_of(self@, self@[j as int].content.skip(k as int), fuel as nat) is Some,
        ensures
            r == cmp_seq(
                trees_of(self@, self@[i as int].content.skip(k as int), fuel as nat)->Some_0,
                trees_of(self@, self@[j as int].content.skip(k as int), fuel as nat)->Some_0,
            ),
        decreases fuel, 1int, self@[i as int].content.len() - k,
    {
        let ca = self.cell_content(i);
        let ghost items_a = self@[i as int].content.skip(k as int);
        let ghost items_b = self@[j as int].content.skip(k as int);
        let na = ca.len();
        let nb = self.cell_content(j).len();
        if k == na && k == nb {
            return Ordering::Equal;
        }
        if k == na {
            return Ordering::Less;
        }
        if k == nb {
            return Ordering::Greater;
        }
        proof {
            assert(items_a[0] == self@[i as int].content[k as int]);
            assert(items_b[0] == self@[j as int].content[k as int]);
            assert(self@[i as int].content.skip(k as int + 1) =~= items_a.drop_first());
            assert(self@[j as int].content.skip(k as int + 1) =~= items_b.drop_first());
        }
        proof {
            let tsa = trees_of(self@, items_a, fuel as nat)->Some_0;
            let tsb = trees_of(self@, items_b, fuel as nat)->Some_0;
            let ta0 = tree_of(self@, items_a[0], fuel as nat)->Some_0;
            let tb0 = tree_of(self@, items_b[0], fuel as nat)->Some_0;
            let ra = trees_of(self@, items_a.drop_first(), fuel as nat)->Some_0;
            let rb = trees_of(self@, items_b.drop_first(), fuel as nat)->Some_0;
            assert(tsa =~= seq![ta0] + ra);
            assert(tsb =~= seq![tb0] + rb);
            assert(tsa[0] == ta0);
            assert(tsb[0] == tb0);
            assert(tsa.drop_first() =~= ra);
            assert(tsb.drop_first() =~= rb);
        }
        let cb = self.cell_content(j);
        let c = self.cmp_values(ca[k], cb[k], fuel);
        match c {
            Ordering::Equal => self.cmp_items(i, j, k + 1, fuel),
            _ => c,
        }
    }

    /// Total structural comparison: lexicographic between two containers of
    /// the same kind, by value between equal scalar kinds, and by the fixed
    /// kind order otherwise.  Only a container that reaches itself is
    /// rejected, as exceeding the nesting budget.
    pub fn compare(&self, a: Value, b: Value) -> (r: Result<Ordering, ValueError>)
        requires
            self.inv(),
            a.valid(self@.len() as int),
            b.valid(self@.len() as int),
        ensures
            match r {
                Ok(o) => {
                    &&& grounded(self@, a) && grounded(self@, b)
                    &&& o == cmp_tree(tree(self@, a), tree(self@, b))
                },
                Err(e) => {
                    &&& e == ValueError::TooManyRecursionLevel
                    &&& !(grounded(self@, a) && grounded(self@, b))
                },
            },
    {
        let fuel: u128 = self.cell_count() as u128 + 1;
        if !self.check_value(a, fuel) {
            return Err(ValueError::TooManyRecursionLevel);
        }
        if !self.check_value(b, fuel) {
            return Err(ValueError::TooManyRecursionLevel);
        }
        Ok(self.cmp_values(a, b, fuel))
    }

    /// Membership: true exactly when some element of the container compares
    /// structurally equal to `other`.
    pub fn is_in(&self, v: Value, other: Value) -> (r: Result<Value, ValueError>)
        requires
            self.inv(),
            v.valid(self@.len() as int),
            other.valid(self@.len() as int),
        ensures
            match r {
                Ok(x) => {
                    &&& is_container(self@, v) && grounded(self@, v) && grounded(self@, other)
                    &&& x == Value::Bool(
                        exists|k: int|
                            0 <= k < item_trees(self@, v.ref_index()).len() && tree_eq(
                                item_trees(self@, v.ref_index())[k],
                                tree(self@, other),
                            ),
                    )
                },
                Err(ValueError::OperationNotSupported) => !is_container(self@, v),
                Err(ValueError::TooManyRecursionLevel) => {
                    &&& is_container(self@, v)
                    &&& !(grounded(self@, v) && grounded(self@, other))
                },
                Err(_) => false,
            },
    {
        let i = match v {
            Value::Ref(i) => i,
            _ => {
                return Err(ValueError::OperationNotSupported);
            },
        };
        let fuel: u128 = self.cell_count() as u128 + 1;
        if !self.check_value(v, fuel) {
            return Err(ValueError::TooManyRecursionLevel);
        }
        if !self.check_value(other, fuel) {
            return Err(ValueError::TooManyRecursionLevel);
        }
        let ghost ts = item_trees(self@, v.ref_index());
        let ghost tb = tree(self@, other);
        proof {
            lemma_trees_of_index(self@, self@[i as int].content, (ground_fuel(self@) - 1) as nat);
        }
        let content = self.cell_content(i);
        let mut k: usize = 0;
        while k < content.len()
            invariant
                self.inv(),
                (i as int) < self@.len(),
                v == Value::Ref(i),
                content@ == self@[i as int].content,
                k <= content@.len(),
                grounded(self@, v),
                grounded(self@, other),
                fuel as nat == ground_fuel(self@),
                ts == item_trees(self@, v.ref_index()),
                tb == tree(self@, other),
                ts.len() == content@.len(),
                forall|m: int|
                    0 <= m < content@.len() ==> tree_of(
                        self@,
                        #[trigger] content@[m],
                        (ground_fuel(self@) - 1) as nat,
                    ) == Some(ts[m]),
                forall|m: int| 0 <= m < k ==> !tree_eq(#[trigger] ts[m], tb),
            decreases content@.len() - k,
        {
            proof {
                lemma_tree_fuel_mono(
                    self@,
                    content@[k as int],
                    (ground_fuel(self@) - 1) as nat,
                    ground_fuel(self@),
                );
            }
            let c = self.cmp_values(content[k], other, fuel);
            match c {
                Ordering::Equal => {
                    return Ok(Value::Bool(true));
                },
                _ => {},
            }
            k = k + 1;
        }
        Ok(Value::Bool(false))
    }
}

/// One step of the order-sensitive hash combination.
pub open spec fn mix(h: u64, x: u64) -> u64 {
    (((h as int) * 31 + (x as int)) % 0x1_0000_0000_0000_0000) as u64
}

/// The structural hash of a tree: scalars hash canonically, containers
/// combine the hashes of their elements in order, so that permuting elements
/// changes the hash; lists and tuples start from different seeds.
pub open spec fn hash_of(t: Tree) -> u64
    decreases t, 0int, 0int,
{
    match t {
        Tree::NoneVal => 3,
        Tree::Bool(b) => if b {
            1
        } else {
            0
        },
        Tree::Int(i) => ((i as int) % 0x1_0000_0000_0000_0000) as u64,
        Tree::List(ts) => hash_of_seq(ts, 7),
        Tree::Tuple(ts) => hash_of_seq(ts, 11),
    }
}

/// Fold of [`mix`] over the hashes of a sequence of trees, in order.
pub open spec fn hash_of_seq(ts: Seq<Tree>, acc: u64) -> u64
    decreases ts, 1int, ts.len(),
{
    if ts.len() == 0 {
        acc
    } else {
        hash_of_seq(ts.drop_first(), mix(acc, hash_of(ts[0])))
    }
}

/// One step of the order-sensitive hash combination.
fn mix_exec(h: u64, x: u64) -> (r: u64)
    ensures
        r == mix(h, x),
{
    let p: u128 = h as u128 * 31 + x as u128;
    (p % 0x1_0000_0000_0000_0000u128) as u64
}

impl Heap {
    /// The structural hash of a grounded value.
    fn hash_value(&self, v: Value, fuel: u128) -> (r: u64)
        requires
            self.inv(),
            tree_of(self@, v, fuel as nat) is Some,
        ensures
            r == hash_of(tree_of(self@, v, fuel as nat)->Some_0),
        decreases fuel, 0int, 0int,
    {
        match v {
            Value::NoneVal => 3,
            Value::Bool(b) => if b {
                1
            } else {
                0
            },
            Value::Int(i) => {
                let r: u64 = if i >= 0 {
                    i as u64
                } else {
                    (i as i128 + 0x1_0000_0000_0000_0000i128) as u64
                };
                proof {
                    if i < 0 {
                        assert((i as int) % 0x1_0000_0000_0000_0000 == (i as int)
                            + 0x1_0000_0000_0000_0000);
                    }
                }
                r
            },
            Value::Ref(i) => {
                let seed: u64 = if self.cell_is_tuple(i) {
                    11
                } else {
                    7
                };
                proof {
                    assert(self@[i as int].content.skip(0) =~= self@[i as int].content);
                }
                self.hash_items(i, 0, fuel - 1, seed)
            },
        }
    }

    /// Fold the element hashes of cell `i` from position `k` on into `acc`.
    fn hash_items(&self, i: usize, k: usize, fuel: u128, acc: u64) -> (r: u64)
        requires
            self.inv(),
            i < self@.len(),
            k <= self@[i as int].content.len(),
            trees_of(self@, self@[i as int].content.skip(k as int), fuel as nat) is Some,
        ensures
            r == hash_of_seq(
                trees_of(self@, self@[i as int].content.skip(k as int), fuel as nat)->Some_0,
                acc,
            ),
        decreases fuel, 1int, self@[i as int].content.len() - k,
    {
        let content = self.cell_content(i);
        let ghost items = self@[i as int].content.skip(k as int);
        if k == content.len() {
            proof {
                assert(items =~= Seq::<Value>::empty());
            }
            return acc;
        }
        proof {
            assert(items[0] == self@[i as int].content[k as int]);
            assert(self@[i as int].content.skip(k as int + 1) =~= items.drop_first());
            let t0 = tree_of(self@, items[0], fuel as nat)->Some_0;
            let rest = trees_of(self@, items.drop_first(), fuel as nat)->Some_0;
            let ts = trees_of(self@, items, fuel as nat)->Some_0;
            assert(ts =~= seq![t0] + rest);
            assert(ts[0] == t0);
            assert(ts.drop_first() =~= rest);
        }
        let h = self.hash_value(content[k], fuel);
        let acc2 = mix_exec(acc, h);
        self.hash_items(i, k + 1, fuel, acc2)
    }

    /// The structural hash of `v`: element hashes combine in order, and the
    /// hash of a container exists exactly when the value is grounded — a
    /// failure from a contained element propagates instead of being replaced
    /// by a default.
    pub fn get_hash(&self, v: Value) -> (r: Result<u64, ValueError>)
        requires
            self.inv(),
            v.valid(self@.len() as int),
        ensures
            match r {
                Ok(h) => grounded(self@, v) && h == hash_of(tree(self@, v)),
                Err(e) => e == ValueError::TooManyRecursionLevel && !grounded(self@, v),
            },
    {
        let fuel: u128 = self.cell_count() as u128 + 1;
        if !self.check_value(v, fuel) {
            return Err(ValueError::TooManyRecursionLevel);
        }
        Ok(self.hash_value(v, fuel))
    }
}

} // verus!
