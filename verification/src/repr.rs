//! The language-literal form of a value: `to_str` and `to_repr`.

use vstd::prelude::*;
use vstd::string::StringExecFns;
use crate::value::{Value, ValueError};
use crate::heap::Heap;
use crate::model::{Tree, tree_of, trees_of, grounded, tree, ground_fuel};

verus! {

/// The character for one decimal digit.
pub open spec fn digit_char(d: int) -> char {
    if d == 0 {
        '0'
    } else if d == 1 {
        '1'
    } else if d == 2 {
        '2'
    } else if d == 3 {
        '3'
    } else if d == 4 {
        '4'
    } else if d == 5 {
        '5'
    } else if d == 6 {
        '6'
    } else if d == 7 {
        '7'
    } else if d == 8 {
        '8'
    } else {
        '9'
    }
}

/// The decimal digits of a non-negative integer, most significant first.
pub open spec fn dec_digits(n: int) -> Seq<char>
    decreases n,
{
    if n < 10 {
        seq![digit_char(n)]
    } else {
        dec_digits(n / 10).push(digit_char(n % 10))
    }
}

/// The decimal rendering of an integer, with a leading minus when negative.
pub open spec fn int_repr(i: int) -> Seq<char> {
    if i < 0 {
        seq!['-'] + dec_digits(-i)
    } else {
        dec_digits(i)
    }
}

/// The value of one decimal digit character.
pub open spec fn digit_val(c: char) -> int {
    if c == '0' {
        0
    } else if c == '1' {
        1
    } else if c == '2' {
        2
    } else if c == '3' {
        3
    } else if c == '4' {
        4
    } else if c == '5' {
        5
    } else if c == '6' {
        6
    } else if c == '7' {
        7
    } else if c == '8' {
        8
    } else {
        9
    }
}

/// The non-negative integer a sequence of decimal digits denotes.
pub open spec fn parse_dec(s: Seq<char>) -> int
    decreases s.len(),
{
    if s.len() == 0 {
        0
    } else {
        parse_dec(s.drop_last()) * 10 + digit_val(s.last())
    }
}

/// The integer an integer literal denotes: an optional leading minus, then
/// decimal digits.
pub open spec fn parse_int_literal(s: Seq<char>) -> int {
    if s.len() > 0 && s[0] == '-' {
        -parse_dec(s.drop_first())
    } else {
        parse_dec(s)
    }
}

/// The language-literal form of a tree: scalars render canonically, a list
/// as `[e0, e1, ...]` over the elements' literal forms, comma-space
/// separated with no trailing separator, and a tuple in parentheses with the
/// usual trailing comma for one element.
pub open spec fn repr_of(t: Tree) -> Seq<char>
    decreases t, 0int, 0int,
{
    match t {
        Tree::NoneVal => "None"@,
        Tree::Bool(b) => if b {
            "True"@
        } else {
            "False"@
        },
        Tree::Int(i) => int_repr(i),
        Tree::List(ts) => seq!['['] + repr_of_seq(ts) + seq![']'],
        Tree::Tuple(ts) => seq!['('] + repr_of_seq(ts) + (if ts.len() == 1 {
            seq![',', ')']
        } else {
            seq![')']
        }),
    }
}

/// The literal forms of a sequence of trees, comma-space separated.
pub open spec fn repr_of_seq(ts: Seq<Tree>) -> Seq<char>
    decreases ts, 1int, ts.len(),
{
    if ts.len() == 0 {
        Seq::empty()
    } else if ts.len() == 1 {
        repr_of(ts[0])
    } else {
        repr_of(ts[0]) + seq![',', ' '] + repr_of_seq(ts.drop_first())
    }
}

/// Append one decimal digit character.
fn push_digit(out: &mut String, d: u64)
    requires
        d < 10,
    ensures
        final(out)@ == old(out)@ + seq![digit_char(d as int)],
{
    proof {
        reveal_strlit("0");
        reveal_strlit("1");
        reveal_strlit("2");
        reveal_strlit("3");
        reveal_strlit("4");
        reveal_strlit("5");
        reveal_strlit("6");
        reveal_strlit("7");
        reveal_strlit("8");
        reveal_strlit("9");
    }
    if d == 0 {
        out.append("0");
    } else if d == 1 {
        out.append("1");
    } else if d == 2 {
        out.append("2");
    } else if d == 3 {
        out.append("3");
    } else if d == 4 {
        out.append("4");
    } else if d == 5 {
        out.append("5");
    } else if d == 6 {
        out.append("6");
    } else if d == 7 {
        out.append("7");
    } else if d == 8 {
        out.append("8");
    } else {
        out.append("9");
    }
    proof {
        assert(out@ =~= old(out)@ + seq![digit_char(d as int)]);
    }
}

/// Append the decimal digits of `n`.
fn push_dec_digits(out: &mut String, n: u64)
    ensures
        final(out)@ == old(out)@ + dec_digits(n as int),
    decreases n,
{
    if n >= 10 {
        push_dec_digits(out, n / 10);
        push_digit(out, n % 10);
        proof {
            assert(out@ =~= old(out)@ + dec_digits(n as int));
        }
    } else {
        push_digit(out, n);
    }
}

/// Append the decimal rendering of `i`.
fn push_int_repr(out: &mut String, i: i64)
    ensures
        final(out)@ == old(out)@ + int_repr(i as int),
{
    if i < 0 {
        proof {
            reveal_strlit("-");
        }
        out.append("-");
        let m: u64 = (-(i as i128)) as u64;
        push_dec_digits(out, m);
        proof {
            assert(out@ =~= old(out)@ + int_repr(i as int));
        }
    } else {
        push_dec_digits(out, i as u64);
    }
}

impl Heap {
    /// Append the literal form of `v`, within a nesting budget.
    fn repr_value(&self, v: Value, fuel: u128, out: &mut String) -> (ok: bool)
        requires
            self.inv(),
        ensures
            match tree_of(self@, v, fuel as nat) {
                Some(t) => ok && final(out)@ == old(out)@ + repr_of(t),
                None => !ok,
            },
        decreases fuel, 0int, 0int,
    {
        match v {
            Value::NoneVal => {
                out.append("None");
                true
            },
            Value::Bool(b) => {
                if b {
                    out.append("True");
                } else {
                    out.append("False");
                }
                true
            },
            Value::Int(i) => {
                push_int_repr(out, i);
                true
            },
            Value::Ref(i) => {
                if fuel == 0 {
                    return false;
                }
                if i >= self.cell_count() {
                    return false;
                }
                let is_tup = self.cell_is_tuple(i);
                let n = self.cell_content(i).len();
                proof {
                    reveal_strlit("[");
                    reveal_strlit("(");
                    reveal_strlit("]");
                    reveal_strlit(")");
                    reveal_strlit(",)");
                }
                if is_tup {
                    out.append("(");
                } else {
                    out.append("[");
                }
                proof {
                    assert(self@[i as int].content.skip(0) =~= self@[i as int].content);
                }
                let ok = self.repr_items(i, 0, fuel - 1, out);
                if !ok {
                    return false;
                }
                if is_tup {
                    if n == 1 {
                        out.append(",)");
                    } else {
                        out.append(")");
                    }
                } else {
                    out.append("]");
                }
                proof {
                    let ts = trees_of(self@, self@[i as int].content, (fuel - 1) as nat)->Some_0;
                    let t = tree_of(self@, v, fuel as nat)->Some_0;
                    assert(t == if is_tup {
                        Tree::Tuple(ts)
                    } else {
                        Tree::List(ts)
                    });
                    crate::model::lemma_trees_of_index(
                        self@,
                        self@[i as int].content,
                        (fuel - 1) as nat,
                    );
                    assert(ts.len() == n);
                    assert(out@ =~= old(out)@ + repr_of(t));
                }
                true
            },
        }
    }

    /// Append the literal forms of the elements of cell `i` from position
    /// `k` on, comma-space separated, within a nesting budget.
    fn repr_items(&self, i: usize, k: usize, fuel: u128, out: &mut String) -> (ok: bool)
        requires
            self.inv(),
            i < self@.len(),
            k <= self@[i as int].content.len(),
        ensures
            match trees_of(self@, self@[i as int].content.skip(k as int), fuel as nat) {
                Some(ts) => ok && final(out)@ == old(out)@ + repr_of_seq(ts),
                None => !ok,
            },
        decreases fuel, 1int, self@[i as int].content.len() - k,
    {
        let content = self.cell_content(i);
        let ghost items = self@[i as int].content.skip(k as int);
        if k == content.len() {
            proof {
                assert(items =~= Seq::<Value>::empty());
            }
            return true;
        }
        proof {
            assert(items[0] == self@[i as int].content[k as int]);
        }
        let ok = self.repr_value(content[k], fuel, out);
        if !ok {
            return false;
        }
        if k + 1 == content.len() {
            proof {
                assert(items.len() == 1);
                assert(items.drop_first() =~= Seq::<Value>::empty());
                match tree_of(self@, items[0], fuel as nat) {
                    Some(t) => {
                        let ts = trees_of(self@, items, fuel as nat)->Some_0;
                        assert(ts =~= seq![t]);
                        assert(repr_of_seq(ts) == repr_of(t));
                        assert(out@ =~= old(out)@ + repr_of_seq(ts));
                    },
                    None => {},
                }
            }
            return true;
        }
        proof {
            reveal_strlit(", ");
        }
        out.append(", ");
        let ghost mid = out@;
        let ok2 = self.repr_items(i, k + 1, fuel, out);
        proof {
            assert(self@[i as int].content.skip(k as int + 1) =~= items.drop_first());
        }
        if !ok2 {
            return false;
        }
        proof {
            let t0 = tree_of(self@, items[0], fuel as nat)->Some_0;
            let rest = trees_of(self@, items.drop_first(), fuel as nat)->Some_0;
            let ts = trees_of(self@, items, fuel as nat)->Some_0;
            assert(ts =~= seq![t0] + rest);
            assert(ts.len() >= 2);
            assert(ts[0] == t0);
            assert(ts.drop_first() =~= rest);
            assert(repr_of_seq(ts) == repr_of(ts[0]) + seq![',', ' '] + repr_of_seq(ts.drop_first()));
            assert(out@ =~= old(out)@ + repr_of_seq(ts));
        }
        true
    }

    /// The language-literal form of `v`: a grounded value renders as a
    /// literal of the language; a container that reaches itself is reported
    /// as exceeding the nesting budget.
    pub fn to_repr(&self, v: Value) -> (r: Result<String, ValueError>)
        requires
            self.inv(),
            v.valid(self@.len() as int),
        ensures
            match r {
                Ok(s) => grounded(self@, v) && s@ == repr_of(tree(self@, v)),
                Err(e) => e == ValueError::TooManyRecursionLevel && !grounded(self@, v),
            },
    {
        let fuel: u128 = self.cell_count() as u128 + 1;
        let mut s = String::new();
        let ok = self.repr_value(v, fuel, &mut s);
        if ok {
            Ok(s)
        } else {
            Err(ValueError::TooManyRecursionLevel)
        }
    }

    /// The human-readable form of `v`; for every kind of this runtime it
    /// coincides with the literal form.
    pub fn to_str(&self, v: Value) -> (r: Result<String, ValueError>)
        requires
            self.inv(),
            v.valid(self@.len() as int),
        ensures
            match r {
                Ok(s) => grounded(self@, v) && s@ == repr_of(tree(self@, v)),
                Err(e) => e == ValueError::TooManyRecursionLevel && !grounded(self@, v),
            },
    {
        self.to_repr(v)
    }
}

} // verus!
