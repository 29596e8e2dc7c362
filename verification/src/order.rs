use vstd::prelude::*;

use crate::value::{lemma_models_of, lemma_size_seq_element, models_of, size, size_seq, Value,
    ValueModel};

verus! {

/// Outcome of a three-way comparison.
#[derive(Clone, Copy, PartialEq, Eq, Structural, Debug)]
pub enum Cmp {
    Lt,
    Eq,
    Gt,
}

/// The opposite outcome: swapping the operands of a comparison flips it.
pub open spec fn flip(c: Cmp) -> Cmp {
    match c {
        Cmp::Lt => Cmp::Gt,
        Cmp::Eq => Cmp::Eq,
        Cmp::Gt => Cmp::Lt,
    }
}

/// A singleton sequence holds exactly the nodes of its one element.
pub proof fn lemma_size_singleton(v: ValueModel)
    ensures
        size_seq(seq![v]) == size(v),
{
    let s = seq![v];
    assert(s.subrange(1, 1) =~= Seq::<ValueModel>::empty());
    assert(size_seq(s) == size(s[0]) + size_seq(s.subrange(1, 1)));
}

/// Three-way comparison of two model trees:
/// numbers compare numerically; a number against a list is promoted to a
/// singleton list; lists compare elementwise, a strict prefix sorting first.
pub open spec fn cmp_model(a: ValueModel, b: ValueModel) -> Cmp
    decreases size(a) + size(b), 0int,
{
    match (a, b) {
        (ValueModel::Number(x), ValueModel::Number(y)) => if x < y {
            Cmp::Lt
        } else if x == y {
            Cmp::Eq
        } else {
            Cmp::Gt
        },
        (ValueModel::Number(x), ValueModel::List(ys)) => {
            proof {
                lemma_size_singleton(ValueModel::Number(x));
            }
            cmp_seq_model(seq![ValueModel::Number(x)], ys)
        },
        (ValueModel::List(xs), ValueModel::Number(y)) => {
            proof {
                lemma_size_singleton(ValueModel::Number(y));
            }
            cmp_seq_model(xs, seq![ValueModel::Number(y)])
        },
        (ValueModel::List(xs), ValueModel::List(ys)) => cmp_seq_model(xs, ys),
    }
}

/// Elementwise comparison of two sequences of model trees.
pub open spec fn cmp_seq_model(x: Seq<ValueModel>, y: Seq<ValueModel>) -> Cmp
    decreases size_seq(x) + size_seq(y), 1int,
{
    if x.len() == 0 && y.len() == 0 {
        Cmp::Eq
    } else if x.len() == 0 {
        Cmp::Lt
    } else if y.len() == 0 {
        Cmp::Gt
    } else if cmp_model(x[0], y[0]) == Cmp::Eq {
        proof {
            crate::value::lemma_size_pos(x[0]);
            crate::value::lemma_size_pos(y[0]);
        }
        cmp_seq_model(x.subrange(1, x.len() as int), y.subrange(1, y.len() as int))
    } else {
        cmp_model(x[0], y[0])
    }
}

/// `a` sorts strictly before `b`.
pub open spec fn lt_model(a: ValueModel, b: ValueModel) -> bool {
    cmp_model(a, b) == Cmp::Lt
}

/// `a` sorts no later than `b`.
pub open spec fn le_model(a: ValueModel, b: ValueModel) -> bool {
    cmp_model(a, b) != Cmp::Gt
}

/// Comparing in one direction determines the other direction: the order is
/// antisymmetric, and together with the three-valued result this means that
/// for any `a` and `b` exactly one of `a < b`, `a == b`, `b < a` holds.
pub proof fn lemma_cmp_antisym(a: ValueModel, b: ValueModel)
    ensures
        cmp_model(b, a) == flip(cmp_model(a, b)),
    decreases size(a) + size(b), 0int,
{
    match (a, b) {
        (ValueModel::Number(x), ValueModel::Number(y)) => {},
        (ValueModel::Number(x), ValueModel::List(ys)) => {
            lemma_size_singleton(ValueModel::Number(x));
            lemma_cmp_seq_antisym(seq![ValueModel::Number(x)], ys);
        },
        (ValueModel::List(xs), ValueModel::Number(y)) => {
            lemma_size_singleton(ValueModel::Number(y));
            lemma_cmp_seq_antisym(xs, seq![ValueModel::Number(y)]);
        },
        (ValueModel::List(xs), ValueModel::List(ys)) => {
            lemma_cmp_seq_antisym(xs, ys);
        },
    }
}

/// Antisymmetry of the elementwise comparison.
pub proof fn lemma_cmp_seq_antisym(x: Seq<ValueModel>, y: Seq<ValueModel>)
    ensures
        cmp_seq_model(y, x) == flip(cmp_seq_model(x, y)),
    decreases size_seq(x) + size_seq(y), 1int,
{
    if x.len() > 0 && y.len() > 0 {
        crate::value::lemma_size_pos(x[0]);
        crate::value::lemma_size_pos(y[0]);
        lemma_cmp_antisym(x[0], y[0]);
        lemma_cmp_seq_antisym(x.subrange(1, x.len() as int), y.subrange(1, y.len() as int));
    }
}

/// Comparison of a tree with itself reports equality.
pub proof fn lemma_cmp_refl(a: ValueModel)
    ensures
        cmp_model(a, a) == Cmp::Eq,
    decreases size(a), 0int,
{
    match a {
        ValueModel::Number(_) => {},
        ValueModel::List(xs) => {
            lemma_cmp_seq_refl(xs);
        },
    }
}

/// Reflexivity of the elementwise comparison.
pub proof fn lemma_cmp_seq_refl(x: Seq<ValueModel>)
    ensures
        cmp_seq_model(x, x) == Cmp::Eq,
    decreases size_seq(x), 1int,
{
    if x.len() > 0 {
        crate::value::lemma_size_pos(x[0]);
        lemma_cmp_refl(x[0]);
        lemma_cmp_seq_refl(x.subrange(1, x.len() as int));
    }
}

/// Transitivity of the order: chains of `=` and `<` compose as expected.
pub proof fn lemma_cmp_trans(a: ValueModel, b: ValueModel, c: ValueModel)
    ensures
        cmp_model(a, b) == Cmp::Eq && cmp_model(b, c) == Cmp::Eq ==> cmp_model(a, c) == Cmp::Eq,
        cmp_model(a, b) == Cmp::Lt && cmp_model(b, c) != Cmp::Gt ==> cmp_model(a, c) == Cmp::Lt,
        cmp_model(a, b) != Cmp::Gt && cmp_model(b, c) == Cmp::Lt ==> cmp_model(a, c) == Cmp::Lt,
    decreases size(a) + size(b) + size(c), 0int,
{
    let sa = promote(a);
    let sb = promote(b);
    let sc = promote(c);
    if a is Number && b is Number && c is Number {
    } else {
        lemma_promote_size(a);
        lemma_promote_size(b);
        lemma_promote_size(c);
        lemma_cmp_promote(a, b);
        lemma_cmp_promote(b, c);
        lemma_cmp_promote(a, c);
        lemma_cmp_seq_trans(sa, sb, sc);
    }
}

/// The sequence a tree stands for in a list comparison: its own items for a
/// list, a singleton for a number.
pub open spec fn promote(a: ValueModel) -> Seq<ValueModel> {
    match a {
        ValueModel::Number(_) => seq![a],
        ValueModel::List(items) => items,
    }
}

/// Promotion never grows the node count, and shrinks it for lists.
pub proof fn lemma_promote_size(a: ValueModel)
    ensures
        size_seq(promote(a)) <= size(a),
        a is List ==> size_seq(promote(a)) < size(a),
{
    match a {
        ValueModel::Number(_) => {
            lemma_size_singleton(a);
        },
        ValueModel::List(_) => {},
    }
}

/// A comparison is the elementwise comparison of the promoted sides.
pub proof fn lemma_cmp_promote(a: ValueModel, b: ValueModel)
    ensures
        cmp_model(a, b) == cmp_seq_model(promote(a), promote(b)),
{
    match (a, b) {
        (ValueModel::Number(x), ValueModel::Number(y)) => {
            let sa = promote(a);
            let sb = promote(b);
            assert(sa.subrange(1, 1) =~= Seq::<ValueModel>::empty());
            assert(sb.subrange(1, 1) =~= Seq::<ValueModel>::empty());
            assert(cmp_seq_model(Seq::empty(), Seq::empty()) == Cmp::Eq);
        },
        _ => {},
    }
}

/// Transitivity of the elementwise comparison.
pub proof fn lemma_cmp_seq_trans(x: Seq<ValueModel>, y: Seq<ValueModel>, z: Seq<ValueModel>)
    ensures
        cmp_seq_model(x, y) == Cmp::Eq && cmp_seq_model(y, z) == Cmp::Eq ==> cmp_seq_model(x, z)
            == Cmp::Eq,
        cmp_seq_model(x, y) == Cmp::Lt && cmp_seq_model(y, z) != Cmp::Gt ==> cmp_seq_model(x, z)
            == Cmp::Lt,
        cmp_seq_model(x, y) != Cmp::Gt && cmp_seq_model(y, z) == Cmp::Lt ==> cmp_seq_model(x, z)
            == Cmp::Lt,
    decreases size_seq(x) + size_seq(y) + size_seq(z), 1int,
{
    if x.len() > 0 && y.len() > 0 && z.len() > 0 {
        crate::value::lemma_size_pos(x[0]);
        crate::value::lemma_size_pos(y[0]);
        crate::value::lemma_size_pos(z[0]);
        lemma_cmp_trans(x[0], y[0], z[0]);
        lemma_cmp_seq_trans(
            x.subrange(1, x.len() as int),
            y.subrange(1, y.len() as int),
            z.subrange(1, z.len() as int),
        );
    }
}

/// An empty list sorts before any non-empty list and equals the empty list.
pub proof fn lemma_empty_list(items: Seq<ValueModel>)
    ensures
        items.len() == 0 ==> cmp_model(ValueModel::List(Seq::empty()), ValueModel::List(items))
            == Cmp::Eq,
        items.len() > 0 ==> cmp_model(ValueModel::List(Seq::empty()), ValueModel::List(items))
            == Cmp::Lt,
{
}

/// Promotion equivalence: a number compares to a list exactly as the
/// singleton list holding it does.
pub proof fn lemma_promotion(n: u32, l: ValueModel)
    requires
        l is List,
    ensures
        cmp_model(ValueModel::Number(n), l) == cmp_model(
            ValueModel::List(seq![ValueModel::Number(n)]),
            l,
        ),
{
}

/// The packet order is a total order: any two trees compare in exactly one
/// way, comparing equal is symmetric, and strict order is transitive.
pub proof fn lemma_total_order(a: ValueModel, b: ValueModel, c: ValueModel)
    ensures
        lt_model(a, b) || cmp_model(a, b) == Cmp::Eq || lt_model(b, a),
        lt_model(a, b) ==> cmp_model(a, b) != Cmp::Eq && !lt_model(b, a),
        lt_model(b, a) ==> cmp_model(a, b) != Cmp::Eq && !lt_model(a, b),
        cmp_model(a, b) == Cmp::Eq <==> cmp_model(b, a) == Cmp::Eq,
        cmp_model(a, a) == Cmp::Eq,
        lt_model(a, b) && lt_model(b, c) ==> lt_model(a, c),
{
    lemma_cmp_antisym(a, b);
    lemma_cmp_refl(a);
    lemma_cmp_trans(a, b, c);
}

/// If the first `i` elements of two sequences compare equal, the elementwise
/// comparison is decided by the rest.
pub proof fn lemma_cmp_seq_prefix(x: Seq<ValueModel>, y: Seq<ValueModel>, i: int)
    requires
        0 <= i <= x.len(),
        i <= y.len(),
        forall|k: int| 0 <= k < i ==> cmp_model(x[k], y[k]) == Cmp::Eq,
    ensures
        cmp_seq_model(x, y) == cmp_seq_model(
            x.subrange(i, x.len() as int),
            y.subrange(i, y.len() as int),
        ),
    decreases i,
{
    if i == 0 {
        assert(x.subrange(0, x.len() as int) =~= x);
        assert(y.subrange(0, y.len() as int) =~= y);
    } else {
        let xt = x.subrange(1, x.len() as int);
        let yt = y.subrange(1, y.len() as int);
        assert(cmp_model(x[0], y[0]) == Cmp::Eq);
        lemma_cmp_seq_prefix(xt, yt, i - 1);
        assert(xt.subrange(i - 1, xt.len() as int) =~= x.subrange(i, x.len() as int));
        assert(yt.subrange(i - 1, yt.len() as int) =~= y.subrange(i, y.len() as int));
    }
}

/// Three-way comparison of two values under the packet order.
pub fn cmp_values(a: &Value, b: &Value) -> (r: Cmp)
    ensures
        r == cmp_model(a@, b@),
    decreases size(a@) + size(b@), 0int,
{
    match (a, b) {
        (Value::Number(x), Value::Number(y)) => {
            if x < y {
                Cmp::Lt
            } else if x == y {
                Cmp::Eq
            } else {
                Cmp::Gt
            }
        },
        (Value::Number(x), Value::List(ys)) => {
            let mut tmp: Vec<Value> = Vec::new();
            tmp.push(Value::Number(*x));
            proof {
                lemma_models_of(tmp@);
                assert(models_of(tmp@) =~= seq![ValueModel::Number(*x)]);
                lemma_size_singleton(ValueModel::Number(*x));
            }
            cmp_lists(&tmp, ys)
        },
        (Value::List(xs), Value::Number(y)) => {
            let mut tmp: Vec<Value> = Vec::new();
            tmp.push(Value::Number(*y));
            proof {
                lemma_models_of(tmp@);
                assert(models_of(tmp@) =~= seq![ValueModel::Number(*y)]);
                lemma_size_singleton(ValueModel::Number(*y));
            }
            cmp_lists(xs, &tmp)
        },
        (Value::List(xs), Value::List(ys)) => cmp_lists(xs, ys),
    }
}

/// Elementwise three-way comparison of two lists of values.
pub fn cmp_lists(xs: &Vec<Value>, ys: &Vec<Value>) -> (r: Cmp)
    ensures
        r == cmp_seq_model(models_of(xs@), models_of(ys@)),
    decreases size_seq(models_of(xs@)) + size_seq(models_of(ys@)), 1int,
{
    let ghost mx = models_of(xs@);
    let ghost my = models_of(ys@);
    proof {
        lemma_models_of(xs@);
        lemma_models_of(ys@);
    }
    let mut i: usize = 0;
    loop
        invariant
            0 <= i <= xs@.len(),
            i <= ys@.len(),
            mx == models_of(xs@),
            my == models_of(ys@),
            mx.len() == xs@.len(),
            my.len() == ys@.len(),
            forall|k: int| 0 <= k < i ==> mx[k] == xs@[k]@ && my[k] == ys@[k]@,
            forall|k: int| 0 <= k < i ==> cmp_model(mx[k], my[k]) == Cmp::Eq,
        decreases xs@.len() - i,
    {
        proof {
            lemma_models_of(xs@);
            lemma_models_of(ys@);
            lemma_cmp_seq_prefix(mx, my, i as int);
        }
        if i >= xs.len() || i >= ys.len() {
            proof {
                assert(mx.subrange(i as int, mx.len() as int).len() == mx.len() - i);
                assert(my.subrange(i as int, my.len() as int).len() == my.len() - i);
            }
            if xs.len() == ys.len() {
                return Cmp::Eq;
            } else if i >= xs.len() {
                return Cmp::Lt;
            } else {
                return Cmp::Gt;
            }
        }
        proof {
            lemma_size_seq_element(mx, i as int);
            lemma_size_seq_element(my, i as int);
        }
        let c = cmp_values(&xs[i], &ys[i]);
        proof {
            let xt = mx.subrange(i as int, mx.len() as int);
            let yt = my.subrange(i as int, my.len() as int);
            assert(xt[0] == mx[i as int] && yt[0] == my[i as int]);
            assert(xt.subrange(1, xt.len() as int) =~= mx.subrange(i + 1, mx.len() as int));
            assert(yt.subrange(1, yt.len() as int) =~= my.subrange(i + 1, my.len() as int));
        }
        match c {
            Cmp::Eq => {
                i = i + 1;
            },
            _ => {
                return c;
            },
        }
    }
}

} // verus!
