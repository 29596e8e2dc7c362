use vstd::prelude::*;

use crate::order::{cmp_model, cmp_values, le_model, lemma_cmp_antisym, lemma_cmp_trans, Cmp};
use crate::value::{lemma_models_of, models_of, Value, ValueModel};

verus! {

/// The sequence is ordered: no later element sorts before an earlier one.
pub open spec fn sorted(s: Seq<ValueModel>) -> bool {
    forall|p: int, q: int| 0 <= p <= q < s.len() ==> le_model(s[p], s[q])
}

/// Where a stable insertion puts `x` into `s`: just before the first
/// element that sorts strictly after `x`, so after any equal elements.
pub open spec fn insert_pos(s: Seq<ValueModel>, x: ValueModel) -> int
    decreases s.len(),
{
    if s.len() == 0 {
        0
    } else if cmp_model(s[0], x) == Cmp::Gt {
        0
    } else {
        1 + insert_pos(s.subrange(1, s.len() as int), x)
    }
}

/// `s` with `x` inserted at its stable insertion position.
pub open spec fn insert_sorted(s: Seq<ValueModel>, x: ValueModel) -> Seq<ValueModel> {
    let p = insert_pos(s, x);
    s.subrange(0, p) + seq![x] + s.subrange(p, s.len() as int)
}

/// Stable insertion sort of a sequence of model trees.
pub open spec fn sort_spec(s: Seq<ValueModel>) -> Seq<ValueModel>
    decreases s.len(),
{
    if s.len() == 0 {
        Seq::empty()
    } else {
        insert_sorted(sort_spec(s.subrange(0, s.len() - 1)), s[s.len() - 1])
    }
}

/// The insertion position is the first spot whose element sorts after `x`.
pub proof fn lemma_insert_pos(s: Seq<ValueModel>, x: ValueModel)
    ensures
        0 <= insert_pos(s, x) <= s.len(),
        forall|k: int| 0 <= k < insert_pos(s, x) ==> cmp_model(s[k], x) != Cmp::Gt,
        insert_pos(s, x) < s.len() ==> cmp_model(s[insert_pos(s, x)], x) == Cmp::Gt,
    decreases s.len(),
{
    if s.len() > 0 && cmp_model(s[0], x) != Cmp::Gt {
        let t = s.subrange(1, s.len() as int);
        lemma_insert_pos(t, x);
        assert forall|k: int| 0 <= k < insert_pos(s, x) implies cmp_model(s[k], x) != Cmp::Gt by {
            if k > 0 {
                assert(t[k - 1] == s[k]);
            }
        }
    }
}

/// Any position with the first-element-after property is the insertion
/// position.
pub proof fn lemma_insert_pos_unique(s: Seq<ValueModel>, x: ValueModel, p: int)
    requires
        0 <= p <= s.len(),
        forall|k: int| 0 <= k < p ==> cmp_model(s[k], x) != Cmp::Gt,
        p < s.len() ==> cmp_model(s[p], x) == Cmp::Gt,
    ensures
        p == insert_pos(s, x),
    decreases s.len(),
{
    if s.len() > 0 && cmp_model(s[0], x) != Cmp::Gt {
        let t = s.subrange(1, s.len() as int);
        assert(p >= 1);
        lemma_insert_pos_unique(t, x, p - 1);
    }
}

/// Inserting into an ordered sequence keeps it ordered and shifts the rest.
pub proof fn lemma_insert_sorted(s: Seq<ValueModel>, x: ValueModel)
    requires
        sorted(s),
    ensures
        sorted(insert_sorted(s, x)),
        insert_sorted(s, x).len() == s.len() + 1,
{
    lemma_insert_pos(s, x);
    let p = insert_pos(s, x);
    let n = insert_sorted(s, x);
    assert forall|a: int, b: int| 0 <= a <= b < n.len() implies le_model(n[a], n[b]) by {
        if a == b {
            crate::order::lemma_cmp_refl(n[a]);
        } else if b < p {
            assert(n[a] == s[a] && n[b] == s[b]);
            assert(le_model(s[a], s[b]));
        } else if b == p {
            assert(n[a] == s[a] && n[b] == x);
            assert(cmp_model(s[a], x) != Cmp::Gt);
        } else {
            assert(n[b] == s[b - 1]);
            if a < p {
                assert(n[a] == s[a]);
                assert(le_model(s[a], s[b - 1]));
            } else if a == p {
                assert(n[a] == x);
                lemma_cmp_antisym(x, s[p]);
                if b - 1 > p {
                    assert(le_model(s[p], s[b - 1]));
                    lemma_cmp_trans(x, s[p], s[b - 1]);
                }
                assert(le_model(x, s[b - 1]));
            } else {
                assert(n[a] == s[a - 1]);
                assert(le_model(s[a - 1], s[b - 1]));
            }
        }
    }
}

/// What an insertion holds: the new element and everything already there.
pub proof fn lemma_insert_sorted_contains(s: Seq<ValueModel>, x: ValueModel, y: ValueModel)
    ensures
        insert_sorted(s, x).contains(y) <==> (s.contains(y) || y == x),
{
    lemma_insert_pos(s, x);
    let p = insert_pos(s, x);
    let n = insert_sorted(s, x);
    if n.contains(y) {
        let idx = choose|idx: int| 0 <= idx < n.len() && n[idx] == y;
        if idx < p {
            assert(s[idx] == y);
        } else if idx == p {
            assert(y == x);
        } else {
            assert(s[idx - 1] == y);
        }
    }
    if y == x {
        assert(n[p] == y);
    }
    if s.contains(y) {
        let idx = choose|idx: int| 0 <= idx < s.len() && s[idx] == y;
        if idx < p {
            assert(n[idx] == y);
        } else {
            assert(n[idx + 1] == y);
        }
    }
}

/// Sorting keeps exactly the elements of the input.
pub proof fn lemma_sort_contains(s: Seq<ValueModel>, y: ValueModel)
    ensures
        sort_spec(s).contains(y) <==> s.contains(y),
    decreases s.len(),
{
    if s.len() > 0 {
        let b = s.subrange(0, s.len() - 1);
        lemma_sort_contains(b, y);
        lemma_insert_sorted_contains(sort_spec(b), s[s.len() - 1], y);
        if s.contains(y) {
            let idx = choose|idx: int| 0 <= idx < s.len() && s[idx] == y;
            if idx < s.len() - 1 {
                assert(b[idx] == y);
            }
        }
        if b.contains(y) {
            let idx = choose|idx: int| 0 <= idx < b.len() && b[idx] == y;
            assert(s[idx] == y);
        }
    }
}

/// Sorting yields an ordered sequence of the same length.
pub proof fn lemma_sort_spec_sorted(s: Seq<ValueModel>)
    ensures
        sorted(sort_spec(s)),
        sort_spec(s).len() == s.len(),
    decreases s.len(),
{
    if s.len() > 0 {
        let b = s.subrange(0, s.len() - 1);
        lemma_sort_spec_sorted(b);
        lemma_insert_sorted(sort_spec(b), s[s.len() - 1]);
    }
}

/// Sorting an already ordered sequence gives the same sequence back.
pub proof fn lemma_sort_idempotent(s: Seq<ValueModel>)
    requires
        sorted(s),
    ensures
        sort_spec(s) == s,
    decreases s.len(),
{
    if s.len() > 0 {
        let b = s.subrange(0, s.len() - 1);
        let x = s[s.len() - 1];
        assert(sorted(b)) by {
            assert forall|p: int, q: int| 0 <= p <= q < b.len() implies le_model(b[p], b[q]) by {
                assert(b[p] == s[p] && b[q] == s[q]);
            }
        }
        lemma_sort_idempotent(b);
        assert forall|k: int| 0 <= k < b.len() implies cmp_model(b[k], x) != Cmp::Gt by {
            assert(b[k] == s[k]);
            assert(le_model(s[k], s[s.len() - 1]));
        }
        lemma_insert_pos_unique(b, x, b.len() as int);
        assert(insert_sorted(b, x) =~= s);
    }
}

/// Insert `x` into the ordered vector `out`, keeping it ordered and stable.
fn insert_value(out: &mut Vec<Value>, x: Value)
    ensures
        models_of(final(out)@) == insert_sorted(models_of(old(out)@), x@),
{
    let ghost ms = models_of(out@);
    proof {
        lemma_models_of(out@);
        lemma_insert_pos(ms, x@);
    }
    let mut p: usize = 0;
    let mut stop = false;
    while !stop
        invariant
            0 <= p <= out@.len(),
            ms == models_of(out@),
            ms.len() == out@.len(),
            forall|k: int| 0 <= k < ms.len() ==> ms[k] == out@[k]@,
            forall|k: int| 0 <= k < p ==> cmp_model(ms[k], x@) != Cmp::Gt,
            stop ==> (p == out@.len() || cmp_model(ms[p as int], x@) == Cmp::Gt),
        decreases out@.len() - p + (if stop { 0int } else { 1int }),
    {
        if p >= out.len() {
            stop = true;
        } else {
            let c = cmp_values(&out[p], &x);
            match c {
                Cmp::Gt => { stop = true; },
                _ => { p = p + 1; },
            }
        }
    }
    proof {
        lemma_insert_pos_unique(ms, x@, p as int);
    }
    let ghost before = out@;
    out.insert(p, x);
    proof {
        lemma_models_of(before);
        lemma_models_of(out@);
        assert(models_of(out@) =~= ms.subrange(0, p as int) + seq![x@] + ms.subrange(
            p as int,
            ms.len() as int,
        ));
    }
}

/// Sort values under the packet order, stably.
pub fn sort_values(v: Vec<Value>) -> (r: Vec<Value>)
    ensures
        models_of(r@) == sort_spec(models_of(v@)),
{
    let ghost orig = v@;
    let mut w = v;
    let total: usize = w.len();
    let mut out: Vec<Value> = Vec::new();
    let mut done: usize = 0;
    proof {
        lemma_models_of(out@);
        lemma_models_of(orig);
        lemma_models_of(orig.subrange(0, 0));
        assert(models_of(out@) =~= Seq::<ValueModel>::empty());
        assert(models_of(orig.subrange(0, 0)) =~= Seq::<ValueModel>::empty());
    }
    while w.len() > 0
        invariant
            orig.len() == total as int,
            0 <= done <= orig.len(),
            w@.len() == orig.len() - done,
            forall|k: int| 0 <= k < w@.len() ==> w@[k] == orig[done + k],
            models_of(out@) == sort_spec(models_of(orig.subrange(0, done as int))),
        decreases w@.len(),
    {
        proof {
            assert(done < orig.len());
        }
        let ghost wpre = w@;
        let x = w.remove(0);
        proof {
            assert(x == orig[done as int]);
            assert forall|k: int| 0 <= k < w@.len() implies w@[k] == orig[done + 1 + k] by {
                assert(w@[k] == wpre[k + 1]);
            }
        }
        insert_value(&mut out, x);
        proof {
            let a = orig.subrange(0, done as int);
            let b = orig.subrange(0, done + 1);
            lemma_models_of(a);
            lemma_models_of(b);
            assert(b.subrange(0, b.len() - 1) =~= a);
            assert(models_of(b).subrange(0, models_of(b).len() - 1) =~= models_of(a)) by {
                assert forall|k: int| 0 <= k < models_of(a).len() implies models_of(b)[k]
                    == models_of(a)[k] by {
                    assert(b[k] == a[k]);
                }
            }
            assert(models_of(b)[models_of(b).len() - 1] == x@);
            assert(sort_spec(models_of(b)) == insert_sorted(sort_spec(models_of(a)), x@));
        }
        done = done + 1;
    }
    proof {
        assert(orig.subrange(0, orig.len() as int) =~= orig);
    }
    out
}

} // verus!
