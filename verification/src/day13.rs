use vstd::prelude::*;

use itertools::Itertools;

use crate::lines::{lemma_lines_count, lines_of};
use crate::order::{cmp_values, lt_model, Cmp};
use crate::parse::{lemma_parse_lines_len, parse_lines, parse_packets, ParseError};
use crate::sorting::{lemma_sort_contains, sort_spec, sort_values};
use crate::value::{lemma_models_of, models_of, values_eq, Value, ValueModel};
use vstd::string::StringSliceAdditionalSpecFns;

verus! {

/// Sum of the 1-based indices of the ordered pairs among the first `k`
/// adjacent non-overlapping pairs of `vals`.
pub open spec fn signal_a_prefix(vals: Seq<ValueModel>, k: int) -> int
    decreases k,
{
    if k <= 0 {
        0
    } else {
        signal_a_prefix(vals, k - 1) + (if lt_model(vals[2 * (k - 1)], vals[2 * (k - 1) + 1]) {
            k
        } else {
            0
        })
    }
}

/// The first signal: pair the values in input order (first with second, and
/// so on), and sum the 1-based pair indices where the first member sorts
/// strictly before the second.
pub open spec fn signal_a(vals: Seq<ValueModel>) -> int {
    signal_a_prefix(vals, vals.len() as int / 2)
}

/// A sentinel value `[[n]]`.
pub open spec fn divider(n: u32) -> ValueModel {
    ValueModel::List(seq![ValueModel::List(seq![ValueModel::Number(n)])])
}

/// Position of the first element structurally equal to `x` in `s`, or
/// `s.len()` if there is none.
pub open spec fn first_pos(s: Seq<ValueModel>, x: ValueModel) -> int
    decreases s.len(),
{
    if s.len() == 0 {
        0
    } else if s[0] == x {
        0
    } else {
        1 + first_pos(s.subrange(1, s.len() as int), x)
    }
}

/// `first_pos` finds the first occurrence of a present element.
pub proof fn lemma_first_pos(s: Seq<ValueModel>, x: ValueModel)
    requires
        s.contains(x),
    ensures
        0 <= first_pos(s, x) < s.len(),
        s[first_pos(s, x)] == x,
        forall|k: int| 0 <= k < first_pos(s, x) ==> s[k] != x,
    decreases s.len(),
{
    if s.len() > 0 && s[0] != x {
        let t = s.subrange(1, s.len() as int);
        assert(t.contains(x)) by {
            let idx = choose|idx: int| 0 <= idx < s.len() && s[idx] == x;
            assert(t[idx - 1] == x);
        }
        lemma_first_pos(t, x);
        assert forall|k: int| 0 <= k < first_pos(s, x) implies s[k] != x by {
            if k > 0 {
                assert(t[k - 1] == s[k]);
            }
        }
    }
}

/// Any first-occurrence position is `first_pos`.
pub proof fn lemma_first_pos_unique(s: Seq<ValueModel>, x: ValueModel, p: int)
    requires
        0 <= p < s.len(),
        s[p] == x,
        forall|k: int| 0 <= k < p ==> s[k] != x,
    ensures
        p == first_pos(s, x),
    decreases s.len(),
{
    if s[0] != x {
        let t = s.subrange(1, s.len() as int);
        assert(p >= 1);
        assert forall|k: int| 0 <= k < p - 1 implies t[k] != x by {
            assert(t[k] == s[k + 1]);
        }
        lemma_first_pos_unique(t, x, p - 1);
    }
}

/// The second signal: append the sentinels `[[2]]` and `[[6]]`, sort the
/// whole batch, and multiply the 1-based positions of the first occurrence
/// of each sentinel.
pub open spec fn signal_b(vals: Seq<ValueModel>) -> int {
    let all = sort_spec(vals.push(divider(2)).push(divider(6)));
    (first_pos(all, divider(2)) + 1) * (first_pos(all, divider(6)) + 1)
}

/// Relies on itertools' `tuples` adaptor: over `0..n` it yields the
/// consecutive non-overlapping index pairs `(0, 1), (2, 3), ...`, dropping
/// a leftover odd index.
#[verifier::external_body]
fn pair_indices(n: usize) -> (r: Vec<(usize, usize)>)
    ensures
        r@.len() == n as int / 2,
        forall|k: int| 0 <= k < r@.len() ==> r@[k].0 == 2 * k && r@[k].1 == 2 * k + 1,
{
    let pairs: Vec<(usize, usize)> = (0..n).tuples().collect();
    pairs
}

/// The sentinel value `[[n]]`.
pub fn make_divider(n: u32) -> (r: Value)
    ensures
        r@ == divider(n),
{
    let mut inner: Vec<Value> = Vec::new();
    inner.push(Value::Number(n));
    let mut outer: Vec<Value> = Vec::new();
    outer.push(Value::List(inner));
    proof {
        lemma_models_of(outer@);
        assert(models_of(outer@) =~= seq![ValueModel::List(models_of(
            seq![Value::Number(n)],
        ))]);
        lemma_models_of(seq![Value::Number(n)]);
        assert(models_of(seq![Value::Number(n)]) =~= seq![ValueModel::Number(n)]);
    }
    Value::List(outer)
}

/// Position of the first value structurally equal to `x`.
fn find_value(s: &Vec<Value>, x: &Value) -> (p: usize)
    requires
        models_of(s@).contains(x@),
    ensures
        p as int == first_pos(models_of(s@), x@),
        p < s@.len(),
{
    let ghost ms = models_of(s@);
    proof {
        lemma_models_of(s@);
        lemma_first_pos(ms, x@);
    }
    let mut i: usize = 0;
    while i < s.len()
        invariant
            0 <= i <= s@.len(),
            ms == models_of(s@),
            ms.len() == s@.len(),
            ms.contains(x@),
            forall|k: int| 0 <= k < ms.len() ==> ms[k] == s@[k]@,
            forall|k: int| 0 <= k < i ==> ms[k] != x@,
        decreases s@.len() - i,
    {
        if values_eq(&s[i], x) {
            proof {
                lemma_first_pos_unique(ms, x@, i as int);
            }
            return i;
        }
        i = i + 1;
    }
    proof {
        lemma_first_pos(ms, x@);
        assert(false);
    }
    0
}

/// Solve the packet puzzle: parse every non-empty line of `input` into a
/// value, report the sum of the 1-based indices of adjacent pairs already
/// in order, and the product of the 1-based positions of the sentinels
/// `[[2]]` and `[[6]]` after sorting them in with the rest.
///
/// The input length bound keeps both signals within the result width.
pub fn day13(input: &str) -> (r: Result<(usize, usize), ParseError>)
    requires
        input.spec_bytes().len() <= 30000,
    ensures
        match r {
            Ok(p) => parse_lines(lines_of(input.spec_bytes())) matches Some(vals) && p.0
                == signal_a(vals) && p.1 == signal_b(vals),
            Err(_) => parse_lines(lines_of(input.spec_bytes())) is None,
        },
{
    let bytes = input.as_bytes();
    let vals = match parse_packets(bytes) {
        Ok(v) => v,
        Err(e) => return Err(e),
    };
    let ghost ms = models_of(vals@);
    proof {
        lemma_models_of(vals@);
        lemma_lines_count(bytes@);
        lemma_parse_lines_len(lines_of(bytes@));
        assert(ms.len() <= 30001);
    }
    let pairs = pair_indices(vals.len());
    let mut part1: usize = 0;
    let mut t: usize = 0;
    while t < pairs.len()
        invariant
            ms == models_of(vals@),
            ms.len() == vals@.len(),
            ms.len() <= 30001,
            forall|k: int| 0 <= k < ms.len() ==> ms[k] == vals@[k]@,
            pairs@.len() == vals@.len() / 2,
            forall|k: int| 0 <= k < pairs@.len() ==> pairs@[k].0 == 2 * k && pairs@[k].1 == 2 * k
                + 1,
            0 <= t <= pairs@.len(),
            part1 == signal_a_prefix(ms, t as int),
            part1 <= t * 15001,
        decreases pairs@.len() - t,
    {
        let (ia, ib) = pairs[t];
        proof {
            assert(ia == 2 * t && ib == 2 * t + 1);
            assert(2 * t + 1 < vals@.len());
        }
        let c = cmp_values(&vals[ia], &vals[ib]);
        match c {
            Cmp::Lt => {
                part1 = part1 + (t + 1);
            },
            _ => {},
        }
        t = t + 1;
    }
    let d2 = make_divider(2);
    let d6 = make_divider(6);
    let ghost with_divs = ms.push(divider(2)).push(divider(6));
    let mut all = vals;
    all.push(d2);
    all.push(d6);
    proof {
        lemma_models_of(all@);
        assert(models_of(all@) =~= with_divs);
    }
    let sorted_vals = sort_values(all);
    proof {
        assert(with_divs[with_divs.len() - 2] == divider(2));
        assert(with_divs[with_divs.len() - 1] == divider(6));
        assert(with_divs.contains(divider(2)));
        assert(with_divs.contains(divider(6)));
        lemma_sort_contains(with_divs, divider(2));
        lemma_sort_contains(with_divs, divider(6));
    }
    let f2 = make_divider(2);
    let f6 = make_divider(6);
    let p2 = find_value(&sorted_vals, &f2);
    let p6 = find_value(&sorted_vals, &f6);
    proof {
        crate::sorting::lemma_sort_spec_sorted(with_divs);
        lemma_models_of(sorted_vals@);
        assert(sorted_vals@.len() == with_divs.len());
        assert((p2 + 1) * (p6 + 1) <= 30003 * 30003) by (nonlinear_arith)
            requires
                0 <= p2 + 1 <= 30003,
                0 <= p6 + 1 <= 30003,
        {}
    }
    let part2: usize = (p2 + 1) * (p6 + 1);
    Ok((part1, part2))
}

} // verus!
