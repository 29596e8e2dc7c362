use vstd::prelude::*;

use crate::parse::{all_digits, digits_val, is_digit, lemma_scan_number_end, number_token_valid,
    parse_items_at, parse_value_at, scan_number_end};
use crate::value::{lemma_models_of, lemma_size_pos, lemma_size_seq_element, models_of, size,
    size_seq, Value, ValueModel};

verus! {

/// The decimal digits of a non-negative number, most significant first,
/// without leading zeros (except for zero itself).
pub open spec fn digits_of(n: int) -> Seq<u8>
    decreases n,
{
    if n < 10 {
        seq![(48 + if n >= 0 { n } else { 0 }) as u8]
    } else {
        digits_of(n / 10).push((48 + n % 10) as u8)
    }
}

/// The decimal rendering of a number reads back as that number.
pub proof fn lemma_digits_of(n: int)
    requires
        0 <= n,
    ensures
        digits_of(n).len() >= 1,
        all_digits(digits_of(n)),
        digits_val(digits_of(n)) == n,
    decreases n,
{
    if n < 10 {
        let s = digits_of(n);
        assert(s.subrange(0, 0) =~= Seq::<u8>::empty());
        assert(digits_val(s) == digits_val(s.subrange(0, 0)) * 10 + (s[0] - 48));
    } else {
        lemma_digits_of(n / 10);
        let s = digits_of(n);
        assert(s.subrange(0, s.len() - 1) =~= digits_of(n / 10));
        assert(digits_val(s) == digits_val(digits_of(n / 10)) * 10 + (s[s.len() - 1] - 48));
    }
}

/// The canonical text of a value: a number in decimal, a list in brackets
/// with its items separated by commas.
pub open spec fn render(v: ValueModel) -> Seq<u8>
    decreases size(v), 0int,
{
    match v {
        ValueModel::Number(n) => digits_of(n as int),
        ValueModel::List(items) => seq![91u8] + render_items(items) + seq![93u8],
    }
}

/// The canonical text of list items: renderings joined by commas.
pub open spec fn render_items(items: Seq<ValueModel>) -> Seq<u8>
    decreases size_seq(items), 1int,
{
    if items.len() == 0 {
        Seq::empty()
    } else if items.len() == 1 {
        render(items[0])
    } else {
        proof {
            lemma_size_pos(items[0]);
        }
        render(items[0]) + seq![44u8] + render_items(items.subrange(1, items.len() as int))
    }
}

/// A rendering is never empty and never starts with a delimiter.
pub proof fn lemma_render_first(v: ValueModel)
    ensures
        render(v).len() >= 1,
        render(v)[0] == 91 || is_digit(render(v)[0]),
    decreases size(v),
{
    match v {
        ValueModel::Number(n) => {
            lemma_digits_of(n as int);
        },
        ValueModel::List(_) => {},
    }
}

/// Splitting rendered items anywhere in the middle lands on a comma.
pub proof fn lemma_render_items_split(items: Seq<ValueModel>, t: int)
    requires
        0 < t < items.len(),
    ensures
        render_items(items) == render_items(items.subrange(0, t)) + seq![44u8] + render_items(
            items.subrange(t, items.len() as int),
        ),
    decreases t,
{
    let tail = items.subrange(1, items.len() as int);
    if t == 1 {
        assert(items.subrange(0, 1) =~= seq![items[0]]);
        assert(render_items(items.subrange(0, 1)) == render(items[0]));
    } else {
        lemma_render_items_split(tail, t - 1);
        assert(tail.subrange(0, t - 1) =~= items.subrange(1, t));
        assert(tail.subrange(t - 1, tail.len() as int) =~= items.subrange(
            t,
            items.len() as int,
        ));
        let head = items.subrange(0, t);
        assert(head.len() > 1);
        assert(head[0] == items[0]);
        assert(head.subrange(1, head.len() as int) =~= items.subrange(1, t));
        assert(render_items(head) == render(items[0]) + seq![44u8] + render_items(
            items.subrange(1, t),
        ));
        assert(render_items(items) == render(items[0]) + seq![44u8] + render_items(tail));
        assert(render(items[0]) + seq![44u8] + (render_items(items.subrange(1, t)) + seq![44u8]
            + render_items(items.subrange(t, items.len() as int))) =~= (render(items[0])
            + seq![44u8] + render_items(items.subrange(1, t))) + seq![44u8] + render_items(
            items.subrange(t, items.len() as int),
        ));
    }
}

/// Round trip, one value: wherever the canonical text of `v` stands in a
/// text, followed by a delimiter or the end, parsing from there yields `v`
/// and consumes exactly that text.
pub proof fn lemma_rt_value(v: ValueModel, s: Seq<u8>, i: int)
    requires
        0 <= i,
        i + render(v).len() <= s.len(),
        s.subrange(i, i + render(v).len()) == render(v),
        i + render(v).len() == s.len() || s[i + render(v).len()] == 44 || s[i + render(v).len()]
            == 93,
    ensures
        parse_value_at(s, i) == Some((v, i + render(v).len())),
    decreases size(v), 0int,
{
    let r = render(v);
    lemma_render_first(v);
    assert(s[i] == r[0]);
    match v {
        ValueModel::Number(n) => {
            lemma_digits_of(n as int);
            assert forall|k: int| i <= k < i + r.len() implies (s[k] != 44 && s[k] != 93) by {
                assert(s[k] == r[k - i]);
                assert(is_digit(r[k - i]));
            }
            lemma_scan_number_end(s, i);
            let f = scan_number_end(s, i);
            assert(f == i + r.len()) by {
                if f < i + r.len() {
                    assert(s[f] != 44 && s[f] != 93);
                } else if f > i + r.len() {
                    assert(s[i + r.len()] != 44 && s[i + r.len()] != 93);
                }
            }
            let ds = s.subrange(i, f);
            assert(ds =~= r);
            assert(number_token_valid(ds));
            assert(digits_val(ds) as u32 == n);
        },
        ValueModel::List(items) => {
            let li = render_items(items);
            assert(r == seq![91u8] + li + seq![93u8]);
            assert(r.len() == li.len() + 2);
            assert(s[i] == 91);
            assert forall|k: int| 0 <= k < li.len() implies s[i + 1 + k] == li[k] by {
                assert(s[i + 1 + k] == r[1 + k]);
                assert(r[1 + k] == li[k]);
            }
            assert(s.subrange(i + 1, i + 1 + li.len()) =~= li);
            assert(s[i + 1 + li.len()] == r[r.len() - 1]);
            assert(r[r.len() - 1] == 93);
            lemma_rt_items(items, s, i + 1);
        },
    }
}

/// Round trip, list items: wherever the joined canonical texts of `items`
/// stand, followed by a closing bracket, parsing items from there yields
/// `items` and consumes through the bracket.
pub proof fn lemma_rt_items(items: Seq<ValueModel>, s: Seq<u8>, i: int)
    requires
        0 <= i,
        i + render_items(items).len() < s.len(),
        s.subrange(i, i + render_items(items).len()) == render_items(items),
        s[i + render_items(items).len()] == 93,
    ensures
        parse_items_at(s, i) == Some((items, i + render_items(items).len() + 1)),
    decreases size_seq(items), 1int,
{
    let li = render_items(items);
    if items.len() == 0 {
        assert(s[i] == 93);
    } else {
        let v0 = items[0];
        let r0 = render(v0);
        lemma_render_first(v0);
        lemma_size_pos(v0);
        lemma_size_seq_element(items, 0);
        if items.len() == 1 {
            assert(li == r0);
            assert(s.subrange(i, i + r0.len()) == r0);
            lemma_rt_value(v0, s, i);
            let j = i + r0.len();
            assert(s[j] == 93);
            assert(s[i] == r0[0]);
            assert(s[i] != 93 && i < s.len());
            assert(parse_items_at(s, j) == Some((Seq::<ValueModel>::empty(), j + 1)));
            assert(seq![v0] + Seq::<ValueModel>::empty() =~= items);
        } else {
            lemma_render_items_split(items, 1);
            assert(items.subrange(0, 1) =~= seq![v0]);
            assert(render_items(items.subrange(0, 1)) == r0);
            let tail = items.subrange(1, items.len() as int);
            let lt = render_items(tail);
            assert(li == r0 + seq![44u8] + lt);
            assert forall|k: int| 0 <= k < li.len() implies s[i + k] == li[k] by {}
            assert(s.subrange(i, i + r0.len()) =~= r0);
            assert(s[i + r0.len()] == li[r0.len() as int]);
            assert(li[r0.len() as int] == 44);
            lemma_rt_value(v0, s, i);
            let j = i + r0.len();
            let j2 = j + 1;
            assert forall|k: int| 0 <= k < lt.len() implies s[j2 + k] == lt[k] by {
                assert(li[r0.len() + 1 + k] == lt[k]);
            }
            assert(s.subrange(j2, j2 + lt.len()) =~= lt);
            assert(j2 + lt.len() == i + li.len());
            lemma_rt_items(tail, s, j2);
            assert(s[i] == r0[0]);
            assert(s[i] != 93 && i < s.len());
            assert(seq![v0] + tail =~= items);
        }
    }
}

/// Round trip: parsing the canonical text of any value yields that value
/// back, consuming the whole text; re-rendering it therefore reproduces the
/// text exactly.
pub proof fn lemma_round_trip(v: ValueModel)
    ensures
        parse_value_at(render(v), 0) == Some((v, render(v).len() as int)),
{
    assert(render(v).subrange(0, render(v).len() as int) =~= render(v));
    lemma_rt_value(v, render(v), 0);
}

/// Append the decimal digits of `n` to `out`.
fn push_digits(n: u32, out: &mut Vec<u8>)
    ensures
        final(out)@ == old(out)@ + digits_of(n as int),
    decreases n,
{
    if n < 10 {
        out.push(48 + n as u8);
        proof {
            assert(out@ =~= old(out)@ + digits_of(n as int));
        }
    } else {
        push_digits(n / 10, out);
        out.push(48 + (n % 10) as u8);
        proof {
            assert(out@ =~= old(out)@ + digits_of(n as int));
        }
    }
}

/// Append the canonical text of `v` to `out`.
fn push_render(v: &Value, out: &mut Vec<u8>)
    ensures
        final(out)@ == old(out)@ + render(v@),
    decreases size(v@),
{
    match v {
        Value::Number(n) => {
            push_digits(*n, out);
        },
        Value::List(items) => {
            let ghost ms = models_of(items@);
            proof {
                lemma_models_of(items@);
            }
            out.push(91);
            let mut t: usize = 0;
            while t < items.len()
                invariant
                    0 <= t <= items@.len(),
                    ms == models_of(items@),
                    ms.len() == items@.len(),
                    forall|k: int| 0 <= k < ms.len() ==> ms[k] == items@[k]@,
                    v@ == ValueModel::List(ms),
                    size(v@) == 1 + size_seq(ms),
                    out@ == old(out)@ + seq![91u8] + (if t == 0 {
                        Seq::<u8>::empty()
                    } else {
                        render_items(ms.subrange(0, t as int))
                    }),
                decreases items@.len() - t,
            {
                if t > 0 {
                    out.push(44);
                }
                proof {
                    lemma_size_seq_element(ms, t as int);
                }
                push_render(&items[t], out);
                proof {
                    let t1 = t + 1 as int;
                    if t == 0 {
                        assert(ms.subrange(0, 1) =~= seq![ms[0]]);
                        assert(render_items(ms.subrange(0, 1)) == render(ms[0]));
                        assert(out@ =~= old(out)@ + seq![91u8] + render_items(
                            ms.subrange(0, 1),
                        ));
                    } else {
                        lemma_render_items_split(ms.subrange(0, t1), t as int);
                        assert(ms.subrange(0, t1).subrange(0, t as int) =~= ms.subrange(
                            0,
                            t as int,
                        ));
                        assert(ms.subrange(0, t1).subrange(t as int, t1) =~= seq![ms[t as int]]);
                        assert(render_items(seq![ms[t as int]]) == render(ms[t as int]));
                        assert(out@ =~= old(out)@ + seq![91u8] + render_items(
                            ms.subrange(0, t1),
                        ));
                    }
                }
                t = t + 1;
            }
            out.push(93);
            proof {
                if items@.len() == 0 {
                    assert(render_items(ms) == Seq::<u8>::empty());
                } else {
                    assert(ms.subrange(0, ms.len() as int) =~= ms);
                }
                assert(out@ =~= old(out)@ + render(v@));
            }
        },
    }
}

/// The canonical text of a value.
pub fn render_value(v: &Value) -> (r: Vec<u8>)
    ensures
        r@ == render(v@),
{
    let mut out: Vec<u8> = Vec::new();
    push_render(v, &mut out);
    proof {
        assert(Seq::<u8>::empty() + render(v@) =~= render(v@));
    }
    out
}

} // verus!
