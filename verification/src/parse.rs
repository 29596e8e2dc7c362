use vstd::prelude::*;

use crate::lines::lines_of;
use crate::value::{lemma_models_of, models_of, Value, ValueModel};

verus! {

/// Parsing failure: where a number was expected, the token is empty, holds a
/// non-digit, or does not fit the number width.
#[derive(Clone, Copy, PartialEq, Eq, Structural, Debug)]
pub enum ParseError {
    InvalidNumber,
}

/// An ASCII decimal digit.
pub open spec fn is_digit(c: u8) -> bool {
    48 <= c <= 57
}

/// Every byte of the token is a decimal digit.
pub open spec fn all_digits(ds: Seq<u8>) -> bool {
    forall|k: int| 0 <= k < ds.len() ==> is_digit(ds[k])
}

/// The number denoted by a sequence of decimal digits, most significant
/// first.
pub open spec fn digits_val(ds: Seq<u8>) -> int
    decreases ds.len(),
{
    if ds.len() == 0 {
        0
    } else {
        digits_val(ds.subrange(0, ds.len() - 1)) * 10 + (ds[ds.len() - 1] - 48)
    }
}

/// The token is a well-formed number that fits in 32 bits.
pub open spec fn number_token_valid(ds: Seq<u8>) -> bool {
    ds.len() > 0 && all_digits(ds) && digits_val(ds) <= 0xffff_ffff
}

/// A digit string denotes a non-negative number.
pub proof fn lemma_digits_val_nonneg(ds: Seq<u8>)
    requires
        all_digits(ds),
    ensures
        digits_val(ds) >= 0,
    decreases ds.len(),
{
    if ds.len() > 0 {
        let p = ds.subrange(0, ds.len() - 1);
        assert(all_digits(p));
        lemma_digits_val_nonneg(p);
    }
}

/// A prefix of a digit string denotes no more than the whole string.
pub proof fn lemma_digits_val_prefix(ds: Seq<u8>, k: int)
    requires
        all_digits(ds),
        0 <= k <= ds.len(),
    ensures
        digits_val(ds.subrange(0, k)) <= digits_val(ds),
    decreases ds.len() - k,
{
    if k == ds.len() {
        assert(ds.subrange(0, k) =~= ds);
    } else {
        lemma_digits_val_prefix(ds, k + 1);
        let q = ds.subrange(0, k + 1);
        assert(q.subrange(0, k) =~= ds.subrange(0, k));
        assert(all_digits(ds.subrange(0, k)));
        lemma_digits_val_nonneg(ds.subrange(0, k));
        assert(digits_val(q) == digits_val(ds.subrange(0, k)) * 10 + (q[k] - 48));
    }
}

/// Index of the first comma or closing bracket in `s` at or after `i`, or
/// `s.len()` if there is none: the end of a number token starting at `i`.
pub open spec fn scan_number_end(s: Seq<u8>, i: int) -> int
    decreases s.len() - i,
{
    if i < 0 || i >= s.len() {
        s.len() as int
    } else if s[i] == 44 || s[i] == 93 {
        i
    } else {
        scan_number_end(s, i + 1)
    }
}

/// `scan_number_end` returns the first delimiter position, within bounds.
pub proof fn lemma_scan_number_end(s: Seq<u8>, i: int)
    requires
        0 <= i <= s.len(),
    ensures
        i <= scan_number_end(s, i) <= s.len(),
        scan_number_end(s, i) < s.len() ==> (s[scan_number_end(s, i)] == 44 || s[scan_number_end(
            s,
            i,
        )] == 93),
        forall|k: int| i <= k < scan_number_end(s, i) ==> (s[k] != 44 && s[k] != 93),
    decreases s.len() - i,
{
    if i < s.len() && s[i] != 44 && s[i] != 93 {
        lemma_scan_number_end(s, i + 1);
    }
}

/// Parse one complete value starting at position `i` of `s`: a bracketed
/// list of comma-separated sub-values, or else a number token running up to
/// the next delimiter. Returns the value and the position just after it, or
/// nothing if a number token is malformed.
pub open spec fn parse_value_at(s: Seq<u8>, i: int) -> Option<(ValueModel, int)>
    decreases s.len() - i, 0int,
{
    if i < 0 || i > s.len() {
        None
    } else if i < s.len() && s[i] == 91 {
        match parse_items_at(s, i + 1) {
            Option::None => None,
            Option::Some((items, j)) => Some((ValueModel::List(items), j)),
        }
    } else {
        let e = scan_number_end(s, i);
        let ds = s.subrange(i, e);
        if number_token_valid(ds) {
            Some((ValueModel::Number(digits_val(ds) as u32), e))
        } else {
            None
        }
    }
}

/// Parse the items of a list whose opening bracket stands just before
/// position `i`: sub-values until a closing bracket or the end of the text,
/// skipping one separating comma after each. Returns the items and the
/// position just after the closing bracket (or the end).
pub open spec fn parse_items_at(s: Seq<u8>, i: int) -> Option<(Seq<ValueModel>, int)>
    decreases s.len() - i, 1int,
{
    if i < 0 || i > s.len() {
        None
    } else if i == s.len() {
        Some((Seq::empty(), i))
    } else if s[i] == 93 {
        Some((Seq::empty(), i + 1))
    } else {
        match parse_value_at(s, i) {
            Option::None => None,
            Option::Some((v, j)) => {
                let j2 = if j < s.len() && s[j] == 44 {
                    j + 1
                } else {
                    j
                };
                if i < j2 <= s.len() {
                    match parse_items_at(s, j2) {
                        Option::None => None,
                        Option::Some((rest, k)) => Some((seq![v] + rest, k)),
                    }
                } else {
                    None
                }
            },
        }
    }
}

/// Parse the number token starting at position `i`: scan to the next comma
/// or closing bracket and read the digits as a 32-bit number.
fn parse_number(s: &[u8], i: usize) -> (r: Result<(u32, usize), ParseError>)
    requires
        i <= s@.len(),
    ensures
        ({
            let e = scan_number_end(s@, i as int);
            let ds = s@.subrange(i as int, e);
            match r {
                Ok(p) => p.1 == e && number_token_valid(ds) && p.0 == digits_val(ds),
                Err(_) => !number_token_valid(ds),
            }
        }),
{
    let mut e: usize = i;
    while e < s.len() && s[e] != 44 && s[e] != 93
        invariant
            i <= e <= s@.len(),
            forall|k: int| i <= k < e ==> (s@[k] != 44 && s@[k] != 93),
        decreases s@.len() - e,
    {
        e = e + 1;
    }
    proof {
        lemma_scan_number_end(s@, i as int);
        let f = scan_number_end(s@, i as int);
        assert(f == e as int) by {
            if f < e {
                assert(s@[f] != 44 && s@[f] != 93);
            } else if (e as int) < f {
                assert(s@[e as int] != 44 && s@[e as int] != 93);
            }
        }
    }
    let ghost ds = s@.subrange(i as int, e as int);
    if e == i {
        return Err(ParseError::InvalidNumber);
    }
    let mut val: u32 = 0;
    let mut k: usize = i;
    while k < e
        invariant
            i <= k <= e <= s@.len(),
            ds == s@.subrange(i as int, e as int),
            scan_number_end(s@, i as int) == e as int,
            i < e,
            all_digits(ds.subrange(0, k - i)),
            val == digits_val(ds.subrange(0, k - i)),
        decreases e - k,
    {
        let c = s[k];
        proof {
            assert(ds[k - i] == s@[k as int]);
        }
        if c < 48 || c > 57 {
            proof {
                assert(!is_digit(ds[k - i]));
            }
            return Err(ParseError::InvalidNumber);
        }
        let d = (c - 48) as u32;
        let ghost p = ds.subrange(0, k - i);
        let ghost q = ds.subrange(0, k - i + 1);
        proof {
            assert(q.subrange(0, q.len() - 1) =~= p);
            assert(q[q.len() - 1] == ds[k - i]);
            assert(digits_val(q) == digits_val(p) * 10 + (ds[k - i] - 48));
            lemma_digits_val_nonneg(p);
        }
        if val > (0xffff_ffffu32 - d) / 10 {
            proof {
                assert(digits_val(q) > 0xffff_ffff) by (nonlinear_arith)
                    requires
                        digits_val(q) == val * 10 + d,
                        val > (0xffff_ffffu32 - d) / 10,
                        0 <= d <= 9,
                {}
                if all_digits(ds) {
                    lemma_digits_val_prefix(ds, k - i + 1);
                }
            }
            return Err(ParseError::InvalidNumber);
        }
        proof {
            assert(val * 10 + d <= 0xffff_ffff) by (nonlinear_arith)
                requires
                    val <= (0xffff_ffffu32 - d) / 10,
                    0 <= d <= 9,
                    0 <= val,
            {}
        }
        val = val * 10 + d;
        k = k + 1;
    }
    proof {
        assert(ds.subrange(0, e - i) =~= ds);
    }
    Ok((val, e))
}

/// Parse one complete value starting at position `i` of `s`.
pub fn parse_value_from(s: &[u8], i: usize) -> (r: Result<(Value, usize), ParseError>)
    requires
        i <= s@.len(),
    ensures
        match r {
            Ok(p) => parse_value_at(s@, i as int) == Some((p.0@, p.1 as int)) && i < p.1
                <= s@.len(),
            Err(_) => parse_value_at(s@, i as int) is None,
        },
    decreases s@.len() - i, 0int,
{
    if i < s.len() && s[i] == 91 {
        match parse_items_from(s, i + 1) {
            Ok((items, j)) => Ok((Value::List(items), j)),
            Err(e) => Err(e),
        }
    } else {
        match parse_number(s, i) {
            Ok((n, j)) => {
                proof {
                    lemma_scan_number_end(s@, i as int);
                }
                Ok((Value::Number(n), j))
            },
            Err(e) => Err(e),
        }
    }
}

/// Parse the items of a list from position `i` of `s`.
pub fn parse_items_from(s: &[u8], i: usize) -> (r: Result<(Vec<Value>, usize), ParseError>)
    requires
        i <= s@.len(),
    ensures
        match r {
            Ok(p) => parse_items_at(s@, i as int) == Some((models_of(p.0@), p.1 as int)) && i
                <= p.1 <= s@.len(),
            Err(_) => parse_items_at(s@, i as int) is None,
        },
    decreases s@.len() - i, 1int,
{
    if i == s.len() {
        let out: Vec<Value> = Vec::new();
        proof {
            lemma_models_of(out@);
            assert(models_of(out@) =~= Seq::<ValueModel>::empty());
        }
        return Ok((out, i));
    }
    if s[i] == 93 {
        let out: Vec<Value> = Vec::new();
        proof {
            lemma_models_of(out@);
            assert(models_of(out@) =~= Seq::<ValueModel>::empty());
        }
        return Ok((out, i + 1));
    }
    let (v, j) = match parse_value_from(s, i) {
        Ok(p) => p,
        Err(e) => return Err(e),
    };
    let j2: usize = if j < s.len() && s[j] == 44 {
        j + 1
    } else {
        j
    };
    let (mut rest, k) = match parse_items_from(s, j2) {
        Ok(p) => p,
        Err(e) => return Err(e),
    };
    let ghost old_rest = rest@;
    rest.insert(0, v);
    proof {
        lemma_models_of(old_rest);
        lemma_models_of(rest@);
        assert(rest@ == old_rest.insert(0, v));
        assert(models_of(rest@) =~= seq![v@] + models_of(old_rest));
    }
    Ok((rest, k))
}

/// Parse the first complete value of a line of text, ignoring whatever
/// follows it.
pub fn parse_value(s: &[u8]) -> (r: Result<Value, ParseError>)
    ensures
        match r {
            Ok(v) => parse_value_at(s@, 0) matches Some(p) && p.0 == v@,
            Err(_) => parse_value_at(s@, 0) is None,
        },
{
    match parse_value_from(s, 0) {
        Ok((v, _)) => Ok(v),
        Err(e) => Err(e),
    }
}

/// Parse every non-empty line of a sequence of lines, in order; any
/// malformed line fails the whole batch.
pub open spec fn parse_lines(ls: Seq<Seq<u8>>) -> Option<Seq<ValueModel>>
    decreases ls.len(),
{
    if ls.len() == 0 {
        Some(Seq::empty())
    } else {
        let rest = parse_lines(ls.subrange(1, ls.len() as int));
        if ls[0].len() == 0 {
            rest
        } else {
            match parse_value_at(ls[0], 0) {
                Option::None => None,
                Option::Some((v, j)) => match rest {
                    Option::None => None,
                    Option::Some(vs) => Some(seq![v] + vs),
                },
            }
        }
    }
}

/// A batch parses to at most one value per line.
pub proof fn lemma_parse_lines_len(ls: Seq<Seq<u8>>)
    ensures
        parse_lines(ls) matches Some(vs) ==> vs.len() <= ls.len(),
    decreases ls.len(),
{
    if ls.len() > 0 {
        lemma_parse_lines_len(ls.subrange(1, ls.len() as int));
    }
}

/// Parsing a concatenation of line batches parses each batch in turn.
pub proof fn lemma_parse_lines_concat(a: Seq<Seq<u8>>, b: Seq<Seq<u8>>)
    ensures
        parse_lines(a) is None ==> parse_lines(a + b) is None,
        parse_lines(a) matches Some(ma) ==> parse_lines(a + b) == (match parse_lines(b) {
            Option::None => None::<Seq<ValueModel>>,
            Option::Some(mb) => Some(ma + mb),
        }),
    decreases a.len(),
{
    if a.len() == 0 {
        assert(a + b =~= b);
        match parse_lines(b) {
            Option::Some(mb) => {
                assert(Seq::<ValueModel>::empty() + mb =~= mb);
            },
            Option::None => {},
        }
    } else {
        lemma_parse_lines_concat(a.subrange(1, a.len() as int), b);
        assert((a + b).subrange(1, (a + b).len() as int) =~= a.subrange(1, a.len() as int) + b);
        assert((a + b)[0] == a[0]);
        assert((a + b).len() > 0);
        match (parse_lines(b), parse_lines(a.subrange(1, a.len() as int))) {
            (Option::Some(mb), Option::Some(mt)) => {
                if a[0].len() > 0 {
                    match parse_value_at(a[0], 0) {
                        Option::None => {},
                        Option::Some((v, j)) => {
                            assert(seq![v] + (mt + mb) =~= (seq![v] + mt) + mb);
                        },
                    }
                }
            },
            _ => {},
        }
    }
}

/// Parse every non-empty line of a text into a value, in input order.
pub fn parse_packets(s: &[u8]) -> (r: Result<Vec<Value>, ParseError>)
    ensures
        match r {
            Ok(vs) => parse_lines(lines_of(s@)) == Some(models_of(vs@)),
            Err(_) => parse_lines(lines_of(s@)) is None,
        },
{
    let lines = crate::lines::split_lines(s);
    let ghost big = lines_of(s@);
    let mut out: Vec<Value> = Vec::new();
    let mut idx: usize = 0;
    proof {
        lemma_models_of(out@);
        assert(big.subrange(0, 0) =~= Seq::<Seq<u8>>::empty());
        assert(models_of(out@) =~= Seq::<ValueModel>::empty());
    }
    while idx < lines.len()
        invariant
            0 <= idx <= lines@.len(),
            lines@.len() == big.len(),
            forall|k: int| 0 <= k < big.len() ==> lines@[k]@ == big[k],
            big == lines_of(s@),
            parse_lines(big.subrange(0, idx as int)) == Some(models_of(out@)),
        decreases lines@.len() - idx,
    {
        let ghost pre = big.subrange(0, idx as int);
        let ghost one = seq![big[idx as int]];
        proof {
            lemma_parse_lines_concat(pre, one);
            assert(pre + one =~= big.subrange(0, idx + 1));
            assert(one.subrange(1, 1) =~= Seq::<Seq<u8>>::empty());
            assert(parse_lines(one.subrange(1, 1)) == Some(Seq::<ValueModel>::empty()));
        }
        let line = &lines[idx];
        if line.len() > 0 {
            match parse_value_from(line.as_slice(), 0) {
                Ok((v, _)) => {
                    let ghost old_out = out@;
                    out.push(v);
                    proof {
                        lemma_models_of(old_out);
                        lemma_models_of(out@);
                        assert(models_of(out@) =~= models_of(old_out) + seq![v@]);
                        assert(seq![v@] + Seq::<ValueModel>::empty() =~= seq![v@]);
                        assert(parse_lines(one) == Some(seq![v@]));
                    }
                },
                Err(e) => {
                    proof {
                        assert(parse_lines(one) is None);
                        assert(parse_lines(big.subrange(0, idx + 1)) is None);
                        lemma_parse_lines_concat(
                            big.subrange(0, idx + 1),
                            big.subrange(idx + 1, big.len() as int),
                        );
                        assert(big.subrange(0, idx + 1) + big.subrange(idx + 1, big.len() as int)
                            =~= big);
                    }
                    return Err(e);
                },
            }
        } else {
            proof {
                assert(parse_lines(one) == Some(Seq::<ValueModel>::empty()));
                assert(models_of(out@) + Seq::<ValueModel>::empty() =~= models_of(out@));
            }
        }
        idx = idx + 1;
    }
    proof {
        assert(big.subrange(0, big.len() as int) =~= big);
    }
    Ok(out)
}

} // verus!
