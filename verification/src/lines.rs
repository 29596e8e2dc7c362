use vstd::prelude::*;

verus! {

/// Index of the first occurrence of byte `b` in `s` at or after `i`, or
/// `s.len()` if there is none.
pub open spec fn find_byte_from(s: Seq<u8>, i: int, b: u8) -> int
    decreases s.len() - i,
{
    if i < 0 || i >= s.len() {
        s.len() as int
    } else if s[i] == b {
        i
    } else {
        find_byte_from(s, i + 1, b)
    }
}

/// `find_byte_from` returns the first position of `b`, within bounds.
pub proof fn lemma_find_byte_from(s: Seq<u8>, i: int, b: u8)
    requires
        0 <= i <= s.len(),
    ensures
        i <= find_byte_from(s, i, b) <= s.len(),
        find_byte_from(s, i, b) < s.len() ==> s[find_byte_from(s, i, b)] == b,
        forall|k: int| i <= k < find_byte_from(s, i, b) ==> s[k] != b,
    decreases s.len() - i,
{
    if i < s.len() && s[i] != b {
        lemma_find_byte_from(s, i + 1, b);
    }
}

/// A line with a trailing carriage return stripped.
pub open spec fn strip_cr(p: Seq<u8>) -> Seq<u8> {
    if p.len() > 0 && p[p.len() - 1] == 13 {
        p.subrange(0, p.len() - 1)
    } else {
        p
    }
}

/// The pieces of `s` from position `i` on, split at newline bytes, each with
/// a trailing carriage return stripped.
pub open spec fn split_from(s: Seq<u8>, i: int) -> Seq<Seq<u8>>
    decreases s.len() - i,
{
    if i < 0 || i > s.len() {
        Seq::empty()
    } else {
        let e = find_byte_from(s, i, 10);
        let piece = strip_cr(s.subrange(i, e));
        if e >= s.len() {
            seq![piece]
        } else {
            proof {
                lemma_find_byte_from(s, i, 10);
            }
            seq![piece] + split_from(s, e + 1)
        }
    }
}

/// The lines of a byte text: pieces split at newlines, with one final
/// newline producing no extra empty line and trailing carriage returns
/// stripped, as a text file is conventionally read line by line.
pub open spec fn lines_of(s: Seq<u8>) -> Seq<Seq<u8>> {
    if s.len() == 0 {
        Seq::empty()
    } else if s[s.len() - 1] == 10 {
        split_from(s.subrange(0, s.len() - 1), 0)
    } else {
        split_from(s, 0)
    }
}

/// A text has no more lines than bytes, plus one.
pub proof fn lemma_split_from_count(s: Seq<u8>, i: int)
    requires
        0 <= i <= s.len(),
    ensures
        split_from(s, i).len() >= 1,
        split_from(s, i).len() <= s.len() - i + 1,
    decreases s.len() - i,
{
    let e = find_byte_from(s, i, 10);
    lemma_find_byte_from(s, i, 10);
    if e < s.len() {
        lemma_split_from_count(s, e + 1);
    }
}

/// A text has no more lines than bytes, plus one.
pub proof fn lemma_lines_count(s: Seq<u8>)
    ensures
        lines_of(s).len() <= s.len() + 1,
{
    if s.len() > 0 {
        if s[s.len() - 1] == 10 {
            lemma_split_from_count(s.subrange(0, s.len() - 1), 0);
        } else {
            lemma_split_from_count(s, 0);
        }
    }
}

/// Copy of `s[from..to]` as a fresh vector.
pub fn copy_range(s: &[u8], from: usize, to: usize) -> (r: Vec<u8>)
    requires
        0 <= from <= to <= s@.len(),
    ensures
        r@ == s@.subrange(from as int, to as int),
{
    let mut r: Vec<u8> = Vec::new();
    let mut j: usize = from;
    while j < to
        invariant
            from <= j <= to <= s@.len(),
            r@ == s@.subrange(from as int, j as int),
        decreases to - j,
    {
        r.push(s[j]);
        proof {
            assert(s@.subrange(from as int, j + 1 as int) =~= s@.subrange(
                from as int,
                j as int,
            ).push(s@[j as int]));
        }
        j = j + 1;
    }
    r
}

/// Split a byte text into its lines.
pub fn split_lines(s: &[u8]) -> (r: Vec<Vec<u8>>)
    ensures
        r@.len() == lines_of(s@).len(),
        forall|k: int| 0 <= k < r@.len() ==> r@[k]@ == lines_of(s@)[k],
{
    let mut r: Vec<Vec<u8>> = Vec::new();
    if s.len() == 0 {
        return r;
    }
    let n0: usize = if s[s.len() - 1] == 10 {
        s.len() - 1
    } else {
        s.len()
    };
    let ghost t = s@.subrange(0, n0 as int);
    proof {
        assert(s@[s@.len() - 1] == 10 ==> t =~= s@.subrange(0, s@.len() - 1));
        assert(s@[s@.len() - 1] != 10 ==> t =~= s@);
        assert(lines_of(s@) == split_from(t, 0));
    }
    let total: Ghost<Seq<Seq<u8>>> = Ghost(lines_of(s@));
    let mut i: usize = 0;
    loop
        invariant
            0 <= i <= n0 <= s@.len(),
            t == s@.subrange(0, n0 as int),
            total@ == lines_of(s@),
            total@ == split_from(t, 0),
            r@.len() + split_from(t, i as int).len() == total@.len(),
            forall|k: int| 0 <= k < r@.len() ==> r@[k]@ == total@[k],
            split_from(t, i as int) == total@.subrange(r@.len() as int, total@.len() as int),
        decreases n0 - i,
    {
        // find the next newline within s[..n0]
        let mut e: usize = i;
        while e < n0 && s[e] != 10
            invariant
                i <= e <= n0 <= s@.len(),
                t == s@.subrange(0, n0 as int),
                forall|k: int| i <= k < e ==> t[k] != 10,
            decreases n0 - e,
        {
            e = e + 1;
        }
        proof {
            lemma_find_byte_from(t, i as int, 10);
            assert(e < n0 ==> t[e as int] == 10);
            assert(find_byte_from(t, i as int, 10) == e as int) by {
                let f = find_byte_from(t, i as int, 10);
                if f < e {
                    assert(t[f] == 10);
                } else if (e as int) < f {
                    assert(t[e as int] != 10);
                }
            }
        }
        let mut piece = copy_range(s, i, e);
        if piece.len() > 0 && piece[piece.len() - 1] == 13 {
            piece.pop();
        }
        proof {
            assert(piece@ =~= strip_cr(t.subrange(i as int, e as int))) by {
                assert(s@.subrange(i as int, e as int) =~= t.subrange(i as int, e as int));
            }
        }
        proof {
            let rest = split_from(t, i as int);
            let done = r@.len() as int;
            assert(rest[0] == strip_cr(t.subrange(i as int, e as int)));
            assert(rest == total@.subrange(done, total@.len() as int));
            if (e as int) < n0 as int {
                let after = split_from(t, e + 1 as int);
                assert(rest == seq![rest[0]] + after);
                assert forall|k: int| 0 <= k < after.len() implies after[k] == total@[done + 1
                    + k] by {
                    assert(after[k] == rest[k + 1]);
                    assert(rest[k + 1] == total@.subrange(done, total@.len() as int)[k + 1]);
                }
                assert(after =~= total@.subrange(done + 1, total@.len() as int));
            } else {
                assert(rest =~= seq![rest[0]]);
            }
            assert(total@[done] == rest[0]);
        }
        r.push(piece);
        if e >= n0 {
            proof {
                assert(r@.len() == total@.len());
            }
            return r;
        }
        i = e + 1;
    }
}

} // verus!
