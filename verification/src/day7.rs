use vstd::prelude::*;

use crate::lines::{copy_range, find_byte_from, lemma_find_byte_from, lines_of, split_lines};
use crate::parse::{all_digits, digits_val, is_digit, lemma_digits_val_nonneg,
    lemma_digits_val_prefix};
use vstd::string::StringSliceAdditionalSpecFns;

verus! {

/// A directory met while replaying the transcript: its full path and the
/// transcript line of the `cd` into it.
pub struct DirPos {
    pub full_name: Vec<u8>,
    pub line: usize,
}

/// The paths-and-lines a directory index stands for.
pub open spec fn index_view(r: Seq<DirPos>) -> Seq<(Seq<u8>, int)> {
    Seq::new(r.len(), |k: int| (r[k].full_name@, r[k].line as int))
}

/// The views of a sequence of byte lines.
pub open spec fn line_views(s: Seq<Vec<u8>>) -> Seq<Seq<u8>> {
    Seq::new(s.len(), |k: int| s[k]@)
}

/// The keys and sizes a size table stands for.
pub open spec fn table_view(t: Seq<(Vec<u8>, usize)>) -> Seq<(Seq<u8>, int)> {
    Seq::new(t.len(), |k: int| (t[k].0@, t[k].1 as int))
}

/// The transcript line `$ cd ` followed by an argument.
pub open spec fn cd_prefix() -> Seq<u8> {
    seq![36u8, 32u8, 99u8, 100u8, 32u8]
}

/// The line changes directory.
pub open spec fn is_cd(line: Seq<u8>) -> bool {
    line.len() >= 5 && line.subrange(0, 5) == cd_prefix()
}

/// The line lists the current directory (`$ ls`).
pub open spec fn is_ls(line: Seq<u8>) -> bool {
    line == seq![36u8, 32u8, 108u8, 115u8]
}

/// The line is a command (starts with `$`).
pub open spec fn is_command(line: Seq<u8>) -> bool {
    line.len() > 0 && line[0] == 36
}

/// Index of the last slash in `s`, or `-1` if there is none.
pub open spec fn rfind_slash(s: Seq<u8>) -> int
    decreases s.len(),
{
    if s.len() == 0 {
        -1
    } else if s[s.len() - 1] == 47 {
        s.len() - 1
    } else {
        rfind_slash(s.subrange(0, s.len() - 1))
    }
}

/// `rfind_slash` finds the last slash.
pub proof fn lemma_rfind_slash(s: Seq<u8>)
    ensures
        -1 <= rfind_slash(s) < s.len(),
        rfind_slash(s) >= 0 ==> s[rfind_slash(s)] == 47,
        forall|k: int| rfind_slash(s) < k < s.len() ==> s[k] != 47,
    decreases s.len(),
{
    if s.len() > 0 && s[s.len() - 1] != 47 {
        let b = s.subrange(0, s.len() - 1);
        lemma_rfind_slash(b);
        assert forall|k: int| rfind_slash(s) < k < s.len() implies s[k] != 47 by {
            if k < s.len() - 1 {
                assert(b[k] == s[k]);
            }
        }
    }
}

/// The directory one `cd ..` up from `cur`: the path up to its last slash,
/// or the empty path if it has none.
pub open spec fn parent_dir(cur: Seq<u8>) -> Seq<u8> {
    if rfind_slash(cur) < 0 {
        Seq::empty()
    } else {
        cur.subrange(0, rfind_slash(cur))
    }
}

/// A child path under a parent: separated by a slash, except directly under
/// the root.
pub open spec fn join_spec(parent: Seq<u8>, child: Seq<u8>) -> Seq<u8> {
    if parent == seq![47u8] {
        parent + child
    } else {
        parent + seq![47u8] + child
    }
}

/// The current directory after replaying the first `k` lines of the
/// transcript: `cd /` goes to the root, `cd ..` one level up, any other
/// `cd` one level down.
pub open spec fn cur_dir_after(vs: Seq<Seq<u8>>, k: int) -> Seq<u8>
    decreases k,
{
    if k <= 0 {
        Seq::empty()
    } else {
        let prev = cur_dir_after(vs, k - 1);
        let line = vs[k - 1];
        if !is_cd(line) {
            prev
        } else {
            let arg = line.subrange(5, line.len() as int);
            if arg == seq![46u8, 46u8] {
                parent_dir(prev)
            } else if arg == seq![47u8] {
                seq![47u8]
            } else {
                join_spec(prev, arg)
            }
        }
    }
}

/// The directory index after the first `k` lines: one entry per `cd` into a
/// directory (not `cd ..`), holding the full path entered and the line of
/// the command.
pub open spec fn dir_index_upto(vs: Seq<Seq<u8>>, k: int) -> Seq<(Seq<u8>, int)>
    decreases k,
{
    if k <= 0 {
        Seq::empty()
    } else {
        let rest = dir_index_upto(vs, k - 1);
        let line = vs[k - 1];
        if is_cd(line) && line.subrange(5, line.len() as int) != seq![46u8, 46u8] {
            rest.push((cur_dir_after(vs, k), k - 1))
        } else {
            rest
        }
    }
}

/// The size recorded for `key`, scanning the table from the front.
pub open spec fn lookup(m: Seq<(Seq<u8>, int)>, key: Seq<u8>) -> Option<int>
    decreases m.len(),
{
    if m.len() == 0 {
        None
    } else if m[0].0 == key {
        Some(m[0].1)
    } else {
        lookup(m.subrange(1, m.len() as int), key)
    }
}

/// The table with `key` bound to `v`: the first entry for `key` replaced,
/// or a new entry appended.
pub open spec fn store(m: Seq<(Seq<u8>, int)>, key: Seq<u8>, v: int) -> Seq<(Seq<u8>, int)>
    decreases m.len(),
{
    if m.len() == 0 {
        seq![(key, v)]
    } else if m[0].0 == key {
        seq![(key, v)] + m.subrange(1, m.len() as int)
    } else {
        seq![m[0]] + store(m.subrange(1, m.len() as int), key, v)
    }
}

/// Every recorded size is non-negative.
pub open spec fn sizes_nonneg(m: Seq<(Seq<u8>, int)>) -> bool {
    forall|k: int| 0 <= k < m.len() ==> m[k].1 >= 0
}

/// Index of the first command line at or after `j`, or the end.
pub open spec fn ls_end(vs: Seq<Seq<u8>>, j: int) -> int
    decreases vs.len() - j,
{
    if j < 0 || j >= vs.len() {
        vs.len() as int
    } else if is_command(vs[j]) {
        j
    } else {
        ls_end(vs, j + 1)
    }
}

/// `ls_end` finds the first command line.
pub proof fn lemma_ls_end(vs: Seq<Seq<u8>>, j: int)
    requires
        0 <= j <= vs.len(),
    ensures
        j <= ls_end(vs, j) <= vs.len(),
        ls_end(vs, j) < vs.len() ==> is_command(vs[ls_end(vs, j)]),
        forall|k: int| j <= k < ls_end(vs, j) ==> !is_command(vs[k]),
    decreases vs.len() - j,
{
    if j < vs.len() && !is_command(vs[j]) {
        lemma_ls_end(vs, j + 1);
    }
}

/// What one listing line contributes to a directory's size: a file line its
/// size (an oversized or malformed size counts nothing), a `dir` line the
/// recorded size of that child directory (not yet recorded: the whole
/// computation fails), any line without a space nothing.
pub open spec fn entry_size(line: Seq<u8>, cur: Seq<u8>, m: Seq<(Seq<u8>, int)>) -> Option<int> {
    let sp = find_byte_from(line, 0, 32);
    if sp >= line.len() {
        Some(0)
    } else {
        let first = line.subrange(0, sp);
        let rest = line.subrange(sp + 1, line.len() as int);
        if first == seq![100u8, 105u8, 114u8] {
            lookup(m, join_spec(cur, rest))
        } else if first.len() > 0 && all_digits(first) && digits_val(first) <= usize::MAX {
            Some(digits_val(first))
        } else {
            Some(0)
        }
    }
}

/// Total size listed for a directory over the listing lines `j..end`.
pub open spec fn dir_total(
    vs: Seq<Seq<u8>>,
    j: int,
    end: int,
    cur: Seq<u8>,
    m: Seq<(Seq<u8>, int)>,
) -> Option<int>
    decreases end - j,
{
    if j >= end {
        Some(0)
    } else {
        match entry_size(vs[j], cur, m) {
            Option::None => None,
            Option::Some(v) => match dir_total(vs, j + 1, end, cur, m) {
                Option::None => None,
                Option::Some(rest) => Some(v + rest),
            },
        }
    }
}

/// The size table after processing the last `k` index entries, innermost
/// (latest-entered) first. Each entry must be followed by `$ ls`; its size
/// is the listing total, which must fit the size width.
pub open spec fn sizes_after(vs: Seq<Seq<u8>>, di: Seq<(Seq<u8>, int)>, k: int) -> Option<
    Seq<(Seq<u8>, int)>,
>
    decreases k,
{
    if k <= 0 {
        Some(Seq::empty())
    } else {
        match sizes_after(vs, di, k - 1) {
            Option::None => None,
            Option::Some(m) => {
                let name = di[di.len() - k].0;
                let l = di[di.len() - k].1;
                if l + 1 >= vs.len() || !is_ls(vs[l + 1]) {
                    None
                } else {
                    let end = ls_end(vs, l + 2);
                    match dir_total(vs, l + 2, end, name, m) {
                        Option::None => None,
                        Option::Some(total) => if total <= usize::MAX {
                            Some(store(m, name, total))
                        } else {
                            None
                        },
                    }
                }
            },
        }
    }
}

/// The size of every directory of the index, keyed by full path.
pub open spec fn compute_sizes_spec(vs: Seq<Seq<u8>>, di: Seq<(Seq<u8>, int)>) -> Option<
    Seq<(Seq<u8>, int)>,
> {
    sizes_after(vs, di, di.len() as int)
}

/// Sum of the recorded sizes that are at most 100000.
pub open spec fn sum_small(m: Seq<(Seq<u8>, int)>) -> int
    decreases m.len(),
{
    if m.len() == 0 {
        0
    } else {
        (if m[0].1 <= 100000 {
            m[0].1
        } else {
            0
        }) + sum_small(m.subrange(1, m.len() as int))
    }
}

/// Smallest recorded size that is at least `bound`, if any.
pub open spec fn min_ge(m: Seq<(Seq<u8>, int)>, bound: int) -> Option<int>
    decreases m.len(),
{
    if m.len() == 0 {
        None
    } else {
        let rest = min_ge(m.subrange(1, m.len() as int), bound);
        if m[0].1 >= bound {
            match rest {
                Option::None => Some(m[0].1),
                Option::Some(v) => if m[0].1 <= v {
                    Some(m[0].1)
                } else {
                    Some(v)
                },
            }
        } else {
            rest
        }
    }
}

/// The two answers of the directory puzzle: the sum of all directory sizes
/// at most 100000, and the smallest directory size whose deletion frees
/// enough space (70000000 total, 30000000 needed). Nothing is reported when
/// the transcript breaks an assumption: a `cd` not followed by `$ ls`, a
/// listed child directory without a recorded size, a size total beyond the
/// size width, no root directory, a root larger than the disk, more than
/// enough space already free, no directory large enough, or a first answer
/// beyond the size width.
pub open spec fn day7_spec(vs: Seq<Seq<u8>>) -> Option<(int, int)> {
    let di = dir_index_upto(vs, vs.len() as int);
    match compute_sizes_spec(vs, di) {
        Option::None => None,
        Option::Some(m) => {
            let p1 = sum_small(m);
            match lookup(m, seq![47u8]) {
                Option::None => None,
                Option::Some(root) => if root > 70000000 {
                    None
                } else if 70000000 - root > 30000000 {
                    None
                } else {
                    match min_ge(m, 30000000 - (70000000 - root)) {
                        Option::None => None,
                        Option::Some(p2) => if p1 <= usize::MAX {
                            Some((p1, p2))
                        } else {
                            None
                        },
                    }
                },
            }
        },
    }
}


/// Sizes looked up in a non-negative table are non-negative.
pub proof fn lemma_lookup_nonneg(m: Seq<(Seq<u8>, int)>, key: Seq<u8>)
    requires
        sizes_nonneg(m),
    ensures
        lookup(m, key) matches Some(v) ==> v >= 0,
    decreases m.len(),
{
    if m.len() > 0 && m[0].0 != key {
        let t = m.subrange(1, m.len() as int);
        assert(sizes_nonneg(t));
        lemma_lookup_nonneg(t, key);
    }
}

/// A listing line contributes a non-negative size.
pub proof fn lemma_entry_size_nonneg(line: Seq<u8>, cur: Seq<u8>, m: Seq<(Seq<u8>, int)>)
    requires
        sizes_nonneg(m),
    ensures
        entry_size(line, cur, m) matches Some(v) ==> v >= 0,
{
    let sp = find_byte_from(line, 0, 32);
    if sp < line.len() {
        let first = line.subrange(0, sp);
        if first == seq![100u8, 105u8, 114u8] {
            lemma_lookup_nonneg(m, join_spec(cur, line.subrange(sp + 1, line.len() as int)));
        } else if first.len() > 0 && all_digits(first) && digits_val(first) <= usize::MAX {
            lemma_digits_val_nonneg(first);
        }
    }
}

/// A listing total is non-negative.
pub proof fn lemma_dir_total_nonneg(
    vs: Seq<Seq<u8>>,
    j: int,
    end: int,
    cur: Seq<u8>,
    m: Seq<(Seq<u8>, int)>,
)
    requires
        sizes_nonneg(m),
    ensures
        dir_total(vs, j, end, cur, m) matches Some(t) ==> t >= 0,
    decreases end - j,
{
    if j < end {
        lemma_entry_size_nonneg(vs[j], cur, m);
        lemma_dir_total_nonneg(vs, j + 1, end, cur, m);
    }
}

/// Looking up past a prefix without the key looks up in the rest.
pub proof fn lemma_lookup_skip(m: Seq<(Seq<u8>, int)>, key: Seq<u8>, i: int)
    requires
        0 <= i <= m.len(),
        forall|k: int| 0 <= k < i ==> m[k].0 != key,
    ensures
        lookup(m, key) == lookup(m.subrange(i, m.len() as int), key),
    decreases i,
{
    if i == 0 {
        assert(m.subrange(0, m.len() as int) =~= m);
    } else {
        let t = m.subrange(1, m.len() as int);
        assert forall|k: int| 0 <= k < i - 1 implies t[k].0 != key by {
            assert(t[k] == m[k + 1]);
        }
        lemma_lookup_skip(t, key, i - 1);
        assert(t.subrange(i - 1, t.len() as int) =~= m.subrange(i, m.len() as int));
    }
}

/// Storing over the first matching entry replaces it in place.
pub proof fn lemma_store_at(m: Seq<(Seq<u8>, int)>, key: Seq<u8>, v: int, i: int)
    requires
        0 <= i < m.len(),
        m[i].0 == key,
        forall|k: int| 0 <= k < i ==> m[k].0 != key,
    ensures
        store(m, key, v) == m.update(i, (key, v)),
    decreases i,
{
    if i == 0 {
        assert(store(m, key, v) =~= m.update(0, (key, v)));
    } else {
        let t = m.subrange(1, m.len() as int);
        assert forall|k: int| 0 <= k < i - 1 implies t[k].0 != key by {
            assert(t[k] == m[k + 1]);
        }
        assert(t[i - 1].0 == key);
        lemma_store_at(t, key, v, i - 1);
        assert(store(m, key, v) =~= m.update(i, (key, v)));
    }
}

/// Storing an absent key appends it.
pub proof fn lemma_store_absent(m: Seq<(Seq<u8>, int)>, key: Seq<u8>, v: int)
    requires
        forall|k: int| 0 <= k < m.len() ==> m[k].0 != key,
    ensures
        store(m, key, v) == m.push((key, v)),
    decreases m.len(),
{
    if m.len() == 0 {
        assert(store(m, key, v) =~= m.push((key, v)));
    } else {
        let t = m.subrange(1, m.len() as int);
        assert forall|k: int| 0 <= k < t.len() implies t[k].0 != key by {
            assert(t[k] == m[k + 1]);
        }
        lemma_store_absent(t, key, v);
        assert(store(m, key, v) =~= m.push((key, v)));
    }
}

/// Two byte strings are equal.
fn bytes_eq(a: &[u8], b: &[u8]) -> (r: bool)
    ensures
        r <==> a@ == b@,
{
    if a.len() != b.len() {
        return false;
    }
    let mut i: usize = 0;
    while i < a.len()
        invariant
            a@.len() == b@.len(),
            0 <= i <= a@.len(),
            forall|k: int| 0 <= k < i ==> a@[k] == b@[k],
        decreases a@.len() - i,
    {
        if a[i] != b[i] {
            return false;
        }
        i = i + 1;
    }
    proof {
        assert(a@ =~= b@);
    }
    true
}

/// Join a child name onto a parent path, as paths in the transcript are
/// written: with a slash between them, unless the parent is the root.
pub fn join_dir(parent: &[u8], child: &[u8]) -> (r: Vec<u8>)
    ensures
        r@ == join_spec(parent@, child@),
{
    let mut r = copy_range(parent, 0, parent.len());
    proof {
        assert(parent@.subrange(0, parent@.len() as int) =~= parent@);
    }
    let is_root = parent.len() == 1 && parent[0] == 47;
    proof {
        if is_root {
            assert(parent@ =~= seq![47u8]);
        }
    }
    if !is_root {
        r.push(47);
    }
    let ghost base = r@;
    let mut j: usize = 0;
    while j < child.len()
        invariant
            0 <= j <= child@.len(),
            r@ == base + child@.subrange(0, j as int),
        decreases child@.len() - j,
    {
        r.push(child[j]);
        proof {
            assert(base + child@.subrange(0, j + 1 as int) =~= (base + child@.subrange(
                0,
                j as int,
            )).push(child@[j as int]));
        }
        j = j + 1;
    }
    proof {
        assert(child@.subrange(0, child@.len() as int) =~= child@);
        if parent@ == seq![47u8] {
            assert(r@ =~= join_spec(parent@, child@));
        } else {
            assert(r@ =~= join_spec(parent@, child@));
        }
    }
    r
}

/// Replace the current path by its parent directory.
fn cut_to_parent(cur: &mut Vec<u8>)
    ensures
        final(cur)@ == parent_dir(old(cur)@),
{
    let ghost s = cur@;
    proof {
        lemma_rfind_slash(s);
    }
    let mut j: usize = cur.len();
    while j > 0 && cur[j - 1] != 47
        invariant
            s == cur@,
            0 <= j <= s.len(),
            forall|k: int| j <= k < s.len() ==> s[k] != 47,
        decreases j,
    {
        j = j - 1;
    }
    if j == 0 {
        proof {
            assert(rfind_slash(s) < 0) by {
                if rfind_slash(s) >= 0 {
                    assert(s[rfind_slash(s)] == 47);
                }
            }
        }
        let empty: Vec<u8> = Vec::new();
        *cur = empty;
        proof {
            assert(cur@ =~= parent_dir(s));
        }
    } else {
        proof {
            assert(s[j - 1] == 47);
            assert(rfind_slash(s) == j - 1) by {
                if rfind_slash(s) > j - 1 {
                    assert(s[rfind_slash(s)] != 47);
                } else if rfind_slash(s) < j - 1 {
                    assert(s[j - 1] != 47);
                }
            }
        }
        let trimmed = copy_range(cur.as_slice(), 0, j - 1);
        *cur = trimmed;
    }
}

/// Build the directory index of a transcript: one entry per `cd` into a
/// directory, with its full path and its line number.
pub fn create_dir_index(lines: &Vec<Vec<u8>>) -> (r: Vec<DirPos>)
    ensures
        index_view(r@) == dir_index_upto(line_views(lines@), lines@.len() as int),
{
    let ghost vs = line_views(lines@);
    let mut cur: Vec<u8> = Vec::new();
    let mut out: Vec<DirPos> = Vec::new();
    let mut i: usize = 0;
    proof {
        assert(index_view(out@) =~= dir_index_upto(vs, 0));
    }
    while i < lines.len()
        invariant
            vs == line_views(lines@),
            vs.len() == lines@.len(),
            0 <= i <= vs.len(),
            cur@ == cur_dir_after(vs, i as int),
            index_view(out@) == dir_index_upto(vs, i as int),
        decreases vs.len() - i,
    {
        let line = &lines[i];
        let ghost lv = vs[i as int];
        proof {
            assert(lv == lines@[i as int]@);
        }
        let cd = line.len() >= 5 && line[0] == 36 && line[1] == 32 && line[2] == 99 && line[3]
            == 100 && line[4] == 32;
        proof {
            if cd {
                assert(lv.subrange(0, 5) =~= cd_prefix());
            } else {
                if is_cd(lv) {
                    assert(lv.subrange(0, 5) == cd_prefix());
                    assert(lv[0] == 36 && lv[1] == 32 && lv[2] == 99 && lv[3] == 100 && lv[4]
                        == 32) by {
                        assert(lv.subrange(0, 5)[0] == lv[0] && lv.subrange(0, 5)[1] == lv[1]
                            && lv.subrange(0, 5)[2] == lv[2] && lv.subrange(0, 5)[3] == lv[3]
                            && lv.subrange(0, 5)[4] == lv[4]);
                    }
                }
                assert(!is_cd(lv));
            }
        }
        if cd {
            let ghost arg = lv.subrange(5, lv.len() as int);
            if line.len() == 7 && line[5] == 46 && line[6] == 46 {
                proof {
                    assert(arg =~= seq![46u8, 46u8]);
                }
                cut_to_parent(&mut cur);
            } else if line.len() == 6 && line[5] == 47 {
                proof {
                    assert(arg =~= seq![47u8]);
                    assert(arg != seq![46u8, 46u8]);
                }
                let mut root: Vec<u8> = Vec::new();
                root.push(47);
                cur = root;
                proof {
                    assert(cur@ =~= seq![47u8]);
                }
                let name = copy_range(cur.as_slice(), 0, cur.len());
                proof {
                    assert(name@ =~= cur@);
                }
                out.push(DirPos { full_name: name, line: i });
            } else {
                proof {
                    assert(arg != seq![46u8, 46u8]) by {
                        if arg == seq![46u8, 46u8] {
                            assert(lv.len() == 7);
                            assert(arg[0] == lv[5] && arg[1] == lv[6]);
                        }
                    }
                    assert(arg != seq![47u8]) by {
                        if arg == seq![47u8] {
                            assert(lv.len() == 6);
                            assert(arg[0] == lv[5]);
                        }
                    }
                }
                let argv = copy_range(line.as_slice(), 5, line.len());
                proof {
                    assert(argv@ =~= arg);
                }
                let joined = join_dir(cur.as_slice(), argv.as_slice());
                cur = joined;
                let name = copy_range(cur.as_slice(), 0, cur.len());
                proof {
                    assert(name@ =~= cur@);
                }
                out.push(DirPos { full_name: name, line: i });
            }
        }
        proof {
            assert(cur@ == cur_dir_after(vs, i + 1));
            assert(index_view(out@) =~= dir_index_upto(vs, i + 1));
        }
        i = i + 1;
    }
    out
}

/// The recorded size of `key`, if any.
fn table_get(t: &Vec<(Vec<u8>, usize)>, key: &[u8]) -> (r: Option<usize>)
    ensures
        match r {
            Some(v) => lookup(table_view(t@), key@) == Some(v as int),
            None => lookup(table_view(t@), key@) is None,
        },
{
    let ghost m = table_view(t@);
    let mut i: usize = 0;
    while i < t.len()
        invariant
            m == table_view(t@),
            m.len() == t@.len(),
            0 <= i <= m.len(),
            forall|k: int| 0 <= k < i ==> m[k].0 != key@,
        decreases m.len() - i,
    {
        if bytes_eq(t[i].0.as_slice(), key) {
            proof {
                lemma_lookup_skip(m, key@, i as int);
                assert(m.subrange(i as int, m.len() as int)[0] == m[i as int]);
            }
            return Some(t[i].1);
        }
        i = i + 1;
    }
    proof {
        lemma_lookup_skip(m, key@, m.len() as int);
        assert(m.subrange(m.len() as int, m.len() as int) =~= Seq::<(Seq<u8>, int)>::empty());
    }
    None
}

/// Record `v` as the size of `key`, replacing any earlier record.
fn table_put(t: &mut Vec<(Vec<u8>, usize)>, key: Vec<u8>, v: usize)
    ensures
        table_view(final(t)@) == store(table_view(old(t)@), key@, v as int),
{
    let ghost m = table_view(t@);
    let mut i: usize = 0;
    while i < t.len()
        invariant
            m == table_view(t@),
            m == table_view(old(t)@),
            t@ == old(t)@,
            m.len() == t@.len(),
            0 <= i <= m.len(),
            forall|k: int| 0 <= k < i ==> m[k].0 != key@,
        decreases m.len() - i,
    {
        if bytes_eq(t[i].0.as_slice(), key.as_slice()) {
            proof {
                lemma_store_at(m, key@, v as int, i as int);
            }
            let ghost before = t@;
            t.remove(i);
            t.insert(i, (key, v));
            proof {
                assert(t@ =~= before.update(i as int, (key, v)));
                assert(table_view(t@) =~= m.update(i as int, (key@, v as int)));
            }
            return ;
        }
        i = i + 1;
    }
    proof {
        lemma_store_absent(m, key@, v as int);
    }
    t.push((key, v));
    proof {
        assert(table_view(t@) =~= m.push((key@, v as int)));
    }
}

/// What one listing line contributes to the current directory's size.
fn entry_contrib(line: &Vec<u8>, cur: &Vec<u8>, table: &Vec<(Vec<u8>, usize)>) -> (r: Option<
    usize,
>)
    ensures
        match r {
            Some(v) => entry_size(line@, cur@, table_view(table@)) == Some(v as int),
            None => entry_size(line@, cur@, table_view(table@)) is None,
        },
{
    let ghost lv = line@;
    let mut sp: usize = 0;
    while sp < line.len() && line[sp] != 32
        invariant
            0 <= sp <= lv.len(),
            lv == line@,
            forall|k: int| 0 <= k < sp ==> lv[k] != 32,
        decreases lv.len() - sp,
    {
        sp = sp + 1;
    }
    proof {
        lemma_find_byte_from(lv, 0, 32);
        assert(find_byte_from(lv, 0, 32) == sp as int) by {
            let f = find_byte_from(lv, 0, 32);
            if f < sp {
                assert(lv[f] != 32);
            } else if (sp as int) < f {
                assert(lv[sp as int] != 32);
            }
        }
    }
    if sp == line.len() {
        return Some(0);
    }
    let ghost first = lv.subrange(0, sp as int);
    let ghost rest = lv.subrange(sp + 1, lv.len() as int);
    if sp == 3 && line[0] == 100 && line[1] == 105 && line[2] == 114 {
        proof {
            assert(first =~= seq![100u8, 105u8, 114u8]);
        }
        let child = copy_range(line.as_slice(), sp + 1, line.len());
        proof {
            assert(child@ =~= rest);
        }
        let path = join_dir(cur.as_slice(), child.as_slice());
        match table_get(table, path.as_slice()) {
            Some(v) => Some(v),
            None => None,
        }
    } else {
        proof {
            assert(first != seq![100u8, 105u8, 114u8]) by {
                if first == seq![100u8, 105u8, 114u8] {
                    assert(first.len() == 3);
                    assert(first[0] == lv[0] && first[1] == lv[1] && first[2] == lv[2]);
                }
            }
        }
        // a file entry: its size if the token is a well-formed size
        if sp == 0 {
            return Some(0);
        }
        let mut k: usize = 0;
        let mut digits = true;
        while k < sp
            invariant
                0 <= k <= sp <= lv.len(),
                lv == line@,
                first == lv.subrange(0, sp as int),
                digits <==> (forall|q: int| 0 <= q < k ==> is_digit(first[q])),
            decreases sp - k,
        {
            let c = line[k];
            if c < 48 || c > 57 {
                proof {
                    assert(!is_digit(first[k as int]));
                }
                digits = false;
            }
            k = k + 1;
        }
        if !digits {
            proof {
                assert(!all_digits(first));
            }
            return Some(0);
        }
        proof {
            assert(all_digits(first));
        }
        let mut val: usize = 0;
        let mut k2: usize = 0;
        while k2 < sp
            invariant
                0 <= k2 <= sp <= lv.len(),
                lv == line@,
                first == lv.subrange(0, sp as int),
                find_byte_from(lv, 0, 32) == sp as int,
                first != seq![100u8, 105u8, 114u8],
                sp > 0,
                all_digits(first),
                val == digits_val(first.subrange(0, k2 as int)),
            decreases sp - k2,
        {
            let c = line[k2];
            proof {
                assert(first[k2 as int] == lv[k2 as int]);
                assert(is_digit(first[k2 as int]));
            }
            let d = (c - 48) as usize;
            let ghost p = first.subrange(0, k2 as int);
            let ghost q = first.subrange(0, k2 + 1 as int);
            proof {
                assert(q.subrange(0, q.len() - 1) =~= p);
                assert(digits_val(q) == digits_val(p) * 10 + (first[k2 as int] - 48));
                lemma_digits_val_nonneg(p);
            }
            if val > (usize::MAX - d) / 10 {
                proof {
                    assert(digits_val(q) > usize::MAX) by (nonlinear_arith)
                        requires
                            digits_val(q) == val * 10 + d,
                            val > (usize::MAX - d) / 10,
                            0 <= d <= 9,
                    {}
                    lemma_digits_val_prefix(first, k2 + 1);
                }
                return Some(0);
            }
            proof {
                assert(val * 10 + d <= usize::MAX) by (nonlinear_arith)
                    requires
                        val <= (usize::MAX - d) / 10,
                        0 <= d <= 9,
                        0 <= val,
                {}
            }
            val = val * 10 + d;
            k2 = k2 + 1;
        }
        proof {
            assert(first.subrange(0, sp as int) =~= first);
        }
        Some(val)
    }
}


/// A failure at any entry fails every later stage.
pub proof fn lemma_sizes_after_none(vs: Seq<Seq<u8>>, di: Seq<(Seq<u8>, int)>, a: int, b: int)
    requires
        0 <= a <= b,
        sizes_after(vs, di, a) is None,
    ensures
        sizes_after(vs, di, b) is None,
    decreases b - a,
{
    if b > a {
        lemma_sizes_after_none(vs, di, a, b - 1);
    }
}

/// The sum of the small sizes of a non-negative table is non-negative.
pub proof fn lemma_sum_small_nonneg(m: Seq<(Seq<u8>, int)>)
    requires
        sizes_nonneg(m),
    ensures
        sum_small(m) >= 0,
    decreases m.len(),
{
    if m.len() > 0 {
        let t = m.subrange(1, m.len() as int);
        assert(sizes_nonneg(t));
        lemma_sum_small_nonneg(t);
    }
}

/// Compute the size of each directory of the index, innermost first, so
/// that a directory's listing only refers to already-sized children.
/// Nothing is returned when the transcript breaks an assumption of the
/// index: see [`day7_spec`].
pub fn compute_sizes(lines: &Vec<Vec<u8>>, dir_index: Vec<DirPos>) -> (r: Option<
    Vec<(Vec<u8>, usize)>,
>)
    ensures
        match r {
            Some(t) => compute_sizes_spec(line_views(lines@), index_view(dir_index@)) == Some(
                table_view(t@),
            ),
            None => compute_sizes_spec(line_views(lines@), index_view(dir_index@)) is None,
        },
{
    let ghost vs = line_views(lines@);
    let ghost di = index_view(dir_index@);
    let mut table: Vec<(Vec<u8>, usize)> = Vec::new();
    let n = dir_index.len();
    let mut k: usize = 0;
    proof {
        assert(table_view(table@) =~= Seq::<(Seq<u8>, int)>::empty());
    }
    while k < n
        invariant
            vs == line_views(lines@),
            di == index_view(dir_index@),
            vs.len() == lines@.len(),
            n == dir_index@.len(),
            di.len() == n,
            0 <= k <= n,
            sizes_after(vs, di, k as int) == Some(table_view(table@)),
        decreases n - k,
    {
        let dp = &dir_index[n - 1 - k];
        let ghost name = dp.full_name@;
        let l = dp.line;
        let ghost m = table_view(table@);
        proof {
            assert(di[di.len() - (k + 1)] == (name, l as int));
        }
        if l >= lines.len() {
            proof {
                lemma_sizes_after_none(vs, di, k + 1, di.len() as int);
            }
            return None;
        }
        if l + 1 >= lines.len() {
            proof {
                lemma_sizes_after_none(vs, di, k + 1, di.len() as int);
            }
            return None;
        }
        let nxt = &lines[l + 1];
        let ghost nv = vs[l + 1 as int];
        let ls_ok = nxt.len() == 4 && nxt[0] == 36 && nxt[1] == 32 && nxt[2] == 108 && nxt[3]
            == 115;
        proof {
            if ls_ok {
                assert(nv =~= seq![36u8, 32u8, 108u8, 115u8]);
            } else {
                if is_ls(nv) {
                    assert(nv.len() == 4);
                    assert(nv[0] == 36 && nv[1] == 32 && nv[2] == 108 && nv[3] == 115);
                }
                assert(!is_ls(nv));
            }
        }
        if !ls_ok {
            proof {
                lemma_sizes_after_none(vs, di, k + 1, di.len() as int);
            }
            return None;
        }
        let ghost end = ls_end(vs, l + 2);
        proof {
            lemma_ls_end(vs, l + 2);
            assert(sizes_nonneg(m));
        }
        let mut j: usize = l + 2;
        let mut total: usize = 0;
        while j < lines.len() && !(lines[j].len() > 0 && lines[j][0] == 36)
            invariant
                vs == line_views(lines@),
                di == index_view(dir_index@),
                vs.len() == lines@.len(),
                n == dir_index@.len(),
                di.len() == n,
                0 <= k < n,
                m == table_view(table@),
                sizes_nonneg(m),
                sizes_after(vs, di, k as int) == Some(m),
                di[di.len() - (k + 1)] == (name, l as int),
                l + 2 <= vs.len(),
                is_ls(vs[l + 1 as int]),
                end == ls_end(vs, l + 2),
                l + 2 <= end <= vs.len(),
                end < vs.len() ==> is_command(vs[end]),
                forall|q: int| l + 2 <= q < end ==> !is_command(vs[q]),
                l + 2 <= j <= end,
                name == dp.full_name@,
                (match dir_total(vs, j as int, end, name, m) {
                    Option::Some(t2) => dir_total(vs, l + 2, end, name, m) == Some(total + t2),
                    Option::None => dir_total(vs, l + 2, end, name, m) is None,
                }),
            decreases vs.len() - j,
        {
            proof {
                assert(!is_command(vs[j as int]));
                assert(j < end) by {
                    if j == end {
                        assert(end < vs.len());
                        assert(is_command(vs[end]));
                    }
                }
            }
            proof {
                assert(vs[j as int] == lines@[j as int]@);
            }
            match entry_contrib(&lines[j], &dp.full_name, &table) {
                Some(v) => {
                    proof {
                        lemma_dir_total_nonneg(vs, j + 1, end, name, m);
                        assert(entry_size(vs[j as int], name, m) == Some(v as int));
                        assert(dir_total(vs, j as int, end, name, m) == (
                        match dir_total(vs, j + 1, end, name, m) {
                            Option::Some(rest) => Some(v as int + rest),
                            Option::None => None::<int>,
                        }));
                    }
                    if v > usize::MAX - total {
                        proof {
                            match dir_total(vs, l + 2, end, name, m) {
                                Option::Some(t0) => {
                                    assert(t0 > usize::MAX);
                                },
                                Option::None => {},
                            }
                            assert(sizes_after(vs, di, k + 1 as int) is None);
                            lemma_sizes_after_none(vs, di, k + 1, di.len() as int);
                        }
                        return None;
                    }
                    total = total + v;
                },
                None => {
                    proof {
                        assert(entry_size(vs[j as int], name, m) is None);
                        assert(dir_total(vs, j as int, end, name, m) is None);
                        assert(dir_total(vs, l + 2, end, name, m) is None);
                        assert(sizes_after(vs, di, k + 1 as int) is None);
                        lemma_sizes_after_none(vs, di, k + 1, di.len() as int);
                    }
                    return None;
                },
            }
            j = j + 1;
        }
        proof {
            assert(j as int == end) by {
                if (j as int) < end {
                    assert(!is_command(vs[j as int]));
                    assert(j < vs.len());
                    assert(vs[j as int] == lines@[j as int]@);
                }
            }
            assert(dir_total(vs, end, end, name, m) == Some(0int));
            assert(dir_total(vs, l + 2, end, name, m) == Some(total + 0));
        }
        let key = copy_range(dp.full_name.as_slice(), 0, dp.full_name.len());
        proof {
            assert(key@ =~= name);
        }
        table_put(&mut table, key, total);
        k = k + 1;
    }
    Some(table)
}

/// Solve the directory puzzle from the raw transcript: the sum of all
/// directory sizes at most 100000, and the smallest directory size freeing
/// enough space, or nothing when the transcript breaks an assumption (see
/// [`day7_spec`]).
pub fn day7(input: &str) -> (r: Option<(usize, usize)>)
    ensures
        match r {
            Some(p) => day7_spec(lines_of(input.spec_bytes())) == Some((p.0 as int, p.1 as int)),
            None => day7_spec(lines_of(input.spec_bytes())) is None,
        },
{
    let bytes = input.as_bytes();
    let lines = split_lines(bytes);
    let ghost vs = lines_of(bytes@);
    proof {
        assert(line_views(lines@) =~= vs);
    }
    let dir_index = create_dir_index(&lines);
    let table = match compute_sizes(&lines, dir_index) {
        Some(t) => t,
        None => {
            return None;
        },
    };
    let ghost m = table_view(table@);
    proof {
        assert(sizes_nonneg(m));
        assert(vs.len() == lines@.len());
        assert(compute_sizes_spec(vs, dir_index_upto(vs, vs.len() as int)) == Some(m));
    }
    // the sum of the small directory sizes
    let mut p1: usize = 0;
    let mut idx: usize = 0;
    proof {
        assert(m.subrange(0, m.len() as int) =~= m);
    }
    while idx < table.len()
        invariant
            m == table_view(table@),
            m.len() == table@.len(),
            sizes_nonneg(m),
            0 <= idx <= m.len(),
            vs == lines_of(input.spec_bytes()),
            compute_sizes_spec(vs, dir_index_upto(vs, vs.len() as int)) == Some(m),
            sum_small(m) == p1 + sum_small(m.subrange(idx as int, m.len() as int)),
        decreases m.len() - idx,
    {
        let ghost suf = m.subrange(idx as int, m.len() as int);
        proof {
            assert(suf[0] == m[idx as int]);
            assert(suf.subrange(1, suf.len() as int) =~= m.subrange(
                idx + 1,
                m.len() as int,
            ));
            assert(sizes_nonneg(m.subrange(idx + 1, m.len() as int)));
            lemma_sum_small_nonneg(m.subrange(idx + 1, m.len() as int));
        }
        let sz = table[idx].1;
        if sz <= 100000 {
            if sz > usize::MAX - p1 {
                proof {
                    assert(sum_small(m) > usize::MAX);
                }
                return None;
            }
            p1 = p1 + sz;
        }
        idx = idx + 1;
    }
    proof {
        assert(m.subrange(m.len() as int, m.len() as int) =~= Seq::<(Seq<u8>, int)>::empty());
        assert(p1 == sum_small(m));
    }
    // the root's size and the space that must be freed
    let mut root_key: Vec<u8> = Vec::new();
    root_key.push(47);
    proof {
        assert(root_key@ =~= seq![47u8]);
    }
    let root = match table_get(&table, root_key.as_slice()) {
        Some(v) => v,
        None => {
            return None;
        },
    };
    if root > 70000000 {
        return None;
    }
    let free = 70000000 - root;
    if free > 30000000 {
        return None;
    }
    let need = 30000000 - free;
    // the smallest directory that frees enough
    let mut best: Option<usize> = None;
    let mut back: usize = table.len();
    proof {
        assert(m.subrange(m.len() as int, m.len() as int) =~= Seq::<(Seq<u8>, int)>::empty());
    }
    while back > 0
        invariant
            m == table_view(table@),
            m.len() == table@.len(),
            0 <= back <= m.len(),
            (match best {
                Option::Some(v) => min_ge(m.subrange(back as int, m.len() as int), need as int)
                    == Some(v as int),
                Option::None => min_ge(m.subrange(back as int, m.len() as int), need as int)
                    is None,
            }),
        decreases back,
    {
        let ghost pre = m.subrange(back - 1, m.len() as int);
        proof {
            assert(pre[0] == m[back - 1]);
            assert(pre.subrange(1, pre.len() as int) =~= m.subrange(
                back as int,
                m.len() as int,
            ));
        }
        let sz = table[back - 1].1;
        if sz >= need {
            best = match best {
                Some(v) => if sz <= v {
                    Some(sz)
                } else {
                    Some(v)
                },
                None => Some(sz),
            };
        }
        back = back - 1;
    }
    proof {
        assert(m.subrange(0, m.len() as int) =~= m);
    }
    match best {
        Some(p2) => Some((p1, p2)),
        None => None,
    }
}

} // verus!
