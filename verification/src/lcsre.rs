//! The longest substring that occurs twice without overlapping itself.

use crate::text::chars_of;
use vstd::arithmetic::div_mod::{lemma_fundamental_div_mod, lemma_fundamental_div_mod_converse};
use vstd::prelude::*;

verus! {

/// The `len` characters of `s` that end at index `i` stand once more, ending
/// at index `j`, and the second copy starts at or behind the end of the
/// first.
pub open spec fn repeats_at(s: Seq<char>, len: int, i: int, j: int) -> bool {
    &&& 0 <= len <= i
    &&& i + len <= j <= s.len()
    &&& s.subrange(i - len, i) == s.subrange(j - len, j)
}

/// Some substring of `len` characters that ends at index `i` is repeated
/// further right without overlap.
pub open spec fn repeat_ends_at(s: Seq<char>, len: int, i: int) -> bool {
    exists|j: int| repeats_at(s, len, i, j)
}

/// `r` is the longest substring of `s` that is repeated without overlap:
/// no longer substring is, and among the repeated substrings of that length
/// `r` is the one whose first copy ends first.  Where nothing is repeated,
/// `r` is empty.
pub open spec fn is_longest_repeat(s: Seq<char>, r: Seq<char>) -> bool {
    &&& forall|len: int, i: int, j: int| len > r.len() ==> !repeats_at(s, len, i, j)
    &&& r.len() > 0 ==> exists|i: int|
        {
            &&& repeat_ends_at(s, r.len() as int, i)
            &&& r == s.subrange(i - r.len(), i)
            &&& forall|k: int| k < i ==> !repeat_ends_at(s, r.len() as int, k)
        }
}

/// How many characters in front of index `i` agree with those in front of
/// index `j`, read backwards from the two indices.
pub open spec fn common_suffix(s: Seq<char>, i: int, j: int) -> nat
    decreases i,
{
    if i <= 0 || j <= 0 || i > s.len() || j > s.len() || s[i - 1] != s[j - 1] {
        0
    } else {
        1 + common_suffix(s, i - 1, j - 1)
    }
}

/// The entry of the table for the indices `i < j`: the length of the
/// agreement in front of them, counted anew whenever it has reached the
/// distance between the two indices.
pub open spec fn cell(s: Seq<char>, i: int, j: int) -> nat {
    if 1 <= i < j <= s.len() {
        common_suffix(s, i, j) % ((j - i + 1) as nat)
    } else {
        0
    }
}

/// An entry follows from its neighbour up and left: it is one more where
/// the two characters agree and the neighbour is below the distance, and
/// zero otherwise.
proof fn lemma_cell_step(s: Seq<char>, i: int, j: int)
    requires
        1 <= i < j <= s.len(),
    ensures
        cell(s, i, j) == if s[i - 1] == s[j - 1] && cell(s, i - 1, j - 1) < j - i {
            cell(s, i - 1, j - 1) + 1
        } else {
            0
        },
        cell(s, i, j) <= j - i,
{
    let d = j - i;
    let m = common_suffix(s, i, j) as int;
    if s[i - 1] != s[j - 1] {
        assert(m == 0);
        assert(0int % (d + 1) == 0) by (nonlinear_arith)
            requires
                d >= 1,
        ;
    } else {
        let m1 = common_suffix(s, i - 1, j - 1) as int;
        assert(m == 1 + m1);
        if i - 1 >= 1 {
            let c1 = m1 % (d + 1);
            let q = m1 / (d + 1);
            lemma_fundamental_div_mod(m1, d + 1);
            assert(0 <= c1 < d + 1) by (nonlinear_arith)
                requires
                    c1 == m1 % (d + 1),
                    d >= 1,
            ;
            if c1 < d {
                lemma_fundamental_div_mod_converse(m, d + 1, q, c1 + 1);
            } else {
                assert(m == (q + 1) * (d + 1) + 0) by (nonlinear_arith)
                    requires
                        m == 1 + m1,
                        m1 == (d + 1) * q + c1,
                        c1 == d,
                ;
                lemma_fundamental_div_mod_converse(m, d + 1, q + 1, 0);
            }
        } else {
            assert(m1 == 0);
            lemma_fundamental_div_mod_converse(m, d + 1, 0, 1);
        }
    }
    assert(cell(s, i, j) <= d) by (nonlinear_arith)
        requires
            cell(s, i, j) == m % (d + 1),
            d >= 1,
            m >= 0,
    ;
}

/// The agreement in front of two indices is no longer than the smaller
/// index.
proof fn lemma_common_suffix_bound(s: Seq<char>, i: int, j: int)
    ensures
        common_suffix(s, i, j) <= i || common_suffix(s, i, j) == 0,
        common_suffix(s, i, j) <= j || common_suffix(s, i, j) == 0,
    decreases i,
{
    if i <= 0 || j <= 0 || i > s.len() || j > s.len() || s[i - 1] != s[j - 1] {
    } else {
        lemma_common_suffix_bound(s, i - 1, j - 1);
    }
}

/// The characters that agree are equal substrings.
proof fn lemma_suffix_gives_repeat(s: Seq<char>, len: int, i: int, j: int)
    requires
        0 <= len <= common_suffix(s, i, j),
        0 <= i <= s.len(),
        0 <= j <= s.len(),
    ensures
        len <= i,
        len <= j,
        s.subrange(i - len, i) == s.subrange(j - len, j),
    decreases len,
{
    lemma_common_suffix_bound(s, i, j);
    if len > 0 {
        lemma_suffix_gives_repeat(s, len - 1, i - 1, j - 1);
        let a = s.subrange(i - len, i);
        let b = s.subrange(j - len, j);
        assert forall|k: int| 0 <= k < len implies a[k] == b[k] by {
            if k < len - 1 {
                assert(a[k] == s.subrange(i - len, i - 1)[k]);
                assert(b[k] == s.subrange(j - len, j - 1)[k]);
            }
        }
        assert(a =~= b);
    } else {
        assert(s.subrange(i, i) =~= s.subrange(j, j));
    }
}

/// Equal substrings in front of two indices are part of the agreement.
proof fn lemma_repeat_gives_suffix(s: Seq<char>, len: int, i: int, j: int)
    requires
        0 <= len <= i <= s.len(),
        len <= j <= s.len(),
        s.subrange(i - len, i) == s.subrange(j - len, j),
    ensures
        common_suffix(s, i, j) >= len,
    decreases len,
{
    if len > 0 {
        let a = s.subrange(i - len, i);
        let b = s.subrange(j - len, j);
        assert(a[len - 1] == s[i - 1]);
        assert(b[len - 1] == s[j - 1]);
        assert(s.subrange(i - len, i - 1) =~= a.take(len - 1));
        assert(s.subrange(j - len, j - 1) =~= b.take(len - 1));
        lemma_repeat_gives_suffix(s, len - 1, i - 1, j - 1);
    }
}

/// Stepping both indices back by `k` takes `k` off the agreement.
proof fn lemma_suffix_shift(s: Seq<char>, i: int, j: int, k: int)
    requires
        0 <= k <= common_suffix(s, i, j),
    ensures
        common_suffix(s, i - k, j - k) == common_suffix(s, i, j) - k,
    decreases k,
{
    if k > 0 {
        lemma_suffix_shift(s, i - 1, j - 1, k - 1);
    }
}

/// Wherever a substring of `len` characters is repeated without overlap,
/// the table holds, at or in front of that place, an entry that is at least
/// `len`; where no repeat at that place is longer than `len`, the entry is
/// `len` itself.
proof fn lemma_repeat_shows(s: Seq<char>, len: int, i: int, j: int) -> (k: int)
    requires
        len >= 1,
        repeats_at(s, len, i, j),
    ensures
        0 <= k,
        1 <= i - k < j - k <= s.len(),
        cell(s, i - k, j - k) >= len,
        repeats_at(s, cell(s, i - k, j - k) as int, i, j),
{
    let m = common_suffix(s, i, j) as int;
    let d = j - i;
    lemma_repeat_gives_suffix(s, len, i, j);
    lemma_common_suffix_bound(s, i, j);
    let t = if m <= d {
        m
    } else {
        d
    };
    let k = m - t;
    lemma_suffix_shift(s, i, j, k);
    lemma_fundamental_div_mod_converse(t, d + 1, 0, t);
    lemma_suffix_gives_repeat(s, t, i, j);
    k
}

/// The entries of the rows up to `rows`, and those of the next row up to
/// column `cols`, are at most `best`, and those of the rows in front of row
/// `first` are below `best`.
pub open spec fn scanned(s: Seq<char>, rows: int, cols: int, best: int, first: int) -> bool {
    forall|i: int, j: int|
        1 <= i < j <= s.len() && (i <= rows || (i == rows + 1 && j <= cols)) ==> #[trigger] cell(
            s,
            i,
            j,
        ) <= best && (i < first ==> cell(s, i, j) < best)
}

/// Once the whole table has been read, the largest entry is the length of
/// the longest repeat, and the first row that holds it is where the first
/// copy of that repeat ends.
proof fn lemma_scan_done(s: Seq<char>, best: int, first: int, other: int)
    requires
        best >= 0,
        scanned(s, s.len() as int, 0, best, first),
        best > 0 ==> 1 <= first < other <= s.len() && cell(s, first, other) == best,
    ensures
        best == 0 ==> is_longest_repeat(s, Seq::empty()),
        best > 0 ==> best <= first && is_longest_repeat(s, s.subrange(first - best, first)),
{
    assert forall|len: int, i: int, j: int| len > best implies !repeats_at(s, len, i, j) by {
        if repeats_at(s, len, i, j) {
            let k = lemma_repeat_shows(s, len, i, j);
            assert(cell(s, i - k, j - k) <= best);
        }
    }
    if best > 0 {
        let d = other - first;
        let m = common_suffix(s, first, other) as int;
        lemma_cell_step(s, first, other);
        assert(m % (d + 1) <= m) by (nonlinear_arith)
            requires
                m >= 0,
                d >= 1,
        ;
        lemma_suffix_gives_repeat(s, best, first, other);
        let r = s.subrange(first - best, first);
        assert(repeats_at(s, best, first, other));
        assert(repeat_ends_at(s, r.len() as int, first));
        assert forall|k: int| k < first implies !repeat_ends_at(s, best, k) by {
            if repeat_ends_at(s, best, k) {
                let j = choose|j: int| repeats_at(s, best, k, j);
                let back = lemma_repeat_shows(s, best, k, j);
                assert(cell(s, k - back, j - back) < best);
            }
        }
    }
}

/// A row of `n` zeros.
fn zero_row(n: usize) -> (row: Vec<usize>)
    ensures
        row.len() == n,
        forall|k: int| 0 <= k < n ==> row[k] == 0,
{
    let mut row: Vec<usize> = Vec::new();
    while row.len() < n
        invariant
            row.len() <= n,
            forall|k: int| 0 <= k < row.len() ==> row[k] == 0,
        decreases n - row.len(),
    {
        row.push(0);
    }
    row
}

/// The longest substring of `sv` that occurs twice without the two copies
/// overlapping; the empty string where no character occurs twice.
///
/// Where several substrings of that length are repeated, the one whose
/// first copy ends first is returned.  Positions are counted in characters.
pub fn longest_repeated_substring(sv: &str) -> (r: String)
    ensures
        is_longest_repeat(sv@, r@),
{
    let chars = chars_of(sv);
    let n = chars.len();
    let ghost s = sv@;
    let mut prev = zero_row(n);
    let mut res_length: usize = 0;
    let mut index: usize = 0;
    let ghost mut other: int = 0;
    let mut a: usize = 0;
    while a < n
        invariant
            chars@ == s,
            n == s.len(),
            a <= n,
            prev.len() == n,
            forall|k: int| 0 <= k < n ==> prev[k] == cell(s, a as int, k + 1),
            index <= a,
            res_length <= n,
            scanned(s, a as int, 0, res_length as int, index as int),
            res_length > 0 ==> 1 <= index < other <= n && cell(s, index as int, other)
                == res_length,
        decreases n - a,
    {
        let mut cur = zero_row(n);
        let mut b: usize = a + 1;
        while b < n
            invariant
                chars@ == s,
                n == s.len(),
                a < n,
                a + 1 <= b <= n,
                prev.len() == n,
                cur.len() == n,
                forall|k: int| 0 <= k < n ==> prev[k] == cell(s, a as int, k + 1),
                forall|k: int| 0 <= k < b ==> cur[k] == cell(s, a + 1, k + 1),
                forall|k: int| b <= k < n ==> cur[k] == 0,
                index <= a + 1,
                res_length <= n,
                scanned(s, a as int, b as int, res_length as int, index as int),
                res_length > 0 ==> 1 <= index < other <= n && cell(s, index as int, other)
                    == res_length,
            decreases n - b,
        {
            proof {
                lemma_cell_step(s, a + 1, b + 1);
            }
            if chars[a] == chars[b] && prev[b - 1] < b - a {
                let grown: usize = prev[b - 1] + 1;
                cur.set(b, grown);
                if grown > res_length {
                    res_length = grown;
                    index = a + 1;
                    proof {
                        other = b + 1;
                    }
                }
            }
            b = b + 1;
        }
        proof {
            assert forall|k: int| 0 <= k < n implies cur[k] == cell(s, a + 1, k + 1) by {}
        }
        prev = cur;
        a = a + 1;
    }
    proof {
        lemma_scan_done(s, res_length as int, index as int, other);
    }
    if res_length > 0 {
        String::from_str(sv.substring_char(index - res_length, index))
    } else {
        String::new()
    }
}

} // verus!
