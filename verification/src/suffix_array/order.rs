use vstd::prelude::*;

use crate::suffix_array::perm::is_permutation;

verus! {

/// The length of the longest common prefix of the suffixes of `w` at `i` and `j`.
pub open spec fn lcp_len(w: Seq<char>, i: int, j: int) -> nat
    decreases w.len() - i,
{
    if 0 <= i < w.len() && 0 <= j < w.len() && w[i] == w[j] {
        1 + lcp_len(w, i + 1, j + 1)
    } else {
        0
    }
}

/// The suffix at `i` comes before the suffix at `j`: at the first place
/// where they differ, the one at `i` has ended, or has the smaller symbol.
pub open spec fn suffix_lt(w: Seq<char>, i: int, j: int) -> bool {
    let h = lcp_len(w, i, j) as int;
    ||| (i + h == w.len() && j + h < w.len())
    ||| (i + h < w.len() && j + h < w.len() && (w[i + h] as int) < (w[j + h] as int))
}

/// `sa` lists its positions in the order of their suffixes.
pub open spec fn in_suffix_order(w: Seq<char>, sa: Seq<usize>) -> bool {
    forall|a: int, b: int|
        #![trigger sa[a], sa[b]]
        0 <= a < b < sa.len() ==> suffix_lt(w, sa[a] as int, sa[b] as int)
}

/// `sa` lists the positions `0..=w.len()` (the empty suffix included), each
/// once, in the order of their suffixes.
pub open spec fn is_suffix_array(w: Seq<char>, sa: Seq<usize>) -> bool {
    &&& is_permutation(sa, w.len() as int + 1)
    &&& in_suffix_order(w, sa)
}

/// `sa` lists the positions `0..w.len()` of the nonempty suffixes, each
/// once, in the order of their suffixes.
pub open spec fn is_nonempty_suffix_array(w: Seq<char>, sa: Seq<usize>) -> bool {
    &&& is_permutation(sa, w.len() as int)
    &&& in_suffix_order(w, sa)
}

/// The common prefix: the two suffixes agree on `lcp_len` symbols, and then
/// one of them ends or they differ.
pub proof fn lemma_lcp(w: Seq<char>, i: int, j: int)
    requires
        0 <= i <= w.len(),
        0 <= j <= w.len(),
    ensures
        i + lcp_len(w, i, j) <= w.len(),
        j + lcp_len(w, i, j) <= w.len(),
        forall|d: int| 0 <= d < lcp_len(w, i, j) ==> #[trigger] w[i + d] == w[j + d],
        i + lcp_len(w, i, j) == w.len() || j + lcp_len(w, i, j) == w.len() || w[i + lcp_len(w, i, j)] != w[j
            + lcp_len(w, i, j)],
    decreases w.len() - i,
{
    if i < w.len() && j < w.len() && w[i] == w[j] {
        lemma_lcp(w, i + 1, j + 1);
        assert forall|d: int| 0 <= d < lcp_len(w, i, j) implies #[trigger] w[i + d] == w[j + d] by {
            if d > 0 {
                assert(w[(i + 1) + (d - 1)] == w[(j + 1) + (d - 1)]);
            }
        }
    }
}

/// Suffixes that agree on `t` symbols have a common prefix of at least
/// `t`, and of exactly `t` when they then differ or one ends.
pub proof fn lemma_lcp_at_least(w: Seq<char>, i: int, j: int, t: int)
    requires
        0 <= i,
        0 <= j,
        0 <= t,
        i + t <= w.len(),
        j + t <= w.len(),
        forall|d: int| 0 <= d < t ==> #[trigger] w[i + d] == w[j + d],
    ensures
        lcp_len(w, i, j) >= t,
        (i + t == w.len() || j + t == w.len() || w[i + t] != w[j + t]) ==> lcp_len(w, i, j) == t,
    decreases t,
{
    if t > 0 {
        assert(w[i + 0] == w[j + 0]);
        assert forall|d: int| 0 <= d < t - 1 implies #[trigger] w[(i + 1) + d] == w[(j + 1) + d] by {
            assert(w[i + (d + 1)] == w[j + (d + 1)]);
        }
        lemma_lcp_at_least(w, i + 1, j + 1, t - 1);
    }
}

/// The common prefix does not depend on the order of the two suffixes.
pub proof fn lemma_lcp_symmetric(w: Seq<char>, i: int, j: int)
    ensures
        lcp_len(w, i, j) == lcp_len(w, j, i),
    decreases w.len() - i,
{
    if 0 <= i < w.len() && 0 <= j < w.len() && w[i] == w[j] {
        lemma_lcp_symmetric(w, i + 1, j + 1);
    }
}

/// Suffixes at different places are ordered one way or the other, never both.
pub proof fn lemma_suffix_lt_total(w: Seq<char>, i: int, j: int)
    requires
        0 <= i <= w.len(),
        0 <= j <= w.len(),
    ensures
        i != j ==> suffix_lt(w, i, j) || suffix_lt(w, j, i),
        !(suffix_lt(w, i, j) && suffix_lt(w, j, i)),
        !suffix_lt(w, i, i),
{
    lemma_lcp(w, i, j);
    lemma_lcp_symmetric(w, i, j);
    lemma_lcp(w, i, i);
    let h = lcp_len(w, i, i) as int;
    if i + h < w.len() {
        assert(w[i + h] == w[i + h]);
    }
}

/// Dropping an equal first symbol keeps the order and shortens the common
/// prefix by one.
pub proof fn lemma_suffix_lt_tail(w: Seq<char>, i: int, j: int)
    requires
        0 <= i < w.len(),
        0 <= j < w.len(),
        w[i] == w[j],
    ensures
        suffix_lt(w, i + 1, j + 1) == suffix_lt(w, i, j),
        lcp_len(w, i + 1, j + 1) + 1 == lcp_len(w, i, j),
{
    let h = lcp_len(w, i + 1, j + 1) as int;
    assert(lcp_len(w, i, j) == h + 1);
    assert((i + 1) + h == i + (h + 1));
    assert((j + 1) + h == j + (h + 1));
}

/// Between two suffixes in order, a third one shares with the later one at
/// least the common prefix of the other two.
pub proof fn lemma_sandwich(w: Seq<char>, a: int, b: int, c: int)
    requires
        0 <= a <= w.len(),
        0 <= b <= w.len(),
        0 <= c <= w.len(),
        a == b || suffix_lt(w, a, b),
        suffix_lt(w, b, c),
    ensures
        lcp_len(w, b, c) >= lcp_len(w, a, c),
{
    if a != b {
        let m = lcp_len(w, a, c) as int;
        let t = lcp_len(w, b, c) as int;
        lemma_lcp(w, a, c);
        lemma_lcp(w, b, c);
        if t < m {
            assert(c + t < w.len());
            assert(a + t < w.len());
            assert forall|d: int| 0 <= d < t implies #[trigger] w[a + d] == w[b + d] by {
                assert(w[a + d] == w[c + d]);
                assert(w[b + d] == w[c + d]);
            }
            assert(w[a + t] == w[c + t]);
            lemma_lcp_at_least(w, a, b, t);
            assert(lcp_len(w, a, b) == t);
        }
    }
}

/// In a list of suffixes in order, a suffix and the one listed right
/// before another suffix that it precedes: the common prefix with the later
/// one is at least as long.
pub proof fn lemma_sorted_sandwich(w: Seq<char>, sa: Seq<usize>, k1: int, k2: int, k3: int)
    requires
        in_suffix_order(w, sa),
        0 <= k1 <= k2 < k3 < sa.len(),
        sa[k1] <= w.len(),
        sa[k2] <= w.len(),
        sa[k3] <= w.len(),
    ensures
        lcp_len(w, sa[k2] as int, sa[k3] as int) >= lcp_len(w, sa[k1] as int, sa[k3] as int),
{
    if k1 < k2 {
        assert(suffix_lt(w, sa[k1] as int, sa[k2] as int));
    }
    assert(suffix_lt(w, sa[k2] as int, sa[k3] as int));
    lemma_sandwich(w, sa[k1] as int, sa[k2] as int, sa[k3] as int);
}

/// In a suffix array the empty suffix comes first.
pub proof fn lemma_empty_first(w: Seq<char>, sa: Seq<usize>)
    requires
        is_suffix_array(w, sa),
        w.len() <= isize::MAX,
    ensures
        sa[0] == w.len(),
{
    let n = w.len();
    assert(sa.contains(n as usize));
    let k = choose|k: int| 0 <= k < sa.len() && sa[k] == n as usize;
    if k > 0 {
        assert(suffix_lt(w, sa[0] as int, sa[k] as int));
        lemma_lcp(w, sa[0] as int, n as int);
        assert(lcp_len(w, sa[0] as int, n as int) == 0);
    }
}

} // verus!
