use vstd::prelude::*;

use crate::suffix_array::order::{
    is_nonempty_suffix_array, is_suffix_array, lcp_len, lemma_empty_first, lemma_lcp, lemma_lcp_symmetric, lemma_sorted_sandwich,
    lemma_suffix_lt_tail, lemma_suffix_lt_total, suffix_lt,
};
use crate::word::Word;

verus! {

/// The longest common prefix array of `sa` over `word` by Kasai's method:
/// the suffixes are visited in the order of their positions, and the length
/// matched for one, less one, is where the match for the next one starts.
/// Entry `k` is the length found for the suffix at `sa[k]` against the one
/// at `sa[k - 1]`; entry 0, and the entries of places no suffix of the
/// word is ranked at, stay 0.  An entry of `sa` past the end of the word
/// ranks no suffix.  When `sa` lists the suffixes of the word in order,
/// with or without the empty one, entry `k` (from 1 on) is the length of the
/// longest common prefix of the suffixes at `sa[k - 1]` and `sa[k]`.
pub fn compute_lcp<T: Word + ?Sized>(word: &T, sa: &[usize]) -> (lcp: Vec<usize>)
    requires
        word.spec_symbols().len() <= isize::MAX,
    ensures
        lcp@.len() == if word.spec_symbols().len() == 0 {
            0
        } else {
            sa@.len()
        },
        word.spec_symbols().len() > 0 && sa@.len() > 0 ==> lcp@[0] == 0,
        word.spec_symbols().len() > 0 && (is_suffix_array(word.spec_symbols(), sa@)
            || is_nonempty_suffix_array(word.spec_symbols(), sa@)) ==> forall|k: int|
            1 <= k < sa@.len() ==> #[trigger] lcp@[k] == lcp_len(
                word.spec_symbols(),
                sa@[k - 1] as int,
                sa@[k] as int,
            ),
{
    let w = word.symbols();
    let n = w.len();
    if n == 0 {
        return Vec::new();
    }
    let ghost ws = w@;
    let ghost sorted = is_suffix_array(ws, sa@);
    let ghost sorted2 = is_nonempty_suffix_array(ws, sa@);
    let ghost good = sorted || sorted2;
    proof {
        if sorted {
            lemma_empty_first(ws, sa@);
        }
    }
    // rank[i] = the place of the suffix at i in `sa`
    let mut rank: Vec<usize> = Vec::new();
    let mut z: usize = 0;
    while z <= n
        invariant
            z <= n + 1,
            rank@.len() == z,
            n == w@.len(),
            n <= isize::MAX,
            forall|p: int| 0 <= p < z ==> #[trigger] rank@[p] == 0,
        decreases n + 1 - z,
    {
        rank.push(0);
        z += 1;
    }
    let mut k: usize = 0;
    while k < sa.len()
        invariant
            rank@.len() == n + 1,
            n == w@.len(),
            ws == w@,
            n == word.spec_symbols().len(),
            sorted == is_suffix_array(ws, sa@),
            sorted2 == is_nonempty_suffix_array(ws, sa@),
            good == (sorted || sorted2),
            k <= sa@.len(),
            forall|p: int| 0 <= p <= n ==> #[trigger] rank@[p] == 0 || rank@[p] < k,
            good ==> forall|j: int| 0 <= j < k ==> #[trigger] rank@[sa@[j] as int] == j,
            sorted2 ==> rank@[n as int] == 0,
        decreases sa@.len() - k,
    {
        if sa[k] <= n {
            rank.set(sa[k], k);
        }
        proof {
            if good {
                assert forall|j: int| 0 <= j < k + 1 implies #[trigger] rank@[sa@[j] as int] == j by {
                    if j < k {
                        assert(sa@[j] != sa@[k as int]);
                    }
                }
            }
        }
        k += 1;
    }
    proof {
        if good {
            // each listed position is found at its rank
            assert forall|p: int| 0 <= p <= n && (sorted || p < n) implies #[trigger] sa@[rank@[p] as int] == p
                && rank@[p] < sa@.len() by {
                assert(sa@.contains(p as usize));
                let j = choose|j: int| 0 <= j < sa@.len() && sa@[j] == p as usize;
                assert(rank@[sa@[j] as int] == j);
            }
        }
    }
    let mut lcp: Vec<usize> = Vec::new();
    let mut z: usize = 0;
    while z < sa.len()
        invariant
            z <= sa@.len(),
            lcp@.len() == z,
            forall|p: int| 0 <= p < z ==> #[trigger] lcp@[p] == 0,
        decreases sa@.len() - z,
    {
        lcp.push(0);
        z += 1;
    }
    let mut h: usize = 0;
    let mut i: usize = 0;
    let mut hs: Vec<char> = Vec::new();
    let mut t: usize = 0;
    proof {
        if sorted {
            assert(sa@[rank@[0] as int] == 0);
            assert(rank@[0] != 0);
        }
    }
    while t < n
        invariant
            n == w@.len(),
            ws == w@,
            n <= isize::MAX,
            n == word.spec_symbols().len(),
            sorted == is_suffix_array(ws, sa@),
            sorted2 == is_nonempty_suffix_array(ws, sa@),
            good == (sorted || sorted2),
            rank@.len() == n + 1,
            lcp@.len() == sa@.len(),
            sa@.len() > 0 ==> lcp@[0] == 0,
            forall|p: int| 0 <= p <= n ==> #[trigger] rank@[p] == 0 || rank@[p] < sa@.len(),
            sorted ==> sa@[0] == n,
            sorted2 ==> rank@[n as int] == 0,
            good ==> forall|p: int|
                0 <= p <= n && (sorted || p < n) ==> #[trigger] sa@[rank@[p] as int] == p && rank@[p] < sa@.len(),
            good ==> forall|j: int| 0 <= j < sa@.len() ==> #[trigger] rank@[sa@[j] as int] == j,
            sorted && i < n ==> rank@[i as int] > 0,
            good && i < n && rank@[i as int] > 0 ==> h <= lcp_len(ws, i as int, sa@[rank@[i as int] - 1] as int),
            sorted ==> forall|q: int| 0 <= q < i ==> #[trigger] rank@[q] > 0,
            good ==> forall|q: int|
                0 <= q < i && rank@[q] > 0 ==> #[trigger] lcp@[rank@[q] as int] == lcp_len(
                    ws,
                    sa@[rank@[q] - 1] as int,
                    q,
                ),
            i == t,
            t <= n,
            i + h <= n,
            hs@.len() == h,
        decreases n - t,
    {
        let c = w[t];
        if rank[i] > 0 {
            // the suffix just before in `sa`
            let j = sa[rank[i] - 1];
            let ghost big_l = lcp_len(ws, i as int, j as int);
            proof {
                if good {
                    assert(sa@[rank@[i as int] - 1] < sa@.len());
                    lemma_lcp(ws, i as int, j as int);
                }
            }
            while i + h < n && j < n && h < n - j && w[i + h] == w[j + h]
                invariant
                    n == w@.len(),
                    ws == w@,
                    n <= isize::MAX,
                    i < n,
                    i + h <= n,
                    hs@.len() == h,
                    big_l == lcp_len(ws, i as int, j as int),
                    good ==> h <= big_l,
                    good ==> j <= n,
                    good ==> i + big_l <= n && j + big_l <= n,
                    good ==> forall|d: int| 0 <= d < big_l ==> #[trigger] ws[i + d] == ws[j + d],
                    good ==> (i + big_l == n || j + big_l == n || ws[i + big_l] != ws[j + big_l]),
                decreases n - i - h,
            {
                let ih = w[i + h];
                h += word.size_of(ih);
                hs.push(ih);
            }
            proof {
                if good {
                    if h < big_l {
                        assert(ws[i + h] == ws[j + h]);
                    }
                    assert(h == big_l);
                    lemma_lcp_symmetric(ws, i as int, j as int);
                }
            }
            let ghost ri = rank@[i as int];
            lcp.set(rank[i], h);
            proof {
                if good {
                    assert forall|q: int|
                        0 <= q < i + 1 && rank@[q] > 0 implies #[trigger] lcp@[rank@[q] as int] == lcp_len(
                        ws,
                        sa@[rank@[q] - 1] as int,
                        q,
                    ) by {
                        if q < i {
                            assert(sa@[rank@[q] as int] == q);
                            assert(sa@[rank@[i as int] as int] == i);
                            assert(rank@[q] != rank@[i as int]);
                        }
                    }
                    if sorted {
                        assert forall|q: int| 0 <= q < i + 1 implies #[trigger] rank@[q] > 0 by {
                        }
                    }
                    // the start for the next position
                    if i + 1 < n {
                        let i1 = (i + 1) as int;
                        assert(sa@[rank@[i1] as int] == i1);
                        if sorted {
                            assert(rank@[i1] != 0);
                        }
                        let jj = j as int;
                        if h > 1 && rank@[i1] > 0 {
                            assert(ws[i as int + 0] == ws[jj + 0]);
                            assert(ws[i as int + 1] == ws[jj + 1]);
                            assert(jj + 1 < n);
                            assert(sa@[rank@[i as int] as int] == i);
                            assert(suffix_lt(ws, sa@[ri - 1] as int, sa@[ri as int] as int));
                            lemma_suffix_lt_tail(ws, jj, i as int);
                            lemma_lcp_symmetric(ws, jj, i as int);
                            lemma_lcp_symmetric(ws, jj + 1, i1);
                            let rj = rank@[jj + 1] as int;
                            let r1 = rank@[i1] as int;
                            assert(sa@[rj] == jj + 1);
                            assert(sa@[r1] == i1);
                            if rj > r1 {
                                assert(suffix_lt(ws, sa@[r1] as int, sa@[rj] as int));
                                lemma_suffix_lt_total(ws, i1, jj + 1);
                            }
                            assert(rj != r1);
                            assert(sa@[r1 - 1] < sa@.len());
                            lemma_sorted_sandwich(ws, sa@, rj, r1 - 1, r1);
                            lemma_lcp_symmetric(ws, sa@[r1 - 1] as int, i1);
                        }
                    }
                }
            }
            if h > 0 {
                let top = hs.pop();
                match top {
                    Some(ch) => {
                        h -= word.size_of(ch);
                    },
                    None => {},
                }
            }
        } else {
            h = 0;
            hs.clear();
            proof {
                if sorted {
                    assert(false);
                }
            }
        }
        i += word.size_of(c);
        t += 1;
    }
    proof {
        if good {
            assert forall|k: int| 1 <= k < sa@.len() implies #[trigger] lcp@[k] == lcp_len(
                ws,
                sa@[k - 1] as int,
                sa@[k] as int,
            ) by {
                let p = sa@[k] as int;
                assert(rank@[sa@[k] as int] == k);
                if sorted {
                    assert(p != n) by {
                        assert(sa@[0] != sa@[k]);
                    }
                }
                assert(p < n);
            }
        }
    }
    lcp
}

} // verus!
