use vstd::prelude::*;

verus! {

/// `s` lists, each once, exactly the positions below `n` that satisfy `pred`.
pub open spec fn lists_exactly(s: Seq<usize>, n: int, pred: spec_fn(int) -> bool) -> bool {
    &&& s.no_duplicates()
    &&& forall|i: int| 0 <= i < s.len() ==> (#[trigger] s[i]) < n && pred(s[i] as int)
    &&& forall|x: usize| x < n && pred(x as int) ==> #[trigger] s.contains(x)
}

/// `s` is a permutation of `0..n`.
pub open spec fn is_permutation(s: Seq<usize>, n: int) -> bool {
    lists_exactly(s, n, |x: int| true) && s.len() == n
}

/// Two sequences with the same multiset of elements have the same elements,
/// and if one repeats none, neither does the other.
pub proof fn lemma_same_multiset(a: Seq<usize>, b: Seq<usize>)
    requires
        a.to_multiset() == b.to_multiset(),
        a.no_duplicates(),
    ensures
        b.no_duplicates(),
        forall|x: usize| #[trigger] a.contains(x) <==> b.contains(x),
        a.len() == b.len(),
{
    broadcast use vstd::seq_lib::group_to_multiset_ensures;

    a.lemma_multiset_has_no_duplicates();
    assert forall|x: usize| #[trigger] a.contains(x) <==> b.contains(x) by {
        vstd::seq_lib::to_multiset_contains(a, x);
        vstd::seq_lib::to_multiset_contains(b, x);
    }
    b.lemma_multiset_has_no_duplicates_conv();
    vstd::seq_lib::to_multiset_len(a);
    vstd::seq_lib::to_multiset_len(b);
}

/// A sequence that lists every number below `n` once, and nothing else, has
/// length `n`.
pub proof fn lemma_cover_len(s: Seq<usize>, n: nat)
    requires
        n <= usize::MAX + 1,
        s.no_duplicates(),
        forall|i: int| 0 <= i < s.len() ==> #[trigger] s[i] < n,
        forall|x: usize| x < n ==> #[trigger] s.contains(x),
    ensures
        s.len() == n,
    decreases n,
{
    if n == 0 {
        if s.len() > 0 {
            assert(s[0] < 0);
        }
    } else {
        let top = (n - 1) as usize;
        assert(s.contains(top));
        let k = choose|k: int| 0 <= k < s.len() && s[k] == top;
        let t = s.remove(k);
        assert forall|i: int| 0 <= i < t.len() implies #[trigger] t[i] < (n - 1) as nat by {
            if i < k {
                assert(t[i] == s[i]);
            } else {
                assert(t[i] == s[i + 1]);
            }
        }
        assert forall|x: usize| x < (n - 1) as nat implies #[trigger] t.contains(x) by {
            assert(s.contains(x));
            let j = choose|j: int| 0 <= j < s.len() && s[j] == x;
            if j < k {
                assert(t[j] == x);
            } else {
                assert(j != k);
                assert(t[j - 1] == x);
            }
        }
        assert(t.no_duplicates()) by {
            assert forall|i: int, j: int| 0 <= i < t.len() && 0 <= j < t.len() && i != j implies t[i] != t[j] by {
                let si = if i < k { i } else { i + 1 };
                let sj = if j < k { j } else { j + 1 };
                assert(t[i] == s[si]);
                assert(t[j] == s[sj]);
            }
        }
        lemma_cover_len(t, (n - 1) as nat);
    }
}

} // verus!
