use vstd::prelude::*;

use crate::suffix_array::perm::{is_permutation, lemma_cover_len, lemma_same_multiset, lists_exactly};

verus! {

/// The sort key of position `idx` when sorting by the symbol `d` places on:
/// 0 past the end, else one more than the symbol.
pub open spec fn pass_key(w: Seq<usize>, d: int, idx: int) -> int {
    if 0 <= idx + d < w.len() {
        w[idx + d] as int + 1
    } else {
        0
    }
}

/// `s` is ordered by `pass_key`.
pub open spec fn sorted_by_key(w: Seq<usize>, d: int, s: Seq<usize>) -> bool {
    forall|i: int, j: int|
        #![trigger s[i], s[j]]
        0 <= i < j < s.len() ==> pass_key(w, d, s[i] as int) <= pass_key(w, d, s[j] as int)
}

/// The first three symbols at `x` (each past the end as 0) compare below
/// those at `y`.
pub open spec fn tri_lt(w: Seq<usize>, x: int, y: int) -> bool {
    ||| pass_key(w, 0, x) < pass_key(w, 0, y)
    ||| pass_key(w, 0, x) == pass_key(w, 0, y) && pass_key(w, 1, x) < pass_key(w, 1, y)
    ||| pass_key(w, 0, x) == pass_key(w, 0, y) && pass_key(w, 1, x) == pass_key(w, 1, y) && pass_key(w, 2, x)
        < pass_key(w, 2, y)
}

/// The first three symbols at `x` and at `y` are the same.
pub open spec fn tri_eq(w: Seq<usize>, x: int, y: int) -> bool {
    &&& pass_key(w, 0, x) == pass_key(w, 0, y)
    &&& pass_key(w, 1, x) == pass_key(w, 1, y)
    &&& pass_key(w, 2, x) == pass_key(w, 2, y)
}

/// `s` is ordered by the first three symbols of its positions.
pub open spec fn in_tri_order(w: Seq<usize>, s: Seq<usize>) -> bool {
    forall|a: int, b: int|
        #![trigger s[a], s[b]]
        0 <= a < b < s.len() ==> tri_lt(w, s[a] as int, s[b] as int) || tri_eq(w, s[a] as int, s[b] as int)
}

/// The positions whose key for pass `d` is `k`.
pub open spec fn key_is(w: Seq<usize>, d: int, k: int) -> spec_fn(usize) -> bool {
    |x: usize| pass_key(w, d, x as int) == k
}

/// `after` keeps, for every key, the positions with that key in the order
/// they have in `before`: a stable reordering.
#[verifier::opaque]
pub open spec fn keeps_order(w: Seq<usize>, d: int, before: Seq<usize>, after: Seq<usize>) -> bool {
    forall|k: int| #[trigger] after.filter(key_is(w, d, k)) == before.filter(key_is(w, d, k))
}

/// Filtering a sequence with one more element.
proof fn lemma_filter_push(s: Seq<usize>, x: usize, p: spec_fn(usize) -> bool)
    ensures
        s.push(x).filter(p) == if p(x) {
            s.filter(p).push(x)
        } else {
            s.filter(p)
        },
{
    reveal(Seq::filter);
    assert(s.push(x).drop_last() =~= s);
}

/// No element passes: nothing is kept.
proof fn lemma_filter_none(s: Seq<usize>, p: spec_fn(usize) -> bool)
    requires
        forall|i: int| 0 <= i < s.len() ==> !p(#[trigger] s[i]),
    ensures
        s.filter(p) == Seq::<usize>::empty(),
    decreases s.len(),
{
    reveal(Seq::filter);
    if s.len() > 0 {
        lemma_filter_none(s.drop_last(), p);
    }
}

/// Two entries that pass `p`, in this order, are kept by the filter in the
/// same order.
proof fn lemma_filter_pos(s: Seq<usize>, p: spec_fn(usize) -> bool, a: int, b: int)
    requires
        0 <= a < b < s.len(),
        p(s[a]),
        p(s[b]),
    ensures
        exists|x: int, y: int|
            0 <= x < y < s.filter(p).len() && s.filter(p)[x] == s[a] && s.filter(p)[y] == s[b],
    decreases s.len(),
{
    reveal(Seq::filter);
    let r = s.drop_last();
    let f = r.filter(p);
    if b == s.len() - 1 {
        assert(r[a] == s[a]);
        r.lemma_filter_contains(p, a);
        let x = choose|x: int| 0 <= x < f.len() && f[x] == r[a];
        assert(s.filter(p) == f.push(s[b]));
        assert(s.filter(p)[x] == s[a]);
        assert(s.filter(p)[f.len() as int] == s[b]);
    } else {
        assert(r[a] == s[a] && r[b] == s[b]);
        lemma_filter_pos(r, p, a, b);
        let (x, y) = choose|x: int, y: int| 0 <= x < y < f.len() && f[x] == r[a] && f[y] == r[b];
        if p(s.last()) {
            assert(s.filter(p) == f.push(s.last()));
            assert(s.filter(p)[x] == s[a] && s.filter(p)[y] == s[b]);
        } else {
            assert(s.filter(p) == f);
        }
    }
}

/// Two entries of a filter, in this order, stand in the same order in the
/// filtered sequence.
proof fn lemma_filter_origin(s: Seq<usize>, p: spec_fn(usize) -> bool, x: int, y: int)
    requires
        0 <= x < y < s.filter(p).len(),
    ensures
        exists|a: int, b: int| 0 <= a < b < s.len() && s[a] == s.filter(p)[x] && s[b] == s.filter(p)[y],
    decreases s.len(),
{
    reveal(Seq::filter);
    let r = s.drop_last();
    let f = r.filter(p);
    if p(s.last()) && y == f.len() {
        assert(s.filter(p) == f.push(s.last()));
        assert(s.filter(p)[x] == f[x]);
        assert(f.contains(f[x]));
        r.lemma_filter_contains_rev(p, f[x]);
        let a = choose|a: int| 0 <= a < r.len() && r[a] == f[x];
        assert(s[a] == r[a]);
        assert(s[s.len() - 1] == s.filter(p)[y]);
    } else {
        if p(s.last()) {
            assert(s.filter(p) == f.push(s.last()));
        } else {
            assert(s.filter(p) == f);
        }
        assert(s.filter(p)[x] == f[x] && s.filter(p)[y] == f[y]);
        lemma_filter_origin(r, p, x, y);
        let (a, b) = choose|a: int, b: int| 0 <= a < b < r.len() && r[a] == f[x] && r[b] == f[y];
        assert(s[a] == r[a] && s[b] == r[b]);
    }
}

/// A stable reordering keeps, among entries of equal key, any order that
/// they had before.
proof fn lemma_stable_keeps(
    w: Seq<usize>,
    d: int,
    before: Seq<usize>,
    after: Seq<usize>,
    rel: spec_fn(usize, usize) -> bool,
)
    requires
        keeps_order(w, d, before, after),
        forall|a: int, b: int|
            #![trigger before[a], before[b]]
            0 <= a < b < before.len() && pass_key(w, d, before[a] as int) == pass_key(w, d, before[b] as int)
                ==> rel(before[a], before[b]),
    ensures
        forall|a: int, b: int|
            #![trigger after[a], after[b]]
            0 <= a < b < after.len() && pass_key(w, d, after[a] as int) == pass_key(w, d, after[b] as int)
                ==> rel(after[a], after[b]),
{
    reveal(keeps_order);
    assert forall|a: int, b: int|
        #![trigger after[a], after[b]]
        0 <= a < b < after.len() && pass_key(w, d, after[a] as int) == pass_key(w, d, after[b] as int) implies rel(
        after[a],
        after[b],
    ) by {
        let k = pass_key(w, d, after[a] as int);
        let p = key_is(w, d, k);
        lemma_filter_pos(after, p, a, b);
        let (x, y) = choose|x: int, y: int|
            0 <= x < y < after.filter(p).len() && after.filter(p)[x] == after[a] && after.filter(p)[y] == after[b];
        assert(after.filter(p) == before.filter(p));
        lemma_filter_origin(before, p, x, y);
        let (a2, b2) = choose|a2: int, b2: int|
            0 <= a2 < b2 < before.len() && before[a2] == before.filter(p)[x] && before[b2] == before.filter(p)[y];
        assert(rel(before[a2], before[b2]));
    }
}

/// Three stable passes, by the third, the second and the first symbol,
/// order the positions by their first three symbols.
proof fn lemma_three_passes(w: Seq<usize>, l2: Seq<usize>, l1: Seq<usize>, l0: Seq<usize>)
    requires
        sorted_by_key(w, 2, l2),
        sorted_by_key(w, 1, l1),
        keeps_order(w, 1, l2, l1),
        sorted_by_key(w, 0, l0),
        keeps_order(w, 0, l1, l0),
    ensures
        in_tri_order(w, l0),
{
    let rel1 = |x: usize, y: usize| pass_key(w, 2, x as int) <= pass_key(w, 2, y as int);
    assert forall|a: int, b: int|
        #![trigger l2[a], l2[b]]
        0 <= a < b < l2.len() && pass_key(w, 1, l2[a] as int) == pass_key(w, 1, l2[b] as int) implies rel1(
        l2[a],
        l2[b],
    ) by {
    }
    lemma_stable_keeps(w, 1, l2, l1, rel1);
    let rel0 = |x: usize, y: usize|
        pass_key(w, 1, x as int) < pass_key(w, 1, y as int) || (pass_key(w, 1, x as int) == pass_key(w, 1, y as int)
            && pass_key(w, 2, x as int) <= pass_key(w, 2, y as int));
    assert forall|a: int, b: int|
        #![trigger l1[a], l1[b]]
        0 <= a < b < l1.len() && pass_key(w, 0, l1[a] as int) == pass_key(w, 0, l1[b] as int) implies rel0(
        l1[a],
        l1[b],
    ) by {
        if pass_key(w, 1, l1[a] as int) == pass_key(w, 1, l1[b] as int) {
            assert(rel1(l1[a], l1[b]));
        }
    }
    lemma_stable_keeps(w, 0, l1, l0, rel0);
    assert forall|a: int, b: int|
        #![trigger l0[a], l0[b]]
        0 <= a < b < l0.len() implies tri_lt(w, l0[a] as int, l0[b] as int) || tri_eq(w, l0[a] as int, l0[b] as int) by {
        if pass_key(w, 0, l0[a] as int) == pass_key(w, 0, l0[b] as int) {
            assert(rel0(l0[a], l0[b]));
        }
    }
}

/// Compares two positions by `pass_key`.
fn key_le(word: &[usize], d: usize, a: usize, b: usize) -> (r: bool)
    requires
        d <= 2,
    ensures
        r == (pass_key(word@, d as int, a as int) <= pass_key(word@, d as int, b as int)),
{
    let n = word.len();
    let a_in = a < n && n - a > d;
    let b_in = b < n && n - b > d;
    if !a_in {
        true
    } else if !b_in {
        false
    } else {
        word[a + d] <= word[b + d]
    }
}

/// Sorts `s` by `pass_key`, stably, by merging sorted halves.
fn sort_by_key(word: &[usize], d: usize, s: Vec<usize>) -> (r: Vec<usize>)
    requires
        d <= 2,
    ensures
        r@.to_multiset() == s@.to_multiset(),
        sorted_by_key(word@, d as int, r@),
        keeps_order(word@, d as int, s@, r@),
    decreases s@.len(),
{
    proof {
        reveal(keeps_order);
    }
    let n = s.len();
    if n <= 1 {
        return s;
    }
    let mid = n / 2;
    let mut left: Vec<usize> = Vec::new();
    let mut right: Vec<usize> = Vec::new();
    let mut i: usize = 0;
    while i < n
        invariant
            n == s@.len(),
            mid < n,
            i <= n,
            i <= mid ==> left@ == s@.subrange(0, i as int) && right@.len() == 0,
            i > mid ==> left@ == s@.subrange(0, mid as int) && right@ == s@.subrange(mid as int, i as int),
        decreases n - i,
    {
        if i < mid {
            left.push(s[i]);
        } else {
            right.push(s[i]);
        }
        i += 1;
        proof {
            if i <= mid {
                assert(left@ =~= s@.subrange(0, i as int));
            } else {
                assert(left@ =~= s@.subrange(0, mid as int));
                assert(right@ =~= s@.subrange(mid as int, i as int));
            }
        }
    }
    proof {
        assert(s@ =~= left@ + right@);
        vstd::seq_lib::lemma_multiset_commutative(left@, right@);
    }
    let ghost left_s = left@;
    let ghost right_s = right@;
    let l = sort_by_key(word, d, left);
    let r = sort_by_key(word, d, right);
    let mut out: Vec<usize> = Vec::new();
    let mut a: usize = 0;
    let mut b: usize = 0;
    proof {
        broadcast use vstd::seq_lib::group_to_multiset_ensures;
        assert(l@.subrange(0, 0) =~= Seq::<usize>::empty());
        assert(r@.subrange(0, 0) =~= Seq::<usize>::empty());
        assert(out@ =~= Seq::<usize>::empty());
        assert(out@.to_multiset() =~= l@.subrange(0, 0).to_multiset().add(r@.subrange(0, 0).to_multiset()));
        assert forall|k: int| #[trigger] out@.filter(key_is(word@, d as int, k)) == l@.subrange(0, 0).filter(
            key_is(word@, d as int, k),
        ) + r@.subrange(0, 0).filter(key_is(word@, d as int, k)) by {
            lemma_filter_none(out@, key_is(word@, d as int, k));
            lemma_filter_none(l@.subrange(0, 0), key_is(word@, d as int, k));
            lemma_filter_none(r@.subrange(0, 0), key_is(word@, d as int, k));
            assert(Seq::<usize>::empty() + Seq::<usize>::empty() =~= Seq::<usize>::empty());
        }
    }
    while a < l.len() || b < r.len()
        invariant
            a <= l@.len(),
            b <= r@.len(),
            d <= 2,
            sorted_by_key(word@, d as int, l@),
            sorted_by_key(word@, d as int, r@),
            sorted_by_key(word@, d as int, out@),
            out@.to_multiset() == l@.subrange(0, a as int).to_multiset().add(
                r@.subrange(0, b as int).to_multiset(),
            ),
            out@.len() > 0 && a < l@.len() ==> pass_key(word@, d as int, out@.last() as int) <= pass_key(
                word@,
                d as int,
                l@[a as int] as int,
            ),
            out@.len() > 0 && b < r@.len() ==> pass_key(word@, d as int, out@.last() as int) <= pass_key(
                word@,
                d as int,
                r@[b as int] as int,
            ),
            forall|k: int|
                #[trigger] out@.filter(key_is(word@, d as int, k)) == l@.subrange(0, a as int).filter(
                    key_is(word@, d as int, k),
                ) + r@.subrange(0, b as int).filter(key_is(word@, d as int, k)),
            a < l@.len() ==> forall|j: int|
                0 <= j < b ==> pass_key(word@, d as int, #[trigger] r@[j] as int) < pass_key(
                    word@,
                    d as int,
                    l@[a as int] as int,
                ),
        decreases l@.len() - a + r@.len() - b,
    {
        let take_left = if b == r.len() {
            true
        } else if a == l.len() {
            false
        } else {
            key_le(word, d, l[a], r[b])
        };
        let ghost old_out = out@;
        if take_left {
            let x = l[a];
            out.push(x);
            proof {
                assert(l@.subrange(0, a + 1) =~= l@.subrange(0, a as int).push(x));
                vstd::seq_lib::to_multiset_build(l@.subrange(0, a as int), x);
                vstd::seq_lib::to_multiset_build(old_out, x);
                let la = l@.subrange(0, a as int);
                let rb = r@.subrange(0, b as int);
                assert forall|k: int| #[trigger] out@.filter(key_is(word@, d as int, k)) == l@.subrange(
                    0,
                    a + 1,
                ).filter(key_is(word@, d as int, k)) + rb.filter(key_is(word@, d as int, k)) by {
                    let p = key_is(word@, d as int, k);
                    lemma_filter_push(old_out, x, p);
                    lemma_filter_push(la, x, p);
                    assert(old_out.filter(p) == la.filter(p) + rb.filter(p));
                    if p(x) {
                        assert forall|j: int| 0 <= j < rb.len() implies !p(#[trigger] rb[j]) by {
                            assert(rb[j] == r@[j]);
                        }
                        lemma_filter_none(rb, p);
                        assert(la.filter(p) + rb.filter(p) =~= la.filter(p));
                        assert(la.filter(p).push(x) + rb.filter(p) =~= la.filter(p).push(x));
                    } else {
                    }
                }
            }
            a += 1;
            proof {
                if a < l@.len() {
                    assert(l@[a - 1] == x);
                }
            }
        } else {
            let x = r[b];
            out.push(x);
            proof {
                assert(r@.subrange(0, b + 1) =~= r@.subrange(0, b as int).push(x));
                vstd::seq_lib::to_multiset_build(r@.subrange(0, b as int), x);
                vstd::seq_lib::to_multiset_build(old_out, x);
                let la = l@.subrange(0, a as int);
                let rb = r@.subrange(0, b as int);
                assert forall|k: int| #[trigger] out@.filter(key_is(word@, d as int, k)) == la.filter(
                    key_is(word@, d as int, k),
                ) + r@.subrange(0, b + 1).filter(key_is(word@, d as int, k)) by {
                    let p = key_is(word@, d as int, k);
                    lemma_filter_push(old_out, x, p);
                    lemma_filter_push(rb, x, p);
                    assert(old_out.filter(p) == la.filter(p) + rb.filter(p));
                    if p(x) {
                        assert(la.filter(p) + rb.filter(p).push(x) =~= (la.filter(p) + rb.filter(p)).push(x));
                    }
                }
            }
            b += 1;
        }
        proof {
            assert(out@.to_multiset() =~= l@.subrange(0, a as int).to_multiset().add(
                r@.subrange(0, b as int).to_multiset(),
            ));
            assert forall|i: int, j: int|
                #![trigger out@[i], out@[j]]
                0 <= i < j < out@.len() implies pass_key(word@, d as int, out@[i] as int) <= pass_key(
                word@,
                d as int,
                out@[j] as int,
            ) by {
                if j == out@.len() - 1 && i < j {
                    assert(out@[i] == old_out[i]);
                    if old_out.len() > 0 {
                        assert(pass_key(word@, d as int, old_out[i] as int) <= pass_key(
                            word@,
                            d as int,
                            old_out.last() as int,
                        ));
                    }
                } else {
                    assert(out@[i] == old_out[i]);
                    assert(out@[j] == old_out[j]);
                }
            }
        }
    }
    proof {
        assert(l@.subrange(0, a as int) =~= l@);
        assert(r@.subrange(0, b as int) =~= r@);
        assert forall|k: int| #[trigger] out@.filter(key_is(word@, d as int, k)) == s@.filter(key_is(word@, d as int, k)) by {
            let p = key_is(word@, d as int, k);
            assert(l@.filter(p) == left_s.filter(p));
            assert(r@.filter(p) == right_s.filter(p));
            Seq::filter_distributes_over_add(left_s, right_s, p);
        }
    }
    out
}

/// Sorts the positions `s` stably by the symbol `d` places on (past the end
/// comes first).
fn radix_sort(word: &[usize], d: usize, s: &mut Vec<usize>)
    requires
        d <= 2,
    ensures
        final(s)@.to_multiset() == old(s)@.to_multiset(),
        sorted_by_key(word@, d as int, final(s)@),
        keeps_order(word@, d as int, old(s)@, final(s)@),
{
    let mut tmp: Vec<usize> = Vec::new();
    std::mem::swap(&mut tmp, s);
    *s = sort_by_key(word, d, tmp);
}

/// Where position `x` (not a multiple of 3) stands in the reduced word:
/// positions 1 mod 3 first, then positions 2 mod 3.
pub open spec fn slot(n: int, x: int) -> int {
    if x % 3 == 1 {
        x / 3
    } else {
        x / 3 + (n + 1) / 3
    }
}

/// The position that stands at `y` in the reduced word.
pub open spec fn unslot(n: int, y: int) -> int {
    if y < (n + 1) / 3 {
        3 * y + 1
    } else {
        2 + 3 * (y - (n + 1) / 3)
    }
}

/// The number of positions below `n` that are not multiples of 3.
pub open spec fn count12(n: int) -> int {
    n - (n + 2) / 3
}

proof fn lemma_slot(n: int, x: int)
    requires
        0 <= x < n,
        x % 3 != 0,
    ensures
        0 <= slot(n, x) < count12(n),
        unslot(n, slot(n, x)) == x,
        (x % 3 == 1) == (slot(n, x) < (n + 1) / 3),
{
}

proof fn lemma_unslot(n: int, y: int)
    requires
        0 <= y < count12(n),
    ensures
        0 <= unslot(n, y) < n,
        unslot(n, y) % 3 != 0,
        slot(n, unslot(n, y)) == y,
        (unslot(n, y) % 3 == 1) == (y < (n + 1) / 3),
{
}

proof fn lemma_count12_step(i: int)
    requires
        0 <= i,
    ensures
        count12(i + 1) == count12(i) + (if i % 3 != 0 {
            1int
        } else {
            0int
        }),
        count12(i) <= i,
        (i + 2) / 3 == (i + 1) / 3 + (if i % 3 == 1 {
            1int
        } else {
            0int
        }),
{
}

/// Whether position `x` of the input word is not a multiple of 3.
pub open spec fn is_mod12(x: int) -> bool {
    x % 3 != 0
}

/// Whether position `x` of the input word is a multiple of 3.
pub open spec fn is_mod0(x: int) -> bool {
    x % 3 == 0
}

/// The symbol of `w` at `i`, or `None` past the end.
pub open spec fn sym_at(w: Seq<usize>, i: int) -> Option<usize> {
    if 0 <= i < w.len() {
        Some(w[i])
    } else {
        None
    }
}

/// The suffix of `w` at `i` comes before the one at `j` (positions up to
/// `w.len()`): compared symbol by symbol, a suffix that ends first is the
/// smaller.
pub open spec fn usfx_lt(w: Seq<usize>, i: int, j: int) -> bool
    decreases w.len() - i,
{
    if i >= w.len() {
        j < w.len()
    } else if j >= w.len() {
        false
    } else if w[i] != w[j] {
        w[i] < w[j]
    } else {
        usfx_lt(w, i + 1, j + 1)
    }
}

/// `s` lists positions of `w` in the order of their suffixes.
pub open spec fn in_uorder(w: Seq<usize>, s: Seq<usize>) -> bool {
    forall|a: int, b: int| #![trigger s[a], s[b]] 0 <= a < b < s.len() ==> usfx_lt(w, s[a] as int, s[b] as int)
}

/// Of two different suffixes, one comes first.
proof fn lemma_usfx_total(w: Seq<usize>, i: int, j: int)
    requires
        0 <= i <= w.len(),
        0 <= j <= w.len(),
        i != j,
    ensures
        usfx_lt(w, i, j) || usfx_lt(w, j, i),
    decreases w.len() - i,
{
    if i < w.len() && j < w.len() && w[i] == w[j] {
        lemma_usfx_total(w, i + 1, j + 1);
    }
}

/// The order of suffixes is strict.
proof fn lemma_usfx_asym(w: Seq<usize>, i: int, j: int)
    requires
        0 <= i,
        0 <= j,
        usfx_lt(w, i, j),
    ensures
        !usfx_lt(w, j, i),
    decreases w.len() - i,
{
    if i < w.len() && j < w.len() && w[i] == w[j] {
        lemma_usfx_asym(w, i + 1, j + 1);
    }
}

/// The order of suffixes is transitive.
proof fn lemma_usfx_trans(w: Seq<usize>, a: int, b: int, c: int)
    requires
        0 <= a,
        0 <= b,
        0 <= c,
        usfx_lt(w, a, b),
        usfx_lt(w, b, c),
    ensures
        usfx_lt(w, a, c),
    decreases w.len() - a,
{
    if a < w.len() && b < w.len() && c < w.len() && w[a] == w[b] && w[b] == w[c] {
        lemma_usfx_trans(w, a + 1, b + 1, c + 1);
    }
}

/// The positions whose rank is looked up: those not multiples of 3, and the
/// end of the word.
pub open spec fn rankable(n: int, p: int) -> bool {
    0 <= p <= n && (p % 3 != 0 || p == n)
}

/// Where the ranks of positions 2 mod 3 start in the rank table of a word of
/// length `n`.
pub open spec fn rank_split(n: int) -> int {
    if n % 3 == 1 {
        (n + 2) / 3
    } else {
        (n + 1) / 3
    }
}

/// The ranks recorded for the looked-up positions order them as their
/// suffixes.
pub open spec fn ranks_agree(w: Seq<usize>, ra12: Seq<usize>, n1: int) -> bool {
    forall|p: int, q: int|
        rankable(w.len() as int, p) && rankable(w.len() as int, q) ==> ((#[trigger] spec_rank_at(ra12, n1, p))
            < (#[trigger] spec_rank_at(ra12, n1, q))) == usfx_lt(w, p, q)
}

/// The merge's comparison of a position 0 mod 3 with one that is not
/// decides the order of their suffixes, where the ranks agree with it.
proof fn lemma_merge_compare(w: Seq<usize>, ra12: Seq<usize>, n1: int, i: int, j: int)
    requires
        ranks_agree(w, ra12, n1),
        0 <= i < w.len(),
        0 <= j < w.len(),
        i % 3 == 0,
        j % 3 != 0,
    ensures
        j % 3 == 1 ==> (spec_symbol_lt(sym_at(w, i), sym_at(w, j)) || (sym_at(w, i) == sym_at(w, j)
            && spec_rank_at(ra12, n1, i + 1) < spec_rank_at(ra12, n1, j + 1))) == usfx_lt(w, i, j),
        j % 3 == 2 ==> (spec_symbol_lt(sym_at(w, i), sym_at(w, j)) || (sym_at(w, i) == sym_at(w, j) && (
        spec_symbol_lt(sym_at(w, i + 1), sym_at(w, j + 1)) || (sym_at(w, i + 1) == sym_at(w, j + 1)
            && spec_rank_at(ra12, n1, i + 2) < spec_rank_at(ra12, n1, j + 2))))) == usfx_lt(w, i, j),
{
    let n = w.len() as int;
    if w[i] == w[j] {
        if j % 3 == 1 {
            assert(rankable(n, i + 1));
            assert(rankable(n, j + 1));
            assert((spec_rank_at(ra12, n1, i + 1) < spec_rank_at(ra12, n1, j + 1)) == usfx_lt(w, i + 1, j + 1));
        } else {
            assert(usfx_lt(w, i, j) == usfx_lt(w, i + 1, j + 1));
            assert(!(i + 1 >= n && j + 1 >= n));
            if i + 1 < n && j + 1 < n && w[i + 1] == w[j + 1] {
                assert(rankable(n, i + 2));
                assert(rankable(n, j + 2));
                assert((spec_rank_at(ra12, n1, i + 2) < spec_rank_at(ra12, n1, j + 2)) == usfx_lt(
                    w,
                    i + 2,
                    j + 2,
                ));
            }
        }
    }
}

/// The first `k` entries of `sa` are in the order of their suffixes.
pub open spec fn placed_in_order(w: Seq<usize>, sa: Seq<usize>, k: int) -> bool {
    forall|a: int, b: int| #![trigger sa[a], sa[b]] 0 <= a < b < k ==> usfx_lt(w, sa[a] as int, sa[b] as int)
}

/// The first `k` entries of `sa` come before the entries of `l` from `from` on.
pub open spec fn placed_before(w: Seq<usize>, sa: Seq<usize>, k: int, l: Seq<usize>, from: int) -> bool {
    forall|a: int, q: int| #![trigger sa[a], l[q]] 0 <= a < k && from <= q < l.len() ==> usfx_lt(w, sa[a] as int, l[q] as int)
}

/// `x` comes before the entries of `l` from `from` on.
pub open spec fn first_of(w: Seq<usize>, x: usize, l: Seq<usize>, from: int) -> bool {
    forall|q: int| from <= q < l.len() ==> usfx_lt(w, x as int, #[trigger] l[q] as int)
}

/// In a list in order, an entry comes before those after it.
proof fn lemma_first_of_list(w: Seq<usize>, l: Seq<usize>, i: int)
    requires
        in_uorder(w, l),
        0 <= i < l.len(),
    ensures
        first_of(w, l[i], l, i + 1),
{
    assert forall|q: int| i + 1 <= q < l.len() implies usfx_lt(w, l[i] as int, #[trigger] l[q] as int) by {
    }
}

/// What comes before an entry of a list in order comes before the rest too.
proof fn lemma_first_via(w: Seq<usize>, x: usize, l: Seq<usize>, i: int)
    requires
        in_uorder(w, l),
        0 <= i < l.len(),
        usfx_lt(w, x as int, l[i] as int),
    ensures
        first_of(w, x, l, i),
{
    assert forall|q: int| i <= q < l.len() implies usfx_lt(w, x as int, #[trigger] l[q] as int) by {
        if q > i {
            assert(usfx_lt(w, l[i] as int, l[q] as int));
            lemma_usfx_trans(w, x as int, l[i] as int, l[q] as int);
        }
    }
}

/// Placing at `k` an entry that comes before everything still to place
/// keeps the placed entries in order.
proof fn lemma_merge_order_step(
    w: Seq<usize>,
    before: Seq<usize>,
    after: Seq<usize>,
    sa0: Seq<usize>,
    sa12: Seq<usize>,
    k: int,
    x: usize,
    i0: int,
    i12: int,
    j0: int,
    j12: int,
)
    requires
        0 <= k < before.len(),
        after == before.update(k, x),
        0 <= i0 <= j0 <= sa0.len(),
        0 <= i12 <= j12 <= sa12.len(),
        (i0 < sa0.len() && x == sa0[i0]) || (i12 < sa12.len() && x == sa12[i12]),
        placed_in_order(w, before, k),
        placed_before(w, before, k, sa0, i0),
        placed_before(w, before, k, sa12, i12),
        first_of(w, x, sa0, j0),
        first_of(w, x, sa12, j12),
    ensures
        placed_in_order(w, after, k + 1),
        placed_before(w, after, k + 1, sa0, j0),
        placed_before(w, after, k + 1, sa12, j12),
{
    assert forall|a: int, b: int| #![trigger after[a], after[b]] 0 <= a < b < k + 1 implies usfx_lt(
        w,
        after[a] as int,
        after[b] as int,
    ) by {
        assert(after[a] == before[a]);
        if b < k {
            assert(after[b] == before[b]);
        } else if i0 < sa0.len() && x == sa0[i0] {
            assert(usfx_lt(w, before[a] as int, sa0[i0] as int));
        } else {
            assert(usfx_lt(w, before[a] as int, sa12[i12] as int));
        }
    }
    assert forall|a: int, q: int| #![trigger after[a], sa0[q]] 0 <= a < k + 1 && j0 <= q < sa0.len() implies usfx_lt(
        w,
        after[a] as int,
        sa0[q] as int,
    ) by {
        if a < k {
            assert(after[a] == before[a]);
            assert(usfx_lt(w, before[a] as int, sa0[q] as int));
        }
    }
    assert forall|a: int, q: int| #![trigger after[a], sa12[q]] 0 <= a < k + 1 && j12 <= q < sa12.len() implies usfx_lt(
        w,
        after[a] as int,
        sa12[q] as int,
    ) by {
        if a < k {
            assert(after[a] == before[a]);
            assert(usfx_lt(w, before[a] as int, sa12[q] as int));
        }
    }
}

/// Where the first three symbols differ, they decide the order of the
/// suffixes; where they agree, the suffixes three places on do.
proof fn lemma_tri_order(w: Seq<usize>, x: int, y: int)
    requires
        0 <= x,
        0 <= y,
    ensures
        !tri_eq(w, x, y) ==> usfx_lt(w, x, y) == tri_lt(w, x, y),
        tri_eq(w, x, y) ==> usfx_lt(w, x, y) == usfx_lt(w, x + 3, y + 3),
{
    let n = w.len() as int;
    if x < n && y < n && w[x] == w[y] {
        assert(usfx_lt(w, x, y) == usfx_lt(w, x + 1, y + 1));
        if x + 1 < n && y + 1 < n && w[x + 1] == w[y + 1] {
            assert(usfx_lt(w, x + 1, y + 1) == usfx_lt(w, x + 2, y + 2));
            if x + 2 < n && y + 2 < n && w[x + 2] == w[y + 2] {
                assert(usfx_lt(w, x + 2, y + 2) == usfx_lt(w, x + 3, y + 3));
            }
        }
    }
}

/// The order of suffixes is irreflexive.
proof fn lemma_usfx_irrefl(w: Seq<usize>, x: int)
    requires
        0 <= x,
    ensures
        !usfx_lt(w, x, x),
    decreases w.len() - x,
{
    if x < w.len() {
        lemma_usfx_irrefl(w, x + 1);
    }
}

/// The length of a word padded, where its length is 1 mod 3, by one
/// position past its end.
pub open spec fn padded_len(n: int) -> int {
    if n % 3 == 1 {
        n + 1
    } else {
        n
    }
}

/// A position of the reduced word's suffixes: one not a multiple of 3
/// below the padded length, or the end where the length is 2 mod 3.
pub open spec fn reduced_pos(n: int, x: int) -> bool {
    ||| 0 <= x < padded_len(n) && x % 3 != 0
    ||| x == n && n % 3 == 2
}

/// The reduced word names the positions by their first three symbols: one
/// name is below another exactly where the symbols are.
#[verifier::opaque]
pub open spec fn names_agree(w: Seq<usize>, r: Seq<usize>) -> bool {
    let m = padded_len(w.len() as int);
    &&& r.len() == count12(m)
    &&& forall|x: int, y: int|
        0 <= x < m && x % 3 != 0 && 0 <= y < m && y % 3 != 0 ==> ((#[trigger] r[slot(m, x)] < #[trigger] r[slot(
            m,
            y,
        )]) == tri_lt(w, x, y))
}

/// The three-symbol names are total: equal names, equal symbols.
proof fn lemma_tri_total(w: Seq<usize>, x: int, y: int)
    ensures
        tri_lt(w, x, y) || tri_lt(w, y, x) || tri_eq(w, x, y),
        !(tri_lt(w, x, y) && tri_lt(w, y, x)),
        tri_eq(w, x, y) ==> !tri_lt(w, x, y),
{
}

/// Between two positions with the same first three symbols, in order, a
/// third one has them too.
proof fn lemma_tri_between(w: Seq<usize>, a: int, b: int, c: int)
    requires
        tri_lt(w, a, b) || tri_eq(w, a, b),
        tri_lt(w, b, c) || tri_eq(w, b, c),
        tri_eq(w, a, c),
    ensures
        tri_eq(w, b, c),
{
}

/// At the end of a word of length a multiple of 3 the reduced word ends too.
proof fn lemma_slot_end0(n: int)
    requires
        0 <= n,
        n % 3 == 0,
    ensures
        slot(n, n) == count12(n),
{
}

/// Ranks of the places of the reduced word that order them as its suffixes
/// order the looked-up positions of the word as their suffixes.
proof fn lemma_ranks_agree(w: Seq<usize>, r: Seq<usize>, rk: Seq<usize>)
    requires
        names_agree(w, r),
        rk.len() == r.len(),
        forall|s: int, t: int| 0 <= s < r.len() && 0 <= t < r.len() ==> ((#[trigger] rk[s] < #[trigger] rk[t]) == usfx_lt(r, s, t)),
        forall|s: int| 0 <= s < rk.len() ==> #[trigger] rk[s] >= 1,
    ensures
        ranks_agree(w, rk, rank_split(w.len() as int)),
{
    reveal(names_agree);
    let n = w.len() as int;
    let m = padded_len(n);
    let n1 = rank_split(n);
    assert(n1 == (m + 1) / 3);
    assert forall|p: int, q: int| rankable(n, p) && rankable(n, q) implies ((#[trigger] spec_rank_at(rk, n1, p))
        < (#[trigger] spec_rank_at(rk, n1, q))) == usfx_lt(w, p, q) by {
        assert(rank_slot(n1, p) == slot(m, p));
        assert(rank_slot(n1, q) == slot(m, q));
        let pin = p < m && p % 3 != 0;
        let qin = q < m && q % 3 != 0;
        if pin {
            lemma_slot(m, p);
        } else if n % 3 == 2 {
            lemma_slot_end(n);
        } else {
            lemma_slot_end0(n);
        }
        if qin {
            lemma_slot(m, q);
        } else if n % 3 == 2 {
            lemma_slot_end(n);
        } else {
            lemma_slot_end0(n);
        }
        if pin && qin {
            lemma_reduced_order(w, r, p, q);
        } else if pin {
            assert(q == n);
        } else if qin {
            assert(p == n);
        } else {
            assert(p == n && q == n);
            lemma_usfx_irrefl(w, p);
        }
    }
}

/// Ranks that count the places of a suffix array of `r` from 1 order the
/// places as their suffixes.
proof fn lemma_ranks_from_order(r: Seq<usize>, sa: Seq<usize>, rk: Seq<usize>)
    requires
        r.len() <= usize::MAX,
        is_permutation(sa, r.len() as int),
        in_uorder(r, sa),
        rk.len() == r.len(),
        forall|j: int| 0 <= j < sa.len() ==> rk[#[trigger] sa[j] as int] == j + 1,
    ensures
        forall|s: int, t: int| 0 <= s < r.len() && 0 <= t < r.len() ==> ((#[trigger] rk[s] < #[trigger] rk[t]) == usfx_lt(r, s, t)),
{
    assert forall|s: int, t: int| 0 <= s < r.len() && 0 <= t < r.len() implies ((#[trigger] rk[s] < #[trigger] rk[t])
        == usfx_lt(r, s, t)) by {
        assert(sa.contains(s as usize));
        assert(sa.contains(t as usize));
        let a = choose|a: int| 0 <= a < sa.len() && sa[a] == s as usize;
        let b = choose|b: int| 0 <= b < sa.len() && sa[b] == t as usize;
        assert(rk[sa[a] as int] == a + 1 && rk[sa[b] as int] == b + 1);
        assert(sa[a] as int == s && sa[b] as int == t);
        if a < b {
            assert(usfx_lt(r, sa[a] as int, sa[b] as int));
        } else if b < a {
            assert(usfx_lt(r, sa[b] as int, sa[a] as int));
            lemma_usfx_asym(r, t, s);
        } else {
            lemma_usfx_irrefl(r, s);
        }
    }
}

/// Places listed by increasing names (distinct, counting from 1) are in the
/// order of their suffixes.
proof fn lemma_order_from_names(r: Seq<usize>, sa: Seq<usize>)
    requires
        forall|j: int| 0 <= j < sa.len() ==> (#[trigger] sa[j]) < r.len() && r[sa[j] as int] == j + 1,
    ensures
        in_uorder(r, sa),
{
    assert forall|a: int, b: int| #![trigger sa[a], sa[b]] 0 <= a < b < sa.len() implies usfx_lt(
        r,
        sa[a] as int,
        sa[b] as int,
    ) by {
        assert(r[sa[a] as int] == a + 1 && r[sa[b] as int] == b + 1);
    }
}

/// The positions for the places of a suffix array of the reduced word are
/// in the order of their suffixes.
proof fn lemma_positions_order(w: Seq<usize>, r: Seq<usize>, slots: Seq<usize>, pos: Seq<usize>)
    requires
        names_agree(w, r),
        in_uorder(r, slots),
        pos.len() == slots.len(),
        forall|u: int| 0 <= u < slots.len() ==> (#[trigger] slots[u]) < count12(padded_len(w.len() as int)),
        forall|u: int| 0 <= u < pos.len() ==> #[trigger] pos[u] == unslot(padded_len(w.len() as int), slots[u] as int),
    ensures
        in_uorder(w, pos),
{
    let m = padded_len(w.len() as int);
    assert forall|a: int, b: int| #![trigger pos[a], pos[b]] 0 <= a < b < pos.len() implies usfx_lt(
        w,
        pos[a] as int,
        pos[b] as int,
    ) by {
        lemma_unslot(m, slots[a] as int);
        lemma_unslot(m, slots[b] as int);
        assert(usfx_lt(r, slots[a] as int, slots[b] as int));
        lemma_reduced_order(w, r, pos[a] as int, pos[b] as int);
    }
}

/// Taking an entry out of a list in order leaves it in order.
proof fn lemma_remove_in_order(w: Seq<usize>, s: Seq<usize>, k: int)
    requires
        in_uorder(w, s),
        0 <= k < s.len(),
    ensures
        in_uorder(w, s.remove(k)),
{
    let t = s.remove(k);
    assert forall|a: int, b: int| #![trigger t[a], t[b]] 0 <= a < b < t.len() implies usfx_lt(w, t[a] as int, t[b] as int) by {
        let a2 = if a < k { a } else { a + 1 };
        let b2 = if b < k { b } else { b + 1 };
        assert(t[a] == s[a2] && t[b] == s[b2]);
    }
}

/// Moving three places on moves one place on in the reduced word.
proof fn lemma_slot_next(m: int, x: int)
    requires
        0 <= x,
        x % 3 != 0,
    ensures
        slot(m, x + 3) == slot(m, x) + 1,
        (x + 3) % 3 == x % 3,
{
}

/// At the end of a word of length 2 mod 3 the reduced word ends too.
proof fn lemma_slot_end(n: int)
    requires
        0 <= n,
        n % 3 == 2,
    ensures
        slot(n, n) == count12(n),
{
}

/// The suffixes of the reduced word are in the order of the suffixes of the
/// word at the positions they stand for.
proof fn lemma_reduced_order(w: Seq<usize>, r: Seq<usize>, x: int, y: int)
    requires
        names_agree(w, r),
        reduced_pos(w.len() as int, x),
        reduced_pos(w.len() as int, y),
    ensures
        usfx_lt(r, slot(padded_len(w.len() as int), x), slot(padded_len(w.len() as int), y)) == usfx_lt(w, x, y),
    decreases w.len() + 1 - x,
{
    reveal(names_agree);
    let n = w.len() as int;
    let m = padded_len(n);
    let sx = slot(m, x);
    let sy = slot(m, y);
    if x == n && n % 3 == 2 {
        lemma_slot_end(n);
        if y == n {
            lemma_usfx_irrefl(r, sx);
            lemma_usfx_irrefl(w, x);
        } else {
            lemma_slot(m, y);
        }
    } else if y == n && n % 3 == 2 {
        lemma_slot_end(n);
        lemma_slot(m, x);
    } else {
        lemma_slot(m, x);
        lemma_slot(m, y);
        lemma_tri_order(w, x, y);
        lemma_tri_total(w, x, y);
        assert((r[sx] < r[sy]) == tri_lt(w, x, y));
        assert((r[sy] < r[sx]) == tri_lt(w, y, x));
        if !tri_eq(w, x, y) {
            assert(r[sx] != r[sy]);
        } else if x == y {
            lemma_usfx_irrefl(r, sx);
            lemma_usfx_irrefl(w, x);
        } else {
            assert(r[sx] == r[sy]);
            assert(usfx_lt(r, sx, sy) == usfx_lt(r, sx + 1, sy + 1));
            // equal symbols at different places do not run past the end
            assert(x + 2 < n && y + 2 < n) by {
                if x >= n || y >= n {
                    assert(x >= n && y >= n);
                } else if x + 1 >= n || y + 1 >= n {
                    assert(x + 1 >= n && y + 1 >= n);
                } else if x + 2 >= n || y + 2 >= n {
                    assert(x + 2 >= n && y + 2 >= n);
                }
            }
            lemma_slot_next(m, x);
            lemma_slot_next(m, y);
            lemma_reduced_order(w, r, x + 3, y + 3);
        }
    }
}

/// The symbol at `x`, or `None` past the end.
fn symbol_at(word: &[usize], x: usize) -> (r: Option<usize>)
    ensures
        r == (if x < word@.len() {
            Some(word@[x as int])
        } else {
            None
        }),
{
    if x < word.len() {
        Some(word[x])
    } else {
        None
    }
}

/// Symbols in order: past the end first, then by value.
pub open spec fn spec_symbol_lt(a: Option<usize>, b: Option<usize>) -> bool {
    match (a, b) {
        (None, Some(_)) => true,
        (Some(x), Some(y)) => x < y,
        _ => false,
    }
}

/// Symbols in order: past the end first, then by value.
fn symbol_lt(a: Option<usize>, b: Option<usize>) -> (r: bool)
    ensures
        r == spec_symbol_lt(a, b),
{
    match (a, b) {
        (None, None) => false,
        (None, Some(_)) => true,
        (Some(_), None) => false,
        (Some(x), Some(y)) => x < y,
    }
}

/// Equality of symbols.
fn symbol_eq(a: Option<usize>, b: Option<usize>) -> (r: bool)
    ensures
        r == (a == b),
{
    match (a, b) {
        (None, None) => true,
        (Some(x), Some(y)) => x == y,
        _ => false,
    }
}

/// Builds a suffix array by the skew (DC3) method: positions 1 and 2 mod 3
/// are ranked through a reduced word, positions 0 mod 3 are sorted by their
/// first symbol and the rank that follows, and the two lists are merged.
pub struct SuffixArrayBuilder<'a> {
    word: &'a [usize],
    sa0: Vec<usize>,
    ra12: Vec<usize>,
    sa12: Vec<usize>,
}

impl<'a> SuffixArrayBuilder<'a> {
    /// Writes into the first `word.len()` entries of `sa` the positions of
    /// `word` in the order of their suffixes (its suffix array without the
    /// empty suffix).
    pub fn build_in_place(word: &'a [usize], sa: &mut Vec<usize>)
        requires
            old(sa)@.len() >= word@.len(),
            2 <= word@.len() <= isize::MAX / 8,
        ensures
            final(sa)@.len() == old(sa)@.len(),
            is_permutation(final(sa)@.subrange(0, word@.len() as int), word@.len() as int),
            final(sa)@.subrange(word@.len() as int, old(sa)@.len() as int) == old(sa)@.subrange(
                word@.len() as int,
                old(sa)@.len() as int,
            ),
            in_uorder(word@, final(sa)@.subrange(0, word@.len() as int)),
        decreases word@.len(),
    {
        let n2 = word.len() / 3;
        let n1 = (word.len() + 1) / 3;
        let n0 = (word.len() + 2) / 3;
        let n12 = n1 + n2;
        let mut this = SuffixArrayBuilder {
            word,
            sa12: Vec::with_capacity(n12),
            ra12: Vec::with_capacity(n12),
            sa0: Vec::with_capacity(n0),
        };
        this.create_array12();
        this.create_array0();
        this.merge(sa);
    }

    /// Sorts the positions that are not multiples of 3 (into `sa12`), through
    /// the suffix array of the word of their ranks, and records those ranks
    /// (in `ra12`).
    fn create_array12(&mut self)
        requires
            old(self).sa12@.len() == 0,
            2 <= old(self).word@.len() <= isize::MAX / 8,
        ensures
            final(self).word == old(self).word,
            final(self).sa0 == old(self).sa0,
            final(self).sa12@.len() == count12(final(self).word@.len() as int),
            lists_exactly(final(self).sa12@, final(self).word@.len() as int, |x: int| is_mod12(x)),
            in_uorder(final(self).word@, final(self).sa12@),
            ranks_agree(final(self).word@, final(self).ra12@, rank_split(final(self).word@.len() as int)),
        decreases old(self).word@.len(), 1nat,
    {
        let word = self.word;
        let n = word.len();
        let ghost nn = n as int;
        // Where the word's length is 1 mod 3, the position just past its end
        // joins the sorted positions: its rank, the smallest, closes the
        // ranks of positions 1 mod 3 in the reduced word.
        let m: usize = if n % 3 == 1 {
            n + 1
        } else {
            n
        };
        let ghost mm = m as int;
        let mut index: usize = 0;
        while index < m
            invariant
                n == word@.len(),
                m <= n + 1,
                self.word == word,
                word == old(self).word,
                self.sa0 == old(self).sa0,
                index <= m,
                self.sa12@.len() == count12(index as int),
                lists_exactly(self.sa12@, index as int, |x: int| is_mod12(x)),
            decreases m - index,
        {
            proof {
                lemma_count12_step(index as int);
            }
            if index % 3 != 0 {
                let ghost before = self.sa12@;
                self.sa12.push(index);
                proof {
                    assert forall|x: usize| x < index + 1 && is_mod12(x as int) implies #[trigger] self.sa12@.contains(x) by {
                        if x < index {
                            assert(before.contains(x));
                            let k = choose|k: int| 0 <= k < before.len() && before[k] == x;
                            assert(self.sa12@[k] == x);
                        } else {
                            assert(self.sa12@[before.len() as int] == x);
                        }
                    }
                    assert forall|i: int, j: int| 0 <= i < self.sa12@.len() && 0 <= j < self.sa12@.len() && i != j implies self.sa12@[i] != self.sa12@[j] by {
                        if i < before.len() && j < before.len() {
                            assert(before[i] != before[j]);
                        } else if i < before.len() {
                            assert(before[i] < index);
                        } else {
                            assert(before[j] < index);
                        }
                    }
                }
            } else {
                proof {
                    assert forall|x: usize| x < index + 1 && is_mod12(x as int) implies #[trigger] self.sa12@.contains(x) by {
                        assert(x != index);
                    }
                }
            }
            index += 1;
        }
        let n12 = self.sa12.len();
        let n1 = (m + 1) / 3;
        let ghost listed = self.sa12@;
        let ghost ws = word@;
        radix_sort(word, 2, &mut self.sa12);
        let ghost l2 = self.sa12@;
        radix_sort(word, 1, &mut self.sa12);
        let ghost l1 = self.sa12@;
        radix_sort(word, 0, &mut self.sa12);
        proof {
            lemma_three_passes(ws, l2, l1, self.sa12@);
            assert(mm == padded_len(nn));
            lemma_same_multiset(listed, self.sa12@);
            assert forall|x: usize| x < mm && is_mod12(x as int) implies #[trigger] self.sa12@.contains(x) by {
                assert(listed.contains(x));
            }
            assert forall|i: int| 0 <= i < self.sa12@.len() implies (#[trigger] self.sa12@[i]) < mm && is_mod12(self.sa12@[i] as int) by {
                assert(listed.contains(self.sa12@[i]));
            }
        }
        let (mut ra12, letter) = SuffixArrayBuilder::name_by_triples(word, &self.sa12, m);
        // the reduced word
        let ghost rw = ra12@;
        if letter < n12 {
            // some ranks repeat: rank by the suffix array of the reduced word
            proof {
                assert(letter >= 1);
            }
            SuffixArrayBuilder::build_in_place(&ra12, &mut self.sa12);
            proof {
                assert(self.sa12@.subrange(0, n12 as int) =~= self.sa12@);
            }
            rank_by_place(&self.sa12, &mut ra12);
        } else {
            // all ranks differ: the suffix array of the reduced word is their inverse
            place_by_names(&mut self.sa12, &ra12, m);
        }
        proof {
            lemma_ranks_agree(ws, rw, ra12@);
        }
        // back from places of the reduced word to positions of the word
        let ghost reduced = self.sa12@;
        positions_of_places(&mut self.sa12, m);
        proof {
            lemma_positions_order(ws, rw, reduced, self.sa12@);
        }
        if m > n {
            // the position past the end leaves the sorted positions again
            let ghost before = self.sa12@;
            drop_position(&mut self.sa12, n);
            proof {
                lemma_count12_step(nn);
                let k = choose|k: int| 0 <= k < before.len() && self.sa12@ == before.remove(k);
                lemma_remove_in_order(ws, before, k);
            }
        }
        self.ra12 = ra12;
    }

    /// Names each listed position (those not multiples of 3, below the
    /// padded length `m`, already ordered by their first three symbols) by
    /// its first three symbols: the names count from 1, in that order, and
    /// are recorded at the position's place in the reduced word.  Returns
    /// the names and how many there are.
    fn name_by_triples(word: &[usize], sa12: &Vec<usize>, m: usize) -> (r: (Vec<usize>, usize))
        requires
            2 <= word@.len() <= isize::MAX / 8,
            m == padded_len(word@.len() as int),
            sa12@.len() == count12(m as int),
            lists_exactly(sa12@, m as int, |x: int| is_mod12(x)),
            in_tri_order(word@, sa12@),
        ensures
            r.0@.len() == sa12@.len(),
            names_agree(word@, r.0@),
            sa12@.len() > 0 ==> r.1 >= 1,
            r.1 <= sa12@.len(),
            r.1 == sa12@.len() ==> forall|u: int|
                0 <= u < sa12@.len() ==> r.0@[slot(m as int, #[trigger] sa12@[u] as int)] == u + 1,
            forall|s: int| 0 <= s < r.0@.len() ==> #[trigger] r.0@[s] >= 1,
    {
        let n = word.len();
        let ghost nn = n as int;
        let ghost mm = m as int;
        let ghost ws = word@;
        let n12 = sa12.len();
        let n1 = (m + 1) / 3;
    // the rank of each of these positions, by its first three symbols
    let mut ra12: Vec<usize> = Vec::new();
    let mut z: usize = 0;
    while z < n12
        invariant
            ra12@.len() == z,
            sa12@.len() == n12,
            z <= n12,
        decreases n12 - z,
    {
        ra12.push(0);
        z += 1;
    }
    let mut letter: usize = 0;
    let mut prevc: (Option<usize>, Option<usize>, Option<usize>) = (None, None, None);
    let ghost mut letters: Seq<int> = Seq::empty();
    let mut t: usize = 0;
    while t < n12
        invariant
            n == word@.len(),
            n == nn,
            2 <= nn <= isize::MAX / 8,
            mm == m,
            m <= n + 1,
            n1 == (mm + 1) / 3,
            n12 == count12(mm),
            n12 == sa12@.len(),
            lists_exactly(sa12@, mm, |x: int| is_mod12(x)),
            ra12@.len() == n12,
            t <= n12,
            letters.len() == t,
            letter as int <= t,
            t > 0 ==> letter as int == letters[t - 1],
            t == 0 ==> letter == 0,
            forall|u: int| 0 <= u < t ==> 1 <= #[trigger] letters[u] <= u + 1,
            forall|u: int| 0 <= u < t ==> letter - #[trigger] letters[u] <= t - 1 - u,
            forall|u: int|
                0 <= u < t ==> ra12@[slot(mm, #[trigger] sa12@[u] as int)] == letters[u],
            ws == word@,
            mm == padded_len(nn),
            in_tri_order(ws, sa12@),
            t > 0 ==> prevc == (
                sym_at(ws, sa12@[t - 1] as int),
                sym_at(ws, sa12@[t - 1] + 1),
                sym_at(ws, sa12@[t - 1] + 2),
            ),
            forall|u: int, v: int|
                #![trigger letters[u], letters[v]]
                0 <= u < t && 0 <= v < t ==> (letters[u] < letters[v]) == tri_lt(
                    ws,
                    sa12@[u] as int,
                    sa12@[v] as int,
                ),
        decreases n12 - t,
    {
        let index = sa12[t];
        proof {
            lemma_slot(mm, index as int);
        }
        let c0 = symbol_at(word, index);
        let c1 = symbol_at(word, index + 1);
        let c2 = symbol_at(word, index + 2);
        let same = t > 0 && symbol_eq(c0, prevc.0) && symbol_eq(c1, prevc.1) && symbol_eq(c2, prevc.2);
        if !same {
            letter += 1;
            prevc = (c0, c1, c2);
        }
        let s = if index % 3 == 1 {
            index / 3
        } else {
            index / 3 + n1
        };
        assert(s as int == slot(mm, index as int));
        ra12.set(s, letter);
        proof {
            let ghost old_letters = letters;
            letters = letters.push(letter as int);
            let tt = t as int;
            let x = sa12@[tt] as int;
            if t > 0 {
                let pp = sa12@[tt - 1] as int;
                assert(same == tri_eq(ws, x, pp));
            }
            assert forall|u: int, v: int|
                #![trigger letters[u], letters[v]]
                0 <= u < tt + 1 && 0 <= v < tt + 1 implies (letters[u] < letters[v]) == tri_lt(
                    ws,
                    sa12@[u] as int,
                    sa12@[v] as int,
                ) by {
                if u < tt && v < tt {
                    assert(letters[u] == old_letters[u] && letters[v] == old_letters[v]);
                } else if u == tt && v == tt {
                } else {
                    let o = if u == tt { v } else { u };
                    assert(letters[o] == old_letters[o]);
                    let y = sa12@[o] as int;
                    assert(tri_lt(ws, y, x) || tri_eq(ws, y, x));
                    if same {
                        let pp = sa12@[tt - 1] as int;
                        assert(letters[tt] == old_letters[tt - 1]);
                        assert((old_letters[o] < old_letters[tt - 1]) == tri_lt(ws, y, pp));
                        assert((old_letters[tt - 1] < old_letters[o]) == tri_lt(ws, pp, y));
                    } else {
                        assert(old_letters[o] <= letter - 1);
                        if tri_eq(ws, y, x) {
                            let pp = sa12@[tt - 1] as int;
                            if o < tt - 1 {
                                assert(tri_lt(ws, y, pp) || tri_eq(ws, y, pp));
                            }
                            assert(tri_lt(ws, pp, x) || tri_eq(ws, pp, x));
                            lemma_tri_between(ws, y, pp, x);
                        }
                    }
                }
            }
            assert forall|u: int| 0 <= u < t + 1 implies ra12@[slot(mm, #[trigger] sa12@[u] as int)]
                == letters[u] by {
                if u < t {
                    lemma_slot(mm, sa12@[u] as int);
                    assert(sa12@[u] != sa12@[t as int]);
                    assert(slot(mm, sa12@[u] as int) != slot(mm, index as int));
                }
            }
        }
        t += 1;
    }
        proof {
            reveal(names_agree);
            assert forall|x: int, y: int|
                0 <= x < mm && x % 3 != 0 && 0 <= y < mm && y % 3 != 0 implies ((#[trigger] ra12@[slot(mm, x)]
                    < #[trigger] ra12@[slot(mm, y)]) == tri_lt(ws, x, y)) by {
                assert(sa12@.contains(x as usize));
                assert(sa12@.contains(y as usize));
                let u = choose|u: int| 0 <= u < sa12@.len() && sa12@[u] == x as usize;
                let v = choose|v: int| 0 <= v < sa12@.len() && sa12@[v] == y as usize;
                assert(ra12@[slot(mm, sa12@[u] as int)] == letters[u]);
                assert(ra12@[slot(mm, sa12@[v] as int)] == letters[v]);
            }
            assert forall|s: int| 0 <= s < ra12@.len() implies #[trigger] ra12@[s] >= 1 by {
                lemma_unslot(mm, s);
                let x = unslot(mm, s) as usize;
                assert(sa12@.contains(x));
                let u = choose|u: int| 0 <= u < sa12@.len() && sa12@[u] == x;
                assert(ra12@[slot(mm, sa12@[u] as int)] == letters[u]);
            }
            if letter == n12 {
                assert forall|u: int| 0 <= u < n12 implies ra12@[slot(mm, #[trigger] sa12@[u] as int)] == u + 1 by {
                    assert(ra12@[slot(mm, sa12@[u] as int)] == letters[u]);
                }
            }
        }
        (ra12, letter)
    }

    /// Sorts the positions that are multiples of 3 (into `sa0`) by their
    /// first symbol and the rank of the position after them.
    fn create_array0(&mut self)
        requires
            old(self).sa0@.len() == 0,
            2 <= old(self).word@.len() <= isize::MAX / 8,
            old(self).sa12@.len() == count12(old(self).word@.len() as int),
            lists_exactly(old(self).sa12@, old(self).word@.len() as int, |x: int| is_mod12(x)),
        ensures
            final(self).word == old(self).word,
            final(self).sa12 == old(self).sa12,
            final(self).ra12 == old(self).ra12,
            lists_exactly(final(self).sa0@, final(self).word@.len() as int, |x: int| is_mod0(x)),
            in_uorder(old(self).word@, old(self).sa12@) ==> in_uorder(final(self).word@, final(self).sa0@),
    {
        let word = self.word;
        let n = word.len();
        let ghost nn = n as int;
        let ghost ws = word@;
        let ghost ordered = in_uorder(ws, self.sa12@);
        if n % 3 == 1 {
            // the last position is a multiple of 3
            self.sa0.push(n - 1);
            assert(self.sa0@[0] == n - 1);
        }
        let mut t: usize = 0;
        while t < self.sa12.len()
            invariant
                n == word@.len(),
                n == nn,
                self.word == word,
                self.word == old(self).word,
                self.sa12 == old(self).sa12,
                self.ra12 == old(self).ra12,
                2 <= nn <= isize::MAX / 8,
                lists_exactly(self.sa12@, nn, |x: int| is_mod12(x)),
                t <= self.sa12@.len(),
                self.sa0@.no_duplicates(),
                forall|k: int|
                    0 <= k < self.sa0@.len() ==> #[trigger] self.sa0@[k] < nn && is_mod0(self.sa0@[k] as int) && (
                    self.sa0@[k] + 1 == nn || self.sa12@.subrange(0, t as int).contains((self.sa0@[k] + 1) as usize)),
                nn % 3 == 1 ==> self.sa0@.contains((nn - 1) as usize),
                forall|u: int|
                    0 <= u < t && #[trigger] self.sa12@[u] % 3 == 1 ==> self.sa0@.contains((self.sa12@[u] - 1) as usize),
                ws == word@,
                ordered ==> in_uorder(ws, self.sa12@),
                ordered ==> forall|a: int, b: int|
                    #![trigger self.sa0@[a], self.sa0@[b]]
                    0 <= a < b < self.sa0@.len() ==> usfx_lt(ws, self.sa0@[a] + 1, self.sa0@[b] + 1),
            decreases self.sa12@.len() - t,
        {
            let index = self.sa12[t];
            let ghost before = self.sa0@;
            if index % 3 == 1 {
                self.sa0.push(index - 1);
                proof {
                    assert forall|i: int, j: int| 0 <= i < self.sa0@.len() && 0 <= j < self.sa0@.len() && i != j implies self.sa0@[i] != self.sa0@[j] by {
                        if i < before.len() && j < before.len() {
                        } else if i < before.len() {
                            if before[i] + 1 != nn {
                                let w = (before[i] + 1) as usize;
                                assert(self.sa12@.subrange(0, t as int).contains(w));
                                let v = choose|v: int| 0 <= v < t && self.sa12@.subrange(0, t as int)[v] == w;
                                assert(self.sa12@[v] == w);
                            }
                        } else {
                            if before[j] + 1 != nn {
                                let w = (before[j] + 1) as usize;
                                assert(self.sa12@.subrange(0, t as int).contains(w));
                                let v = choose|v: int| 0 <= v < t && self.sa12@.subrange(0, t as int)[v] == w;
                                assert(self.sa12@[v] == w);
                            }
                        }
                    }
                }
            }
            proof {
                assert forall|k: int| 0 <= k < self.sa0@.len() implies #[trigger] self.sa0@[k] < nn && is_mod0(self.sa0@[k] as int) && (
                    self.sa0@[k] + 1 == nn || self.sa12@.subrange(0, t + 1).contains((self.sa0@[k] + 1) as usize)) by {
                    if k < before.len() {
                        if before[k] + 1 != nn {
                            let w = (before[k] + 1) as usize;
                            assert(self.sa12@.subrange(0, t as int).contains(w));
                            let v = choose|v: int| 0 <= v < t && self.sa12@.subrange(0, t as int)[v] == w;
                            assert(self.sa12@.subrange(0, t + 1)[v] == w);
                        }
                    } else {
                        assert(self.sa12@.subrange(0, t + 1)[t as int] == index);
                    }
                }
                if nn % 3 == 1 {
                    let w = (nn - 1) as usize;
                    assert(before.contains(w));
                    let v = choose|v: int| 0 <= v < before.len() && before[v] == w;
                    assert(self.sa0@[v] == w);
                }
                assert forall|u: int| 0 <= u < t + 1 && #[trigger] self.sa12@[u] % 3 == 1 implies self.sa0@.contains((self.sa12@[u] - 1) as usize) by {
                    if u < t {
                        let w = (self.sa12@[u] - 1) as usize;
                        assert(before.contains(w));
                        let v = choose|v: int| 0 <= v < before.len() && before[v] == w;
                        assert(self.sa0@[v] == w);
                    } else {
                        assert(self.sa0@[before.len() as int] == index - 1);
                    }
                }
                if ordered {
                    assert forall|a: int, b: int|
                        #![trigger self.sa0@[a], self.sa0@[b]]
                        0 <= a < b < self.sa0@.len() implies usfx_lt(ws, self.sa0@[a] + 1, self.sa0@[b] + 1) by {
                        if b < before.len() {
                            assert(self.sa0@[a] == before[a] && self.sa0@[b] == before[b]);
                        } else {
                            assert(self.sa0@[a] == before[a]);
                            assert(self.sa0@[b] + 1 == index);
                            if before[a] + 1 != nn {
                                let x = (before[a] + 1) as usize;
                                assert(self.sa12@.subrange(0, t as int).contains(x));
                                let v = choose|v: int| 0 <= v < t && self.sa12@.subrange(0, t as int)[v] == x;
                                assert(self.sa12@[v] == x);
                                assert(usfx_lt(ws, self.sa12@[v] as int, self.sa12@[t as int] as int));
                            }
                        }
                    }
                }
            }
            t += 1;
        }
        let ghost listed = self.sa0@;
        proof {
            assert forall|x: usize| x < nn && is_mod0(x as int) implies #[trigger] listed.contains(x) by {
                if x + 1 < nn {
                    let w = (x + 1) as usize;
                    assert(self.sa12@.contains(w));
                    let u = choose|u: int| 0 <= u < self.sa12@.len() && self.sa12@[u] == w;
                    assert(self.sa12@[u] % 3 == 1);
                }
            }
        }
        radix_sort(word, 0, &mut self.sa0);
        proof {
            if ordered {
                let rel = |x: usize, y: usize| usfx_lt(ws, x + 1, y + 1);
                assert forall|a: int, b: int|
                    #![trigger listed[a], listed[b]]
                    0 <= a < b < listed.len() && pass_key(ws, 0, listed[a] as int) == pass_key(ws, 0, listed[b] as int)
                        implies rel(listed[a], listed[b]) by {
                }
                lemma_stable_keeps(ws, 0, listed, self.sa0@, rel);
            }
            lemma_same_multiset(listed, self.sa0@);
            assert forall|x: usize| x < nn && is_mod0(x as int) implies #[trigger] self.sa0@.contains(x) by {
                assert(listed.contains(x));
            }
            assert forall|i: int| 0 <= i < self.sa0@.len() implies (#[trigger] self.sa0@[i]) < nn && is_mod0(self.sa0@[i] as int) by {
                assert(listed.contains(self.sa0@[i]));
                let v = choose|v: int| 0 <= v < listed.len() && listed[v] == self.sa0@[i];
            }
            if ordered {
                let out = self.sa0@;
                assert forall|a: int, b: int| #![trigger out[a], out[b]] 0 <= a < b < out.len() implies usfx_lt(
                    ws,
                    out[a] as int,
                    out[b] as int,
                ) by {
                    assert(out[a] < nn && out[b] < nn);
                    assert(pass_key(ws, 0, out[a] as int) <= pass_key(ws, 0, out[b] as int));
                    if pass_key(ws, 0, out[a] as int) == pass_key(ws, 0, out[b] as int) {
                        assert(usfx_lt(ws, out[a] + 1, out[b] + 1));
                    }
                }
            }
        }
    }

    /// Merges `sa0` and `sa12` into the first `word.len()` entries of `sa`,
    /// comparing a position 0 mod 3 with a position 1 mod 3 by (symbol, rank
    /// of the next position), and with a position 2 mod 3 by (symbol, next
    /// symbol, rank of the position after).  Where both lists are in the
    /// order of their suffixes and the ranks agree with it, so is the result.
    fn merge(&self, sa: &mut Vec<usize>)
        requires
            old(sa)@.len() >= self.word@.len(),
            2 <= self.word@.len() <= isize::MAX / 8,
            lists_exactly(self.sa12@, self.word@.len() as int, |x: int| is_mod12(x)),
            lists_exactly(self.sa0@, self.word@.len() as int, |x: int| is_mod0(x)),
        ensures
            final(sa)@.len() == old(sa)@.len(),
            is_permutation(final(sa)@.subrange(0, self.word@.len() as int), self.word@.len() as int),
            final(sa)@.subrange(self.word@.len() as int, old(sa)@.len() as int) == old(sa)@.subrange(
                self.word@.len() as int,
                old(sa)@.len() as int,
            ),
            in_uorder(self.word@, self.sa0@) && in_uorder(self.word@, self.sa12@) && ranks_agree(
                self.word@,
                self.ra12@,
                rank_split(self.word@.len() as int),
            ) ==> in_uorder(self.word@, final(sa)@.subrange(0, self.word@.len() as int)),
    {
        let word = self.word;
        let sa0 = &self.sa0;
        let sa12 = &self.sa12;
        let ra12 = &self.ra12;
        let n = word.len();
        let ghost nn = n as int;
        proof {
            let all = sa0@ + sa12@;
            assert forall|i: int| 0 <= i < all.len() implies #[trigger] all[i] < nn as nat by {
                if i < sa0@.len() {
                    assert(all[i] == sa0@[i]);
                } else {
                    assert(all[i] == sa12@[i - sa0@.len()]);
                }
            }
            assert forall|x: usize| x < nn as nat implies #[trigger] all.contains(x) by {
                if x % 3 == 0 {
                    assert(sa0@.contains(x));
                    let k = choose|k: int| 0 <= k < sa0@.len() && sa0@[k] == x;
                    assert(all[k] == x);
                } else {
                    assert(sa12@.contains(x));
                    let k = choose|k: int| 0 <= k < sa12@.len() && sa12@[k] == x;
                    assert(all[sa0@.len() + k] == x);
                }
            }
            assert(all.no_duplicates()) by {
                assert forall|i: int, j: int| 0 <= i < all.len() && 0 <= j < all.len() && i != j implies all[i] != all[j] by {
                    if i < sa0@.len() && j >= sa0@.len() {
                        assert(all[i] % 3 == 0);
                        assert(all[j] == sa12@[j - sa0@.len()]);
                    } else if j < sa0@.len() && i >= sa0@.len() {
                        assert(all[j] % 3 == 0);
                        assert(all[i] == sa12@[i - sa0@.len()]);
                    } else if i < sa0@.len() {
                        assert(all[i] == sa0@[i] && all[j] == sa0@[j]);
                    } else {
                        assert(all[i] == sa12@[i - sa0@.len()] && all[j] == sa12@[j - sa0@.len()]);
                    }
                }
            }
            lemma_cover_len(all, nn as nat);
            assert(sa0@.contains(0));
            assert(sa12@.contains(1));
        }
        let mut index0: usize = 0;
        let mut index12: usize = 0;
        // ranks of positions 1 mod 3 come first; where the length is 1 mod 3
        // they include the position just past the end
        let n1 = if n % 3 == 1 {
            (n + 2) / 3
        } else {
            (n + 1) / 3
        };
        let ghost old_sa = sa@;
        let ghost ws = word@;
        let ghost ordered = in_uorder(ws, sa0@) && in_uorder(ws, sa12@) && ranks_agree(ws, ra12@, n1 as int);
        assert(n1 == rank_split(nn));
        let mut k: usize = 0;
        let mut done = false;
        while k < n && !done
            invariant
                n == word@.len(),
                n == nn,
                2 <= nn <= isize::MAX / 8,
                n1 <= nn,
                sa0@.len() + sa12@.len() == n,
                lists_exactly(sa12@, nn, |x: int| is_mod12(x)),
                lists_exactly(sa0@, nn, |x: int| is_mod0(x)),
                sa@.len() == old_sa.len(),
                n <= sa@.len(),
                forall|m: int| n <= m < sa@.len() ==> #[trigger] sa@[m] == old_sa[m],
                index0 <= sa0@.len(),
                index12 <= sa12@.len(),
                !done ==> k == index0 + index12 && index0 < sa0@.len() && index12 < sa12@.len(),
                done ==> index0 == sa0@.len() && index12 == sa12@.len() && k == n,
                k <= n,
                sa@.subrange(0, k as int).no_duplicates(),
                forall|p: int|
                    0 <= p < k ==> sa0@.subrange(0, index0 as int).contains(#[trigger] sa@[p])
                        || sa12@.subrange(0, index12 as int).contains(sa@[p]),
                forall|q: int| 0 <= q < index0 ==> sa@.subrange(0, k as int).contains(#[trigger] sa0@[q]),
                forall|q: int| 0 <= q < index12 ==> sa@.subrange(0, k as int).contains(#[trigger] sa12@[q]),
                ws == word@,
                ordered ==> in_uorder(ws, sa0@) && in_uorder(ws, sa12@) && ranks_agree(ws, ra12@, n1 as int),
                ordered ==> placed_in_order(ws, sa@, k as int) && placed_before(ws, sa@, k as int, sa0@, index0 as int)
                    && placed_before(ws, sa@, k as int, sa12@, index12 as int),
            decreases n - k,
        {
            let i = sa0[index0];
            let j = sa12[index12];
            let next_in0 = if j % 3 == 1 {
                let wi = symbol_at(word, i);
                let wj = symbol_at(word, j);
                let ri = rank_at(ra12, n1, i + 1);
                let rj = rank_at(ra12, n1, j + 1);
                symbol_lt(wi, wj) || (symbol_eq(wi, wj) && ri < rj)
            } else {
                let wi = symbol_at(word, i);
                let wj = symbol_at(word, j);
                let wi1 = symbol_at(word, i + 1);
                let wj1 = symbol_at(word, j + 1);
                let ri = rank_at(ra12, n1, i + 2);
                let rj = rank_at(ra12, n1, j + 2);
                symbol_lt(wi, wj) || (symbol_eq(wi, wj) && (symbol_lt(wi1, wj1) || (symbol_eq(wi1, wj1) && ri < rj)))
            };
            let ghost before = sa@;
            let ghost i0 = index0;
            let ghost i12 = index12;
            proof {
                if ordered {
                    lemma_merge_compare(ws, ra12@, n1 as int, i as int, j as int);
                    if next_in0 {
                        lemma_first_of_list(ws, sa0@, i0 as int);
                        lemma_first_via(ws, i, sa12@, i12 as int);
                    } else {
                        lemma_usfx_total(ws, i as int, j as int);
                        lemma_first_of_list(ws, sa12@, i12 as int);
                        lemma_first_via(ws, j, sa0@, i0 as int);
                    }
                }
            }
            if next_in0 {
                sa.set(k, i);
                index0 += 1;
            } else {
                sa.set(k, j);
                index12 += 1;
            }
            proof {
                lemma_merge_step(before, sa@, sa0@, sa12@, k as int, i0 as int, i12 as int, index0 as int, index12 as int, nn);
                if ordered {
                    let x = if next_in0 { i } else { j };
                    lemma_merge_order_step(ws, before, sa@, sa0@, sa12@, k as int, x, i0 as int, i12 as int, index0 as int, index12 as int);
                }
            }
            k += 1;
            if index0 == sa0.len() {
                // the rest comes from `sa12`
                while k < n
                    invariant
                        n == nn,
                        sa0@.len() + sa12@.len() == n,
                        lists_exactly(sa12@, nn, |x: int| is_mod12(x)),
                        lists_exactly(sa0@, nn, |x: int| is_mod0(x)),
                        sa@.len() == old_sa.len(),
                        n <= sa@.len(),
                        forall|m: int| n <= m < sa@.len() ==> #[trigger] sa@[m] == old_sa[m],
                        index0 == sa0@.len(),
                        index12 <= sa12@.len(),
                        k == index0 + index12,
                        k <= n,
                        sa@.subrange(0, k as int).no_duplicates(),
                        forall|p: int|
                            0 <= p < k ==> sa0@.subrange(0, index0 as int).contains(#[trigger] sa@[p])
                                || sa12@.subrange(0, index12 as int).contains(sa@[p]),
                        forall|q: int| 0 <= q < index0 ==> sa@.subrange(0, k as int).contains(#[trigger] sa0@[q]),
                        forall|q: int| 0 <= q < index12 ==> sa@.subrange(0, k as int).contains(#[trigger] sa12@[q]),
                        ordered ==> in_uorder(ws, sa0@) && in_uorder(ws, sa12@),
                        ordered ==> placed_in_order(ws, sa@, k as int) && placed_before(ws, sa@, k as int, sa0@, index0 as int)
                            && placed_before(ws, sa@, k as int, sa12@, index12 as int),
                    decreases n - k,
                {
                    let ghost before = sa@;
                    let ghost i12 = index12;
                    let x = sa12[index12];
                    proof {
                        if ordered {
                            lemma_first_of_list(ws, sa12@, i12 as int);
                        }
                    }
                    sa.set(k, x);
                    index12 += 1;
                    proof {
                        lemma_merge_step(before, sa@, sa0@, sa12@, k as int, index0 as int, i12 as int, index0 as int, index12 as int, nn);
                        if ordered {
                            lemma_merge_order_step(ws, before, sa@, sa0@, sa12@, k as int, x, index0 as int, i12 as int, index0 as int, index12 as int);
                        }
                    }
                    k += 1;
                }
                done = true;
            } else if index12 == sa12.len() {
                // the rest comes from `sa0`
                while k < n
                    invariant
                        n == nn,
                        sa0@.len() + sa12@.len() == n,
                        lists_exactly(sa12@, nn, |x: int| is_mod12(x)),
                        lists_exactly(sa0@, nn, |x: int| is_mod0(x)),
                        sa@.len() == old_sa.len(),
                        n <= sa@.len(),
                        forall|m: int| n <= m < sa@.len() ==> #[trigger] sa@[m] == old_sa[m],
                        index12 == sa12@.len(),
                        index0 <= sa0@.len(),
                        k == index0 + index12,
                        k <= n,
                        sa@.subrange(0, k as int).no_duplicates(),
                        forall|p: int|
                            0 <= p < k ==> sa0@.subrange(0, index0 as int).contains(#[trigger] sa@[p])
                                || sa12@.subrange(0, index12 as int).contains(sa@[p]),
                        forall|q: int| 0 <= q < index0 ==> sa@.subrange(0, k as int).contains(#[trigger] sa0@[q]),
                        forall|q: int| 0 <= q < index12 ==> sa@.subrange(0, k as int).contains(#[trigger] sa12@[q]),
                        ordered ==> in_uorder(ws, sa0@) && in_uorder(ws, sa12@),
                        ordered ==> placed_in_order(ws, sa@, k as int) && placed_before(ws, sa@, k as int, sa0@, index0 as int)
                            && placed_before(ws, sa@, k as int, sa12@, index12 as int),
                    decreases n - k,
                {
                    let ghost before = sa@;
                    let ghost i0 = index0;
                    let x = sa0[index0];
                    proof {
                        if ordered {
                            lemma_first_of_list(ws, sa0@, i0 as int);
                        }
                    }
                    sa.set(k, x);
                    index0 += 1;
                    proof {
                        lemma_merge_step(before, sa@, sa0@, sa12@, k as int, i0 as int, index12 as int, index0 as int, index12 as int, nn);
                        if ordered {
                            lemma_merge_order_step(ws, before, sa@, sa0@, sa12@, k as int, x, i0 as int, index12 as int, index0 as int, index12 as int);
                        }
                    }
                    k += 1;
                }
                done = true;
            }
        }
        proof {
            assert(k == n);
            let out = sa@.subrange(0, nn);
            assert forall|x: usize| x < nn implies #[trigger] out.contains(x) by {
                if x % 3 == 0 {
                    assert(sa0@.contains(x));
                    let q = choose|q: int| 0 <= q < sa0@.len() && sa0@[q] == x;
                    assert(out.contains(sa0@[q]));
                } else {
                    assert(sa12@.contains(x));
                    let q = choose|q: int| 0 <= q < sa12@.len() && sa12@[q] == x;
                    assert(out.contains(sa12@[q]));
                }
            }
            assert forall|p: int| 0 <= p < out.len() implies #[trigger] out[p] < nn by {
                assert(out[p] == sa@[p]);
                if sa0@.subrange(0, index0 as int).contains(sa@[p]) {
                    let q = choose|q: int| 0 <= q < index0 && sa0@.subrange(0, index0 as int)[q] == sa@[p];
                    assert(sa0@[q] == sa@[p]);
                } else {
                    let q = choose|q: int| 0 <= q < index12 && sa12@.subrange(0, index12 as int)[q] == sa@[p];
                    assert(sa12@[q] == sa@[p]);
                }
            }
            assert(sa@.subrange(nn, sa@.len() as int) =~= old_sa.subrange(nn, old_sa.len() as int));
            if ordered {
                assert forall|a: int, b: int| #![trigger out[a], out[b]] 0 <= a < b < out.len() implies usfx_lt(
                    ws,
                    out[a] as int,
                    out[b] as int,
                ) by {
                    assert(out[a] == sa@[a] && out[b] == sa@[b]);
                }
            }
        }
    }
}

/// One step of the merge: the entry written at `k` comes from the list whose
/// index moved, and the bookkeeping of what has been written still holds.
proof fn lemma_merge_step(
    before: Seq<usize>,
    after: Seq<usize>,
    sa0: Seq<usize>,
    sa12: Seq<usize>,
    k: int,
    i0: int,
    i12: int,
    j0: int,
    j12: int,
    n: int,
)
    requires
        0 <= k < n <= before.len(),
        k == i0 + i12,
        0 <= i0 <= j0 <= sa0.len(),
        0 <= i12 <= j12 <= sa12.len(),
        (j0 == i0 + 1 && j12 == i12 && after == before.update(k, sa0[i0])) || (j0 == i0 && j12 == i12 + 1
            && after == before.update(k, sa12[i12])),
        lists_exactly(sa12, n, |x: int| is_mod12(x)),
        lists_exactly(sa0, n, |x: int| is_mod0(x)),
        before.subrange(0, k).no_duplicates(),
        forall|p: int|
            0 <= p < k ==> sa0.subrange(0, i0).contains(#[trigger] before[p]) || sa12.subrange(0, i12).contains(
                before[p],
            ),
        forall|q: int| 0 <= q < i0 ==> before.subrange(0, k).contains(#[trigger] sa0[q]),
        forall|q: int| 0 <= q < i12 ==> before.subrange(0, k).contains(#[trigger] sa12[q]),
    ensures
        after.len() == before.len(),
        forall|m: int| 0 <= m < after.len() && m != k ==> #[trigger] after[m] == before[m],
        after.subrange(0, k + 1).no_duplicates(),
        forall|p: int|
            0 <= p < k + 1 ==> sa0.subrange(0, j0).contains(#[trigger] after[p]) || sa12.subrange(0, j12).contains(
                after[p],
            ),
        forall|q: int| 0 <= q < j0 ==> after.subrange(0, k + 1).contains(#[trigger] sa0[q]),
        forall|q: int| 0 <= q < j12 ==> after.subrange(0, k + 1).contains(#[trigger] sa12[q]),
{
    let x = after[k];
    // the new entry was not written before
    assert forall|p: int| 0 <= p < k implies before[p] != x by {
        if sa0.subrange(0, i0).contains(before[p]) {
            let q = choose|q: int| 0 <= q < i0 && sa0.subrange(0, i0)[q] == before[p];
            assert(sa0[q] == before[p]);
            if j0 == i0 + 1 {
                assert(sa0[q] != sa0[i0]);
            } else {
                assert(sa0[q] % 3 == 0);
                assert(sa12[i12] % 3 != 0);
            }
        } else {
            let q = choose|q: int| 0 <= q < i12 && sa12.subrange(0, i12)[q] == before[p];
            assert(sa12[q] == before[p]);
            if j12 == i12 + 1 {
                assert(sa12[q] != sa12[i12]);
            } else {
                assert(sa12[q] % 3 != 0);
                assert(sa0[i0] % 3 == 0);
            }
        }
    }
    let sub = after.subrange(0, k + 1);
    let old_sub = before.subrange(0, k);
    assert forall|a: int, b: int| 0 <= a < k + 1 && 0 <= b < k + 1 && a != b implies #[trigger] sub[a]
        != #[trigger] sub[b] by {
        if a < k && b < k {
            assert(old_sub[a] != old_sub[b]);
        }
    }
    assert forall|p: int| 0 <= p < k + 1 implies sa0.subrange(0, j0).contains(#[trigger] after[p])
        || sa12.subrange(0, j12).contains(after[p]) by {
        if p < k {
            if sa0.subrange(0, i0).contains(before[p]) {
                let q = choose|q: int| 0 <= q < i0 && sa0.subrange(0, i0)[q] == before[p];
                assert(sa0.subrange(0, j0)[q] == before[p]);
            } else {
                let q = choose|q: int| 0 <= q < i12 && sa12.subrange(0, i12)[q] == before[p];
                assert(sa12.subrange(0, j12)[q] == before[p]);
            }
        } else if j0 == i0 + 1 {
            assert(sa0.subrange(0, j0)[i0] == x);
        } else {
            assert(sa12.subrange(0, j12)[i12] == x);
        }
    }
    assert forall|q: int| 0 <= q < j0 implies after.subrange(0, k + 1).contains(#[trigger] sa0[q]) by {
        if q < i0 {
            let p = choose|p: int| 0 <= p < k && before.subrange(0, k)[p] == sa0[q];
            assert(after.subrange(0, k + 1)[p] == sa0[q]);
        } else {
            assert(after.subrange(0, k + 1)[k] == sa0[q]);
        }
    }
    assert forall|q: int| 0 <= q < j12 implies after.subrange(0, k + 1).contains(#[trigger] sa12[q]) by {
        if q < i12 {
            let p = choose|p: int| 0 <= p < k && before.subrange(0, k)[p] == sa12[q];
            assert(after.subrange(0, k + 1)[p] == sa12[q]);
        } else {
            assert(after.subrange(0, k + 1)[k] == sa12[q]);
        }
    }
}

/// Ranks each place of the reduced word `ra12` by where it stands in
/// `sa12`, a suffix array of it, counting from 1.
fn rank_by_place(sa12: &Vec<usize>, ra12: &mut Vec<usize>)
    requires
        old(ra12)@.len() == sa12@.len(),
        is_permutation(sa12@, sa12@.len() as int),
        in_uorder(old(ra12)@, sa12@),
    ensures
        final(ra12)@.len() == old(ra12)@.len(),
        forall|s: int, t: int|
            0 <= s < old(ra12)@.len() && 0 <= t < old(ra12)@.len() ==> ((#[trigger] final(ra12)@[s]
                < #[trigger] final(ra12)@[t]) == usfx_lt(old(ra12)@, s, t)),
        forall|s: int| 0 <= s < final(ra12)@.len() ==> #[trigger] final(ra12)@[s] >= 1,
{
    let ghost rw = ra12@;
    let n12 = sa12.len();
    let mut i: usize = 0;
    while i < n12
        invariant
            n12 == sa12@.len(),
            ra12@.len() == n12,
            rw.len() == n12,
            is_permutation(sa12@, n12 as int),
            in_uorder(rw, sa12@),
            i <= n12,
            forall|j: int| 0 <= j < i ==> ra12@[#[trigger] sa12@[j] as int] == j + 1,
        decreases n12 - i,
    {
        ra12.set(sa12[i], i + 1);
        proof {
            assert forall|j: int| 0 <= j < i + 1 implies ra12@[#[trigger] sa12@[j] as int] == j + 1 by {
                if j < i {
                    assert(sa12@[j] != sa12@[i as int]);
                }
            }
        }
        i += 1;
    }
    proof {
        lemma_ranks_from_order(rw, sa12@, ra12@);
        assert forall|s: int| 0 <= s < ra12@.len() implies #[trigger] ra12@[s] >= 1 by {
            assert(sa12@.contains(s as usize));
            let j = choose|j: int| 0 <= j < sa12@.len() && sa12@[j] == s as usize;
            assert(ra12@[sa12@[j] as int] == j + 1);
        }
    }
}

/// Where the names of the reduced word all differ, its suffix array is
/// their inverse: the place with name `k` comes `k`-th.  `sa12` holds the
/// positions in the order of their names.
fn place_by_names(sa12: &mut Vec<usize>, ra12: &Vec<usize>, m: usize)
    requires
        2 <= m <= isize::MAX / 8 + 1,
        old(sa12)@.len() == count12(m as int),
        ra12@.len() == old(sa12)@.len(),
        lists_exactly(old(sa12)@, m as int, |x: int| is_mod12(x)),
        forall|u: int| 0 <= u < old(sa12)@.len() ==> ra12@[slot(m as int, #[trigger] old(sa12)@[u] as int)] == u + 1,
    ensures
        final(sa12)@.len() == old(sa12)@.len(),
        is_permutation(final(sa12)@, final(sa12)@.len() as int),
        in_uorder(ra12@, final(sa12)@),
        forall|s: int, t: int|
            0 <= s < ra12@.len() && 0 <= t < ra12@.len() ==> ((#[trigger] ra12@[s] < #[trigger] ra12@[t])
                == usfx_lt(ra12@, s, t)),
{
    let ghost mm = m as int;
    let ghost sorted12 = sa12@;
    let n12 = sa12.len();
    proof {
        assert forall|s: int| 0 <= s < n12 implies 1 <= #[trigger] ra12@[s] <= n12 && exists|u: int|
            0 <= u < n12 && #[trigger] sorted12[u] == unslot(mm, s) && ra12@[s] == u + 1 by {
            lemma_unslot(mm, s);
            let x = unslot(mm, s) as usize;
            assert(sorted12.contains(x));
            let u = choose|u: int| 0 <= u < sorted12.len() && sorted12[u] == x;
            assert(ra12@[slot(mm, sorted12[u] as int)] == u + 1);
        }
    }
    let mut i: usize = 0;
    while i < n12
        invariant
            n12 == sa12@.len(),
            n12 == sorted12.len(),
            n12 == count12(mm),
            mm == m,
            lists_exactly(sorted12, mm, |x: int| is_mod12(x)),
            ra12@.len() == n12,
            i <= n12,
            forall|u: int| 0 <= u < n12 ==> ra12@[slot(mm, #[trigger] sorted12[u] as int)] == u + 1,
            forall|s: int| 0 <= s < n12 ==> 1 <= #[trigger] ra12@[s] <= n12,
            forall|s: int| 0 <= s < i ==> sa12@[#[trigger] ra12@[s] - 1] == s,
        decreases n12 - i,
    {
        sa12.set(ra12[i] - 1, i);
        proof {
            assert forall|s: int| 0 <= s < i + 1 implies sa12@[#[trigger] ra12@[s] - 1] == s by {
                if s < i {
                    if ra12@[s] == ra12@[i as int] {
                        lemma_unslot(mm, s);
                        lemma_unslot(mm, i as int);
                        let xs = unslot(mm, s) as usize;
                        let xi = unslot(mm, i as int) as usize;
                        assert(sorted12.contains(xs));
                        assert(sorted12.contains(xi));
                        let us = choose|u: int| 0 <= u < sorted12.len() && sorted12[u] == xs;
                        let ui = choose|u: int| 0 <= u < sorted12.len() && sorted12[u] == xi;
                        assert(ra12@[slot(mm, sorted12[us] as int)] == us + 1);
                        assert(ra12@[slot(mm, sorted12[ui] as int)] == ui + 1);
                    }
                }
            }
        }
        i += 1;
    }
    proof {
        assert forall|u: int| 0 <= u < n12 implies #[trigger] sa12@[u] == slot(mm, sorted12[u] as int) by {
            lemma_slot(mm, sorted12[u] as int);
            let s = slot(mm, sorted12[u] as int);
            assert(ra12@[s] == u + 1);
        }
        assert forall|y: usize| y < n12 implies #[trigger] sa12@.contains(y) by {
            lemma_unslot(mm, y as int);
            let x = unslot(mm, y as int) as usize;
            assert(sorted12.contains(x));
            let u = choose|u: int| 0 <= u < sorted12.len() && sorted12[u] == x;
            assert(sa12@[u] == y);
        }
        assert forall|i: int, j: int| 0 <= i < n12 && 0 <= j < n12 && i != j implies sa12@[i] != sa12@[j] by {
            lemma_slot(mm, sorted12[i] as int);
            lemma_slot(mm, sorted12[j] as int);
        }
        assert(is_permutation(sa12@, n12 as int));
        assert forall|u: int| 0 <= u < sa12@.len() implies (#[trigger] sa12@[u]) < ra12@.len() && ra12@[sa12@[u] as int]
            == u + 1 by {
            lemma_slot(mm, sorted12[u] as int);
        }
        lemma_order_from_names(ra12@, sa12@);
        lemma_ranks_from_order(ra12@, sa12@, ra12@);
    }
}

/// Turns places of the reduced word back into the positions of the word
/// they stand for.
fn positions_of_places(sa12: &mut Vec<usize>, m: usize)
    requires
        2 <= m <= isize::MAX / 8 + 1,
        is_permutation(old(sa12)@, count12(m as int)),
    ensures
        final(sa12)@.len() == old(sa12)@.len(),
        forall|u: int| 0 <= u < final(sa12)@.len() ==> #[trigger] final(sa12)@[u] == unslot(m as int, old(sa12)@[u] as int),
        lists_exactly(final(sa12)@, m as int, |x: int| is_mod12(x)),
{
    let ghost mm = m as int;
    let ghost reduced = sa12@;
    let n12 = sa12.len();
    let n1 = (m + 1) / 3;
    let mut i: usize = 0;
    while i < n12
        invariant
            n1 == (mm + 1) / 3,
            mm == m,
            2 <= m <= isize::MAX / 8 + 1,
            n12 == count12(mm),
            n12 == sa12@.len(),
            is_permutation(reduced, n12 as int),
            i <= n12,
            forall|u: int| 0 <= u < i ==> #[trigger] sa12@[u] == unslot(mm, reduced[u] as int),
            forall|u: int| i <= u < n12 ==> #[trigger] sa12@[u] == reduced[u],
        decreases n12 - i,
    {
        let y = sa12[i];
        proof {
            lemma_unslot(mm, y as int);
        }
        let v = if y < n1 {
            3 * y + 1
        } else {
            2 + 3 * (y - n1)
        };
        sa12.set(i, v);
        i += 1;
    }
    proof {
        assert forall|i: int| 0 <= i < n12 implies (#[trigger] sa12@[i]) < mm && is_mod12(sa12@[i] as int) by {
            lemma_unslot(mm, reduced[i] as int);
        }
        assert forall|x: usize| x < mm && is_mod12(x as int) implies #[trigger] sa12@.contains(x) by {
            lemma_slot(mm, x as int);
            let y = slot(mm, x as int) as usize;
            assert(reduced.contains(y));
            let u = choose|u: int| 0 <= u < reduced.len() && reduced[u] == y;
            assert(sa12@[u] == x);
        }
        assert forall|i: int, j: int| 0 <= i < n12 && 0 <= j < n12 && i != j implies sa12@[i] != sa12@[j] by {
            lemma_unslot(mm, reduced[i] as int);
            lemma_unslot(mm, reduced[j] as int);
        }
    }
}

/// Removes position `n`, the last of those listed, from a list of the
/// positions below `n + 1` that are not multiples of 3.
fn drop_position(sa12: &mut Vec<usize>, n: usize)
    requires
        n % 3 == 1,
        n < usize::MAX,
        lists_exactly(old(sa12)@, n + 1, |x: int| is_mod12(x)),
    ensures
        final(sa12)@.len() == old(sa12)@.len() - 1,
        lists_exactly(final(sa12)@, n as int, |x: int| is_mod12(x)),
        exists|k: int| 0 <= k < old(sa12)@.len() && final(sa12)@ == old(sa12)@.remove(k),
{
    assert(sa12@.contains(n));
    let mut k: usize = 0;
    while sa12[k] != n
        invariant
            lists_exactly(sa12@, n + 1, |x: int| is_mod12(x)),
            sa12@.contains(n),
            k < sa12@.len(),
            forall|u: int| 0 <= u < k ==> sa12@[u] != n,
        decreases sa12@.len() - k,
    {
        proof {
            let u = choose|u: int| 0 <= u < sa12@.len() && sa12@[u] == n;
            assert(u > k);
            assert(k + 1 < sa12.len());
        }
        k += 1;
    }
    let ghost before = sa12@;
    sa12.remove(k);
    proof {
        assert forall|i: int| 0 <= i < sa12@.len() implies (#[trigger] sa12@[i]) < n && is_mod12(
            sa12@[i] as int,
        ) by {
            if i < k {
                assert(sa12@[i] == before[i]);
                assert(before[i] != before[k as int]);
            } else {
                assert(sa12@[i] == before[i + 1]);
                assert(before[i + 1] != before[k as int]);
            }
        }
        assert forall|x: usize| x < n && is_mod12(x as int) implies #[trigger] sa12@.contains(x) by {
            assert(before.contains(x));
            let u = choose|u: int| 0 <= u < before.len() && before[u] == x;
            if u < k {
                assert(sa12@[u] == x);
            } else {
                assert(u != k);
                assert(sa12@[u - 1] == x);
            }
        }
        assert forall|i: int, j: int| 0 <= i < sa12@.len() && 0 <= j < sa12@.len() && i != j implies sa12@[i]
            != sa12@[j] by {
            let bi = if i < k {
                i
            } else {
                i + 1
            };
            let bj = if j < k {
                j
            } else {
                j + 1
            };
            assert(sa12@[i] == before[bi]);
            assert(sa12@[j] == before[bj]);
        }
    }
}

/// The slot of the rank table that holds the rank of position `index`:
/// positions `1 mod 3` first, then (after `n1` slots) positions `2 mod 3`.
pub open spec fn rank_slot(n1: int, index: int) -> int {
    if index % 3 == 1 {
        index / 3
    } else {
        index / 3 + n1
    }
}

/// The rank recorded for position `index`, or 0 where there is none.
pub open spec fn spec_rank_at(ra12: Seq<usize>, n1: int, index: int) -> usize {
    let s = rank_slot(n1, index);
    if s < ra12.len() {
        ra12[s]
    } else {
        0
    }
}

/// The rank recorded for position `index`, or 0 where there is none.
fn rank_at(ra12: &Vec<usize>, n1: usize, index: usize) -> (r: usize)
    requires
        index <= isize::MAX,
        n1 <= isize::MAX,
    ensures
        r == spec_rank_at(ra12@, n1 as int, index as int),
{
    let s = if index % 3 == 1 {
        index / 3
    } else {
        index / 3 + n1
    };
    if s < ra12.len() {
        ra12[s]
    } else {
        0
    }
}

} // verus!
