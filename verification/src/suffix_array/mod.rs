use vstd::prelude::*;

use crate::suffix_array::from_tree::{deep, leaves};
use crate::suffix_array::lcp::compute_lcp;
use crate::suffix_array::order::{is_suffix_array, lcp_len, lemma_lcp, lemma_suffix_lt_tail, suffix_lt};
use crate::suffix_array::perm::is_permutation;
use crate::suffix_array::skew::{usfx_lt, SuffixArrayBuilder};
use crate::ukkonen::builder::shaped;
use crate::ukkonen::data::NodeIndex;
use crate::ukkonen::SuffixTree;
use crate::word::Word;

pub mod from_tree;
pub mod lcp;
pub mod order;
pub mod perm;
pub mod skew;

verus! {

/// The suffixes of a word as a list of their starting positions (the empty
/// suffix included), with the longest common prefix of neighbours.
#[derive(Debug, Clone)]
pub struct SuffixArray<'a, T: ?Sized> {
    word: &'a T,
    array: Vec<usize>,
    lcp: Vec<usize>,
}

impl<'a, T: ?Sized> SuffixArray<'a, T> {
    /// The word.
    pub closed spec fn spec_word(&self) -> &'a T {
        self.word
    }

    /// The starting positions of the suffixes, in the array's order.
    pub closed spec fn spec_array(&self) -> Seq<usize> {
        self.array@
    }

    /// The longest-common-prefix lengths.
    pub closed spec fn spec_lcp(&self) -> Seq<usize> {
        self.lcp@
    }
}

impl<'a> SuffixArray<'a, str> {
    /// The suffix array of an ASCII string by the skew method: the empty
    /// suffix first, then the positions of the string in the order of their
    /// suffixes.
    pub fn from_ascii_str(word: &'a str) -> (r: Self)
        requires
            vstd::string::is_ascii(word),
            2 <= word@.len() <= isize::MAX / 8,
        ensures
            r.spec_word() == word,
            r.spec_array().len() == word@.len() + 1,
            r.spec_array()[0] == word@.len(),
            is_permutation(r.spec_array().subrange(1, word@.len() as int + 1), word@.len() as int),
            is_suffix_array(word@, r.spec_array()),
            r.spec_lcp().len() == word@.len() + 1,
            r.spec_lcp()[0] == 0,
            forall|k: int|
                1 <= k <= word@.len() ==> #[trigger] r.spec_lcp()[k] == lcp_len(
                    word@,
                    r.spec_array()[k - 1] as int,
                    r.spec_array()[k] as int,
                ),
    {
        let chars = word.symbols();
        let n = chars.len();
        let mut codes: Vec<usize> = Vec::new();
        let mut sa: Vec<usize> = Vec::new();
        let mut i: usize = 0;
        while i < n
            invariant
                n == chars@.len(),
                i <= n,
                codes@.len() == i,
                sa@.len() == i,
                forall|k: int| 0 <= k < i ==> #[trigger] codes@[k] as int == chars@[k] as int,
                chars@ == word@,
                vstd::string::is_ascii(word),
            decreases n - i,
        {
            let code = chars[i] as u32;
            let ghost ch = chars@[i as int];
            assert('\0' <= ch <= '\u{7f}');
            assert(0 <= ch as int <= 127);
            assert(code == ch as u32);
            assert(code as int == ch as int);
            codes.push(code as usize);
            sa.push(0);
            i += 1;
        }
        SuffixArrayBuilder::build_in_place(codes.as_slice(), &mut sa);
        proof {
            assert(sa@.subrange(0, n as int) =~= sa@);
        }
        let mut array: Vec<usize> = Vec::new();
        array.push(n);
        let mut k: usize = 0;
        while k < n
            invariant
                n == sa@.len(),
                k <= n,
                array@ == seq![n].add(sa@.subrange(0, k as int)),
            decreases n - k,
        {
            array.push(sa[k]);
            k += 1;
            assert(array@ =~= seq![n].add(sa@.subrange(0, k as int)));
        }
        assert(array@.subrange(1, n as int + 1) =~= sa@.subrange(0, n as int));
        proof {
            let ws = word@;
            assert(chars@ == ws);
            let a = array@;
            assert forall|p: int, q: int| #![trigger a[p], a[q]] 0 <= p < q < a.len() implies suffix_lt(
                ws,
                a[p] as int,
                a[q] as int,
            ) by {
                assert(a[q] == sa@[q - 1]);
                if p == 0 {
                    assert(a[0] == n);
                    assert(sa@[q - 1] < n);
                    lemma_lcp(ws, n as int, a[q] as int);
                } else {
                    assert(a[p] == sa@[p - 1]);
                    assert(usfx_lt(codes@, sa@[p - 1] as int, sa@[q - 1] as int));
                    lemma_codes_order(ws, codes@, a[p] as int, a[q] as int);
                }
            }
            assert forall|x: usize| x < n + 1 implies #[trigger] a.contains(x) by {
                if x == n {
                    assert(a[0] == x);
                } else {
                    assert(sa@.contains(x));
                    let k = choose|k: int| 0 <= k < sa@.len() && sa@[k] == x;
                    assert(a[k + 1] == x);
                }
            }
            assert forall|p: int, q: int| 0 <= p < a.len() && 0 <= q < a.len() && p != q implies a[p] != a[q] by {
                if p > 0 && q > 0 {
                    assert(a[p] == sa@[p - 1] && a[q] == sa@[q - 1]);
                } else if p == 0 {
                    assert(a[q] == sa@[q - 1]);
                } else {
                    assert(a[p] == sa@[p - 1]);
                }
            }
            assert forall|p: int| 0 <= p < a.len() implies #[trigger] a[p] < n + 1 by {
                if p > 0 {
                    assert(a[p] == sa@[p - 1]);
                }
            }
        }
        let lcp = compute_lcp(word, array.as_slice());
        SuffixArray { word, array, lcp }
    }
}

impl<'a, T: Word + ?Sized> SuffixArray<'a, T> {
    /// The suffix array of `word`, read off its suffix tree.
    pub fn new(word: &'a T) -> (r: Self)
        requires
            word.spec_symbols().len() < isize::MAX / 4,
        ensures
            r.spec_word() == word,
            exists|t: SuffixTree<'a, T>|
                t.wf() && t.spec_word() == word && shaped(t.spec_data(), word.spec_symbols())
                    && r.spec_array() == leaves(t.spec_data(), 0, word.spec_symbols().len() as usize),
            r.spec_lcp().len() == if word.spec_symbols().len() == 0 {
                0
            } else {
                r.spec_array().len()
            },
            word.spec_symbols().len() > 0 && is_suffix_array(word.spec_symbols(), r.spec_array()) ==> forall|k: int|
                1 <= k < r.spec_array().len() ==> #[trigger] r.spec_lcp()[k] == lcp_len(
                    word.spec_symbols(),
                    r.spec_array()[k - 1] as int,
                    r.spec_array()[k] as int,
                ),
    {
        SuffixArray::from(SuffixTree::new(word))
    }

    /// The suffix array read off a suffix tree: the leaves in the order of
    /// the edges' symbols, each given by the word's length less the lengths
    /// of the labels down to it.
    pub fn from(tree: SuffixTree<'a, T>) -> (r: Self)
        requires
            tree.wf(),
        ensures
            r.spec_word() == tree.spec_word(),
            r.spec_array() == leaves(tree.spec_data(), 0, tree.symbols().len() as usize),
            r.spec_lcp().len() == if tree.symbols().len() == 0 {
                0
            } else {
                r.spec_array().len()
            },
            tree.symbols().len() > 0 && is_suffix_array(tree.symbols(), r.spec_array()) ==> forall|k: int|
                1 <= k < r.spec_array().len() ==> #[trigger] r.spec_lcp()[k] == lcp_len(
                    tree.symbols(),
                    r.spec_array()[k - 1] as int,
                    r.spec_array()[k] as int,
                ),
    {
        let word = tree.word();
        let len = word.size() + 1;
        let mut array: Vec<usize> = Vec::with_capacity(len);
        proof {
            assert forall|i: int| 0 <= i < tree.spec_data().node_seq().len() implies (#[trigger] tree.spec_data().node_seq()[i]).start
                <= tree.spec_data().node_seq()[i].end by {
            }
        }
        deep(NodeIndex::root(), &mut array, tree.data(), word.size());
        assert(array@ =~= leaves(tree.spec_data(), 0, tree.symbols().len() as usize));
        let lcp = compute_lcp(word, array.as_slice());
        SuffixArray { word, array, lcp }
    }

    /// The word.
    pub fn word(&self) -> (r: &T)
        ensures
            r == self.spec_word(),
    {
        self.word
    }

    /// The starting positions of the suffixes, in the array's order.
    pub fn array(&self) -> (r: &[usize])
        ensures
            r@ == self.spec_array(),
    {
        self.array.as_slice()
    }
}

/// Suffixes of a word of characters and of the word of their codes come in
/// the same order.
proof fn lemma_codes_order(w: Seq<char>, codes: Seq<usize>, i: int, j: int)
    requires
        codes.len() == w.len(),
        forall|k: int| 0 <= k < w.len() ==> #[trigger] codes[k] as int == w[k] as int,
        0 <= i <= w.len(),
        0 <= j <= w.len(),
    ensures
        usfx_lt(codes, i, j) == suffix_lt(w, i, j),
    decreases w.len() - i,
{
    let n = w.len() as int;
    if i < n && j < n && w[i] == w[j] {
        lemma_suffix_lt_tail(w, i, j);
        lemma_codes_order(w, codes, i + 1, j + 1);
    } else {
        lemma_lcp(w, i, j);
        if i < n && j < n {
            assert(codes[i] as int == w[i] as int && codes[j] as int == w[j] as int);
        }
    }
}

} // verus!
