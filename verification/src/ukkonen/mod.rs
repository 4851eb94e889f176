use vstd::prelude::*;

use crate::ukkonen::builder::{bare_ends, root_unreached, shaped, tables_ok, tidy, SuffixTreeBuilder};
use crate::ukkonen::data::{lemma_lookup_at, lemma_lookup_some, NodeIndex, SuffixTreeData};
use crate::word::{spec_get, Symbol, Word};

pub mod builder;
pub mod data;

verus! {

/// Whether `p` can be read from `node` downwards: its first symbol selects an
/// edge, the rest of that edge's label must agree with the following
/// symbols, and what is left of `p` is read from the edge's node.
pub open spec fn tree_reads(d: SuffixTreeData, w: Seq<char>, node: int, p: Seq<char>) -> bool
    decreases p.len(),
{
    if p.len() == 0 {
        true
    } else {
        match d.child(node, Symbol::Char(p[0])) {
            None => false,
            Some(ch) => {
                let nd = d.node_seq()[ch@ as int];
                let lab = if nd.start + 1 <= nd.end {
                    w.subrange(nd.start + 1, nd.end as int)
                } else {
                    Seq::empty()
                };
                let rest = p.drop_first();
                if rest.len() <= lab.len() {
                    rest == lab.subrange(0, rest.len() as int)
                } else {
                    rest.subrange(0, lab.len() as int) == lab && tree_reads(
                        d,
                        w,
                        ch@ as int,
                        rest.subrange(lab.len() as int, rest.len() as int),
                    )
                }
            },
        }
    }
}

/// The printed label of a node: nothing for the root, `$` for an empty
/// label, else the symbols of its range.
pub open spec fn label_text(d: SuffixTreeData, w: Seq<char>, node: int) -> Seq<char> {
    if node == 0 {
        Seq::empty()
    } else {
        let nd = d.node_seq()[node];
        if nd.end - nd.start == 0 {
            seq!['$']
        } else {
            w.subrange(nd.start as int, nd.end as int)
        }
    }
}

/// The printed form of the subtree at `node`: its label, then, if it has
/// edges, the subtrees they lead to in the order of their symbols, separated
/// by `, ` and put in brackets.
pub open spec fn render(d: SuffixTreeData, w: Seq<char>, node: int) -> Seq<char>
    decreases d.height(node), d.edge_seq()[node].len() + 1,
    when d.wf() && d.acyclic() && 0 <= node < d.node_seq().len()
{
    proof {
        d.lemma_height_positive(node);
    }
    let edges = d.edge_seq()[node];
    if edges.len() == 0 {
        label_text(d, w, node)
    } else {
        label_text(d, w, node) + seq!['('] + render_list(d, w, node, edges.len() as int) + seq![')']
    }
}

/// The printed forms of the subtrees below the first `k` edges of `node`.
pub open spec fn render_list(d: SuffixTreeData, w: Seq<char>, node: int, k: int) -> Seq<char>
    decreases d.height(node), k,
    when d.wf() && d.acyclic() && 0 <= node < d.node_seq().len() && 0 <= k <= d.edge_seq()[node].len()
{
    proof {
        d.lemma_height_positive(node);
    }
    if k <= 0 {
        Seq::empty()
    } else {
        proof {
            d.lemma_height_decreases(node, k - 1);
        }
        let prev = render_list(d, w, node, k - 1);
        let child = d.edge_seq()[node][k - 1].1@ as int;
        (if k > 1 {
            prev + seq![',', ' ']
        } else {
            prev
        }) + render(d, w, child)
    }
}

/// Printed forms put one after another, separated by `, `.
pub open spec fn joined(parts: Seq<Seq<char>>) -> Seq<char>
    decreases parts.len(),
{
    if parts.len() == 0 {
        Seq::empty()
    } else if parts.len() == 1 {
        parts[0]
    } else {
        parts[0] + seq![',', ' '] + joined(parts.drop_first())
    }
}

/// Joining one more printed form adds it at the end, after a separator.
proof fn lemma_joined_push(parts: Seq<Seq<char>>, x: Seq<char>)
    requires
        parts.len() > 0,
    ensures
        joined(parts.push(x)) == joined(parts) + seq![',', ' '] + x,
    decreases parts.len(),
{
    let sep = seq![',', ' '];
    if parts.len() == 1 {
        assert(parts.push(x).drop_first() =~= seq![x]);
        assert(joined(seq![x]) == x);
        assert(joined(parts) == parts[0]);
        assert(joined(parts.push(x)) == parts[0] + sep + x);
    } else {
        assert(parts.push(x).drop_first() =~= parts.drop_first().push(x));
        lemma_joined_push(parts.drop_first(), x);
        let j = joined(parts.drop_first());
        assert(joined(parts.push(x)) == parts[0] + sep + (j + sep + x));
        assert(joined(parts) == parts[0] + sep + j);
        assert(parts[0] + sep + (j + sep + x) =~= parts[0] + sep + j + sep + x);
    }
}

/// The printed forms of the children of `node`, in the order of its edges.
pub open spec fn children_text(d: SuffixTreeData, w: Seq<char>, node: int) -> Seq<Seq<char>> {
    d.edge_seq()[node].map_values(|e: (Symbol<char>, NodeIndex)| render(d, w, e.1@ as int))
}

/// Every node is printed as its label followed, when it has edges, by the
/// printed forms of its children in the order of its edges (the order of
/// their symbols), separated by `, ` and put in brackets.
pub proof fn lemma_render_in_edge_order(d: SuffixTreeData, w: Seq<char>, node: int)
    requires
        d.wf(),
        d.acyclic(),
        0 <= node < d.node_seq().len(),
    ensures
        render(d, w, node) == if d.edge_seq()[node].len() == 0 {
            label_text(d, w, node)
        } else {
            label_text(d, w, node) + seq!['('] + joined(children_text(d, w, node)) + seq![')']
        },
{
    let edges = d.edge_seq()[node];
    let f = |e: (Symbol<char>, NodeIndex)| render(d, w, e.1@ as int);
    if edges.len() > 0 {
        lemma_render_prefix(d, w, node, edges.len() as int);
        assert(edges.take(edges.len() as int) =~= edges);
        assert(children_text(d, w, node) =~= edges.map_values(f));
    }
}

/// The printed forms below the first `k` edges, joined.
proof fn lemma_render_prefix(d: SuffixTreeData, w: Seq<char>, node: int, k: int)
    requires
        d.wf(),
        d.acyclic(),
        0 <= node < d.node_seq().len(),
        0 <= k <= d.edge_seq()[node].len(),
    ensures
        render_list(d, w, node, k) == joined(
            d.edge_seq()[node].take(k).map_values(|e: (Symbol<char>, NodeIndex)| render(d, w, e.1@ as int)),
        ),
    decreases k,
{
    let edges = d.edge_seq()[node];
    let f = |e: (Symbol<char>, NodeIndex)| render(d, w, e.1@ as int);
    if k == 0 {
        assert(edges.take(0).map_values(f) =~= Seq::<Seq<char>>::empty());
    } else {
        lemma_render_prefix(d, w, node, k - 1);
        d.lemma_height_decreases(node, k - 1);
        assert(edges.take(k).map_values(f) =~= edges.take(k - 1).map_values(f).push(f(edges[k - 1])));
        if k > 1 {
            lemma_joined_push(edges.take(k - 1).map_values(f), f(edges[k - 1]));
        } else {
            assert(edges.take(k).map_values(f) =~= seq![f(edges[0])]);
            assert(render_list(d, w, node, 0) =~= Seq::<char>::empty());
            assert(Seq::<char>::empty() + f(edges[0]) =~= f(edges[0]));
        }
    }
}

/// The label of the edge that leads to `node`: its range of the word.
pub open spec fn edge_label(d: SuffixTreeData, w: Seq<char>, node: int) -> Seq<char> {
    w.subrange(d.node_seq()[node].start as int, d.node_seq()[node].end as int)
}

/// The strings spelled by the labels on the way from `node` down to each
/// leaf below it (a leaf spells the empty string), edge after edge.
pub open spec fn spelled(d: SuffixTreeData, w: Seq<char>, node: int) -> Seq<Seq<char>>
    decreases d.height(node), d.edge_seq()[node].len() + 1,
    when d.wf() && d.acyclic() && 0 <= node < d.node_seq().len()
{
    proof {
        d.lemma_height_positive(node);
    }
    if d.edge_seq()[node].len() == 0 {
        seq![Seq::empty()]
    } else {
        spelled_list(d, w, node, d.edge_seq()[node].len() as int)
    }
}

/// The strings spelled below the first `k` edges of `node`, each starting
/// with the label of its edge.
pub open spec fn spelled_list(d: SuffixTreeData, w: Seq<char>, node: int, k: int) -> Seq<Seq<char>>
    decreases d.height(node), k,
    when d.wf() && d.acyclic() && 0 <= node < d.node_seq().len() && 0 <= k <= d.edge_seq()[node].len()
{
    proof {
        d.lemma_height_positive(node);
    }
    if k <= 0 {
        Seq::empty()
    } else {
        proof {
            d.lemma_height_decreases(node, k - 1);
        }
        let child = d.edge_seq()[node][k - 1].1@ as int;
        spelled_list(d, w, node, k - 1) + spelled(d, w, child).map_values(
            |t: Seq<char>| edge_label(d, w, child) + t,
        )
    }
}

/// Below every node some string is spelled.
proof fn lemma_spelled_nonempty(d: SuffixTreeData, w: Seq<char>, node: int)
    requires
        d.wf(),
        d.acyclic(),
        0 <= node < d.node_seq().len(),
    ensures
        spelled(d, w, node).len() > 0,
    decreases d.height(node), d.edge_seq()[node].len() + 1,
{
    d.lemma_height_positive(node);
    if d.edge_seq()[node].len() > 0 {
        lemma_spelled_list_nonempty(d, w, node, d.edge_seq()[node].len() as int);
    }
}

proof fn lemma_spelled_list_nonempty(d: SuffixTreeData, w: Seq<char>, node: int, k: int)
    requires
        d.wf(),
        d.acyclic(),
        0 <= node < d.node_seq().len(),
        1 <= k <= d.edge_seq()[node].len(),
    ensures
        spelled_list(d, w, node, k).len() > 0,
    decreases d.height(node), k,
{
    d.lemma_height_positive(node);
    d.lemma_height_decreases(node, k - 1);
    let child = d.edge_seq()[node][k - 1].1@ as int;
    lemma_spelled_nonempty(d, w, child);
}

/// What is spelled below the first `k` edges: a label of one of them
/// followed by something spelled below its node.
proof fn lemma_spelled_list_member(d: SuffixTreeData, w: Seq<char>, node: int, k: int, t: Seq<char>)
    requires
        d.wf(),
        d.acyclic(),
        0 <= node < d.node_seq().len(),
        0 <= k <= d.edge_seq()[node].len(),
    ensures
        spelled_list(d, w, node, k).contains(t) <==> exists|j: int, u: Seq<char>|
            0 <= j < k && #[trigger] spelled(d, w, d.edge_seq()[node][j].1@ as int).contains(u) && t == edge_label(
                d,
                w,
                d.edge_seq()[node][j].1@ as int,
            ) + u,
    decreases k,
{
    d.lemma_height_positive(node);
    if k > 0 {
        lemma_spelled_list_member(d, w, node, k - 1, t);
        d.lemma_height_decreases(node, k - 1);
        let child = d.edge_seq()[node][k - 1].1@ as int;
        let f = |u: Seq<char>| edge_label(d, w, child) + u;
        let prev = spelled_list(d, w, node, k - 1);
        let mapped = spelled(d, w, child).map_values(f);
        assert(spelled_list(d, w, node, k) == prev + mapped);
        if spelled_list(d, w, node, k).contains(t) {
            let i = choose|i: int| 0 <= i < (prev + mapped).len() && (prev + mapped)[i] == t;
            if i < prev.len() {
                assert(prev[i] == t);
                assert(prev.contains(t));
            } else {
                let u = spelled(d, w, child)[i - prev.len()];
                assert(mapped[i - prev.len()] == f(u));
                assert(spelled(d, w, child).contains(u));
            }
        }
        if exists|j: int, u: Seq<char>|
            0 <= j < k && #[trigger] spelled(d, w, d.edge_seq()[node][j].1@ as int).contains(u) && t == edge_label(
                d,
                w,
                d.edge_seq()[node][j].1@ as int,
            ) + u {
            let (j, u) = choose|j: int, u: Seq<char>|
                0 <= j < k && #[trigger] spelled(d, w, d.edge_seq()[node][j].1@ as int).contains(u) && t == edge_label(
                    d,
                    w,
                    d.edge_seq()[node][j].1@ as int,
                ) + u;
            if j < k - 1 {
                assert(prev.contains(t));
                let i = choose|i: int| 0 <= i < prev.len() && prev[i] == t;
                assert((prev + mapped)[i] == t);
            } else {
                let i = choose|i: int| 0 <= i < spelled(d, w, child).len() && spelled(d, w, child)[i] == u;
                assert(mapped[i] == t);
                assert((prev + mapped)[prev.len() + i] == t);
            }
        }
    }
}

/// Reading a pattern from a node succeeds exactly where the pattern begins
/// one of the strings spelled below the node: the search answers whether
/// the pattern lies along some path of the tree, whatever its length.
pub proof fn lemma_reads_spelled(d: SuffixTreeData, w: Seq<char>, node: int, p: Seq<char>)
    requires
        tables_ok(d, w.len()),
        shaped(d, w),
        bare_ends(d),
        root_unreached(d),
        0 <= node < d.node_seq().len(),
    ensures
        tree_reads(d, w, node, p) == exists|t: Seq<char>| #[trigger] spelled(d, w, node).contains(t) && p.is_prefix_of(t),
    decreases p.len(),
{
    let n = w.len() as int;
    d.lemma_height_positive(node);
    if p.len() == 0 {
        lemma_spelled_nonempty(d, w, node);
        let t = spelled(d, w, node)[0];
        assert(spelled(d, w, node).contains(t));
        assert(p.is_prefix_of(t));
    } else {
        let edges = d.edge_seq()[node];
        if tree_reads(d, w, node, p) {
            let ch = d.child(node, Symbol::Char(p[0]))->0;
            let c = ch@ as int;
            lemma_lookup_some(edges, Symbol::Char(p[0]));
            let k = choose|k: int| 0 <= k < edges.len() && (#[trigger] edges[k]) == (Symbol::Char(p[0]), ch);
            d.lemma_height_decreases(node, k);
            let nd = d.node_seq()[c];
            assert(Symbol::Char(p[0]) == spec_get(w, nd.start as int));
            assert(nd.start < n && w[nd.start as int] == p[0]);
            assert(ch@ != 0);
            assert(nd.start < nd.end);
            let lab = w.subrange(nd.start + 1, nd.end as int);
            let rest = p.drop_first();
            assert(edge_label(d, w, c) =~= seq![p[0]] + lab);
            let t = if rest.len() <= lab.len() {
                lemma_spelled_nonempty(d, w, c);
                let u = spelled(d, w, c)[0];
                assert(spelled(d, w, c).contains(u));
                let t = edge_label(d, w, c) + u;
                assert(rest =~= lab.subrange(0, rest.len() as int));
                assert(t =~= seq![p[0]] + lab + u);
                assert forall|i: int| 0 <= i < p.len() implies p[i] == t.subrange(0, p.len() as int)[i] by {
                    if i > 0 {
                        assert(p[i] == rest[i - 1]);
                        assert(rest[i - 1] == lab[i - 1]);
                    }
                }
                assert(p =~= t.subrange(0, p.len() as int));
                lemma_spelled_list_member(d, w, node, edges.len() as int, t);
                t
            } else {
                let rest2 = rest.subrange(lab.len() as int, rest.len() as int);
                lemma_reads_spelled(d, w, c, rest2);
                assert(rest.subrange(0, lab.len() as int) =~= lab);
                assert(tree_reads(d, w, c, rest2));
                let u = choose|u: Seq<char>| #[trigger] spelled(d, w, c).contains(u) && rest2.is_prefix_of(u);
                let t = edge_label(d, w, c) + u;
                assert(t =~= seq![p[0]] + lab + u);
                assert forall|i: int| 0 <= i < p.len() implies p[i] == t.subrange(0, p.len() as int)[i] by {
                    if i > 0 && i <= lab.len() {
                        assert(p[i] == rest[i - 1]);
                        assert(rest[i - 1] == rest.subrange(0, lab.len() as int)[i - 1]);
                    } else if i > lab.len() {
                        assert(p[i] == rest[i - 1]);
                        assert(rest[i - 1] == rest2[i - 1 - lab.len()]);
                        assert(rest2[i - 1 - lab.len()] == u[i - 1 - lab.len()]);
                    }
                }
                assert(p =~= t.subrange(0, p.len() as int));
                lemma_spelled_list_member(d, w, node, edges.len() as int, t);
                t
            };
            assert(spelled(d, w, node).contains(t) && p.is_prefix_of(t));
        }
        if exists|t: Seq<char>| #[trigger] spelled(d, w, node).contains(t) && p.is_prefix_of(t) {
            let t = choose|t: Seq<char>| #[trigger] spelled(d, w, node).contains(t) && p.is_prefix_of(t);
            if edges.len() == 0 {
                assert(spelled(d, w, node) =~= seq![Seq::<char>::empty()]);
                assert(t =~= Seq::<char>::empty());
            } else {
                lemma_spelled_list_member(d, w, node, edges.len() as int, t);
                let (j, u) = choose|j: int, u: Seq<char>|
                    0 <= j < edges.len() && #[trigger] spelled(d, w, edges[j].1@ as int).contains(u) && t
                        == edge_label(d, w, edges[j].1@ as int) + u;
                let c = edges[j].1@ as int;
                d.lemma_height_decreases(node, j);
                let nd = d.node_seq()[c];
                lemma_lookup_at(edges, j);
                assert(d.child(node, edges[j].0) == Some(edges[j].1));
                if nd.start == nd.end {
                    assert(c > 0);
                    assert(d.edge_seq()[c].len() == 0);
                    assert(spelled(d, w, c) =~= seq![Seq::<char>::empty()]);
                    assert(u =~= Seq::<char>::empty());
                    assert(edge_label(d, w, c) =~= Seq::<char>::empty());
                    assert(false);
                }
                assert(edges[j].0 == spec_get(w, nd.start as int));
                assert(nd.start < n);
                assert(t[0] == w[nd.start as int]);
                assert(edges[j].0 == Symbol::Char(p[0]));
                let lab = w.subrange(nd.start + 1, nd.end as int);
                let rest = p.drop_first();
                assert(edge_label(d, w, c) =~= seq![p[0]] + lab);
                if rest.len() <= lab.len() {
                    assert(rest =~= lab.subrange(0, rest.len() as int));
                } else {
                    assert(rest.subrange(0, lab.len() as int) =~= lab);
                    let rest2 = rest.subrange(lab.len() as int, rest.len() as int);
                    assert(rest2.is_prefix_of(u)) by {
                        assert(rest2 =~= u.subrange(0, rest2.len() as int));
                    }
                    lemma_reads_spelled(d, w, c, rest2);
                }
            }
        }
    }
}

/// A suffix tree of a word, built by Ukkonen's algorithm.
#[derive(Debug)]
pub struct SuffixTree<'a, T: Word + ?Sized> {
    data: SuffixTreeData,
    word: &'a T,
}

impl<'a, T: Word + ?Sized> SuffixTree<'a, T> {
    /// The nodes and edges of the tree.
    pub closed spec fn spec_data(&self) -> SuffixTreeData {
        self.data
    }

    /// The word the tree was built from.
    pub closed spec fn spec_word(&self) -> &'a T {
        self.word
    }

    /// The symbols of the word the tree was built from.
    pub open spec fn symbols(&self) -> Seq<char> {
        self.spec_word().spec_symbols()
    }

    /// The tables are well formed for the word.
    pub open spec fn wf(&self) -> bool {
        &&& tables_ok(self.spec_data(), self.symbols().len())
        &&& self.symbols().len() < isize::MAX / 4
    }

    /// Puts together a tree from its tables and its word.
    pub(crate) fn from_parts(data: SuffixTreeData, word: &'a T) -> (r: Self)
        ensures
            r.spec_data() == data,
            r.spec_word() == word,
    {
        SuffixTree { data, word }
    }

    /// Builds the suffix tree of `word`.
    pub fn new(word: &'a T) -> (r: Self)
        requires
            word.spec_symbols().len() < isize::MAX / 4,
        ensures
            r.spec_word() == word,
            r.wf(),
            shaped(r.spec_data(), r.symbols()),
            tidy(r.spec_data()),
            r.spec_data().node_seq().len() <= 2 * (r.symbols().len() + 1),
    {
        SuffixTreeBuilder::build_tree(word)
    }

    /// The nodes and edges of the tree.
    pub fn data(&self) -> (r: &SuffixTreeData)
        ensures
            *r == self.spec_data(),
    {
        &self.data
    }

    /// Whether `pattern` can be read from the root of the tree, following
    /// the labels of its edges.
    pub fn contains(&self, pattern: &T) -> (r: bool)
        requires
            self.wf(),
        ensures
            r == tree_reads(self.spec_data(), self.symbols(), 0, pattern.spec_symbols()),
            shaped(self.spec_data(), self.symbols()) && tidy(self.spec_data()) ==> (r <==> exists|t: Seq<char>|
                #[trigger] spelled(self.spec_data(), self.symbols(), 0).contains(t)
                    && pattern.spec_symbols().is_prefix_of(t)),
    {
        let p = pattern.symbols();
        let ghost d = self.data;
        let ghost w = self.symbols();
        proof {
            if shaped(d, w) && tidy(d) {
                lemma_reads_spelled(d, w, 0, p@);
            }
        }
        let mut current = NodeIndex::root();
        let mut k: usize = 0;
        assert(p@.subrange(0, p@.len() as int) =~= p@);
        while k < p.len()
            invariant
                self.wf(),
                d == self.spec_data(),
                w == self.symbols(),
                p@ == pattern.spec_symbols(),
                k <= p@.len(),
                shaped(d, w) && tidy(d) ==> (tree_reads(d, w, 0, p@) == exists|t: Seq<char>|
                    #[trigger] spelled(d, w, 0).contains(t) && p@.is_prefix_of(t)),
                current@ < d.node_seq().len(),
                tree_reads(d, w, 0, p@) == tree_reads(d, w, current@ as int, p@.subrange(k as int, p@.len() as int)),
            decreases p@.len() - k,
        {
            let ghost q = p@.subrange(k as int, p@.len() as int);
            let c = p[k];
            k += 1;
            let len = self.word.size_of(c);
            match self.data.get_edge(current, Symbol::Char(c)) {
                Some((node_index, node)) => {
                    let ghost lab = if node.start + 1 <= node.end {
                        w.subrange(node.start + 1, node.end as int)
                    } else {
                        Seq::empty()
                    };
                    let ghost rest = q.drop_first();
                    let ghost k0 = k;
                    assert(rest =~= p@.subrange(k0 as int, p@.len() as int));
                    assert(node.end <= w.len());
                    assert(q[0] == c);
                    let mut i = node.start + len;
                    proof {
                        if node.start + 1 <= node.end {
                            assert(p@.subrange(k0 as int, k as int) =~= w.subrange(node.start + 1, i as int));
                        }
                    }
                    while i < node.end
                        invariant
                            self.wf(),
                            d == self.spec_data(),
                            w == self.symbols(),
                            p@ == pattern.spec_symbols(),
                            q == p@.subrange(k0 - 1, p@.len() as int),
                            shaped(d, w) && tidy(d) ==> (tree_reads(d, w, 0, p@) == exists|t: Seq<char>|
                                #[trigger] spelled(d, w, 0).contains(t) && p@.is_prefix_of(t)),
                            q[0] == c,
                            d.child(current@ as int, Symbol::Char(c)) == Some(node_index),
                            *node == d.node_seq()[node_index@ as int],
                            tree_reads(d, w, 0, p@) == tree_reads(d, w, current@ as int, q),
                            rest == q.drop_first(),
                            rest == p@.subrange(k0 as int, p@.len() as int),
                            lab == (if node.start + 1 <= node.end {
                                w.subrange(node.start + 1, node.end as int)
                            } else {
                                Seq::empty()
                            }),
                            node.end <= w.len(),
                            node.start + 1 <= i,
                            i <= node.end || node.start + 1 > node.end,
                            1 <= k0 <= k <= p@.len(),
                            k - k0 == i - (node.start + 1),
                            node.start + 1 <= node.end ==> p@.subrange(k0 as int, k as int) == w.subrange(node.start + 1, i as int),
                            node.start + 1 > node.end ==> i == node.start + 1,
                        decreases node.end - i,
                    {
                        match Word::get(self.word, i) {
                            Symbol::Char(s) => {
                                if k < p.len() {
                                    let pc = p[k];
                                    if s != pc {
                                        proof {
                                            let j = (k - k0) as int;
                                            assert(rest[j] == pc);
                                            assert(lab[j] == s);
                                            if rest.len() <= lab.len() {
                                                assert(lab.subrange(0, rest.len() as int)[j] == lab[j]);
                                            } else {
                                                assert(rest.subrange(0, lab.len() as int)[j] == rest[j]);
                                            }
                                        }
                                        return false;
                                    }
                                    k += 1;
                                    proof {
                                        assert(p@.subrange(k0 as int, k as int) =~= w.subrange(node.start + 1, i + 1));
                                    }
                                } else {
                                    proof {
                                        assert(rest =~= lab.subrange(0, rest.len() as int));
                                    }
                                    return true;
                                }
                            },
                            Symbol::Terminal => {
                                // positions inside a label hold symbols of the word
                                proof {
                                    assert(false);
                                }
                            },
                        }
                        i += 1;
                    }
                    proof {
                        if node.start + 1 <= node.end {
                            assert(rest.subrange(0, lab.len() as int) =~= p@.subrange(k0 as int, k as int));
                            assert(lab =~= rest.subrange(0, lab.len() as int));
                            assert(rest.subrange(lab.len() as int, rest.len() as int) =~= p@.subrange(k as int, p@.len() as int));
                        } else {
                            assert(lab.len() == 0);
                            assert(rest.subrange(0, 0) =~= lab);
                            assert(rest.subrange(0, rest.len() as int) =~= rest);
                            assert(rest =~= p@.subrange(k as int, p@.len() as int));
                        }
                        if rest.len() == lab.len() {
                            assert(rest =~= lab.subrange(0, rest.len() as int));
                            assert(p@.subrange(k as int, p@.len() as int).len() == 0);
                        }
                    }
                    current = node_index;
                },
                None => {
                    return false;
                },
            }
        }
        true
    }

    /// The printed form of the tree: each subtree as its label followed by
    /// its subtrees in brackets, edges in the order of their symbols.
    pub fn to_string(&self) -> (r: String)
        requires
            self.wf(),
        ensures
            r@ == render(self.spec_data(), self.symbols(), 0),
    {
        let w = self.word.symbols();
        let mut out = String::new();
        format_node(&self.data, &w, NodeIndex::root(), &mut out);
        assert(out@ =~= Seq::<char>::empty() + render(self.spec_data(), self.symbols(), 0));
        out
    }

    /// The word the tree was built from.
    pub fn word(&self) -> (r: &'a T)
        ensures
            r == self.spec_word(),
    {
        self.word
    }
}

/// Appends the printed form of the subtree at `node` to `out`.
fn format_node(d: &SuffixTreeData, w: &Vec<char>, node: NodeIndex, out: &mut String)
    requires
        d.wf(),
        d.acyclic(),
        node@ < d.node_seq().len(),
        d.ranges_within(w@.len()),
    ensures
        final(out)@ == old(out)@ + render(*d, w@, node@ as int),
    decreases d.height(node@ as int),
{
    proof {
        d.lemma_height_positive(node@ as int);
    }
    let ghost start = out@;
    if node.get() != 0 {
        let nd = d.get_node(node);
        if nd.end - nd.start == 0 {
            crate::text::push_char(out, '$');
        } else {
            let mut i = nd.start;
            while i < nd.end
                invariant
                    nd.start <= i <= nd.end <= w@.len(),
                    out@ == start + w@.subrange(nd.start as int, i as int),
                decreases nd.end - i,
            {
                crate::text::push_char(out, w[i]);
                i += 1;
                assert(w@.subrange(nd.start as int, i as int) =~= w@.subrange(nd.start as int, i - 1).push(w@[i - 1]));
            }
        }
    }
    assert(out@ =~= start + label_text(*d, w@, node@ as int));
    let edges = match d.get_edges(node) {
        Some(e) => e,
        None => {
            return ;
        },
    };
    crate::text::push_char(out, '(');
    let mut k: usize = 0;
    while k < edges.len()
        invariant
            d.wf(),
            d.acyclic(),
            d.ranges_within(w@.len()),
            node@ < d.node_seq().len(),
            edges@ == d.edge_seq()[node@ as int],
            k <= edges@.len(),
            out@ == start + label_text(*d, w@, node@ as int) + seq!['('] + render_list(*d, w@, node@ as int, k as int),
        decreases edges@.len() - k,
    {
        proof {
            d.lemma_height_decreases(node@ as int, k as int);
        }
        if k > 0 {
            crate::text::push_char(out, ',');
            crate::text::push_char(out, ' ');
        }
        format_node(d, w, edges[k].1, out);
        k += 1;
        proof {
            assert(out@ =~= start + label_text(*d, w@, node@ as int) + seq!['('] + render_list(*d, w@, node@ as int, k as int));
        }
    }
    crate::text::push_char(out, ')');
    assert(out@ =~= start + render(*d, w@, node@ as int));
}

} // verus!
