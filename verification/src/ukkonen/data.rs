use vstd::prelude::*;

use crate::word::{symbol_less, symbol_lt, Symbol};

verus! {

/// The index of a node of a suffix tree; index 0 is the root.
#[derive(Debug, Clone, Copy, PartialEq, Eq, Structural, Hash)]
pub struct NodeIndex(pub usize);

impl NodeIndex {
    /// The position of the node in the node table.
    pub open spec fn view(self) -> nat {
        self.0 as nat
    }

    /// The root's index.
    pub fn root() -> (r: Self)
        ensures
            r@ == 0,
    {
        Self::new(0)
    }

    /// The index of the node at position `val`; positions stop at `isize::MAX`.
    pub fn new(val: usize) -> (r: Self)
        requires
            val <= isize::MAX,
        ensures
            r@ == val,
    {
        NodeIndex(val)
    }

    /// The index made from a position gives that position back.
    pub proof fn lemma_new_get(val: usize)
        ensures
            NodeIndex(val)@ == val,
    {
    }

    /// The position of the node in the node table.
    pub fn get(self) -> (r: usize)
        ensures
            r == self@,
    {
        self.0
    }
}

/// A node: the label of the edge that leads to it is the word's range
/// `start..end`; `link` is its suffix link, where it has one.
#[derive(Debug, Clone, Copy, PartialEq, Eq, Structural)]
pub struct Node {
    pub start: usize,
    pub end: usize,
    pub link: Option<NodeIndex>,
}

impl Node {
    /// The root: an empty label and no link.
    pub fn root() -> (r: Self)
        ensures
            r == (Node { start: 0, end: 0, link: None }),
    {
        Self { start: 0, end: 0, link: None }
    }
}

/// The outgoing edges of one node: the first symbol of each edge's label and
/// the node it leads to.
pub type Edges = Seq<(Symbol<char>, NodeIndex)>;

/// The edges are ordered by their symbols, strictly, so that no symbol occurs twice.
pub open spec fn sorted_edges(list: Edges) -> bool {
    forall|i: int, j: int| 0 <= i < j < list.len() ==> symbol_lt(#[trigger] list[i].0, #[trigger] list[j].0)
}

/// The node that the edge starting with `s` leads to, if there is such an edge.
pub open spec fn lookup(list: Edges, s: Symbol<char>) -> Option<NodeIndex> {
    if exists|k: int| 0 <= k < list.len() && (#[trigger] list[k]).0 == s {
        Some(list[choose|k: int| 0 <= k < list.len() && (#[trigger] list[k]).0 == s].1)
    } else {
        None
    }
}

/// In a sorted edge list, the edge with a given symbol is the one found.
pub proof fn lemma_lookup_at(list: Edges, k: int)
    requires
        sorted_edges(list),
        0 <= k < list.len(),
    ensures
        lookup(list, list[k].0) == Some(list[k].1),
{
    let s = list[k].0;
    assert(list[k].0 == s);
    let j = choose|j: int| 0 <= j < list.len() && (#[trigger] list[j]).0 == s;
    if j < k {
        assert(symbol_lt(list[j].0, list[k].0));
    } else if k < j {
        assert(symbol_lt(list[k].0, list[j].0));
    }
}

/// A lookup that finds a node names the target of one of the edges.
pub proof fn lemma_lookup_some(list: Edges, s: Symbol<char>)
    requires
        sorted_edges(list),
        lookup(list, s) is Some,
    ensures
        exists|k: int| 0 <= k < list.len() && (#[trigger] list[k]) == (s, lookup(list, s)->0),
{
    let k = choose|k: int| 0 <= k < list.len() && (#[trigger] list[k]).0 == s;
    lemma_lookup_at(list, k);
    assert(list[k] == (s, lookup(list, s)->0));
}

/// The nodes and edges of a suffix tree.
#[derive(Debug)]
pub struct SuffixTreeData {
    nodes: Vec<Node>,
    edges: Vec<Vec<(Symbol<char>, NodeIndex)>>,
}

impl SuffixTreeData {
    /// The nodes, by index.
    pub closed spec fn node_seq(&self) -> Seq<Node> {
        self.nodes@
    }

    /// The outgoing edges of each node, by index.
    pub closed spec fn edge_seq(&self) -> Seq<Edges> {
        self.edges@.map_values(|v: Vec<(Symbol<char>, NodeIndex)>| v@)
    }

    /// The node that the edge from `n` starting with `s` leads to.
    pub open spec fn child(&self, n: int, s: Symbol<char>) -> Option<NodeIndex> {
        lookup(self.edge_seq()[n], s)
    }

    /// There is a root, each node has an ordered edge list, and every edge
    /// and link leads to a node of the table.
    pub open spec fn wf(&self) -> bool {
        &&& self.node_seq().len() >= 1
        &&& self.edge_seq().len() == self.node_seq().len()
        &&& forall|i: int| 0 <= i < self.edge_seq().len() ==> sorted_edges(#[trigger] self.edge_seq()[i])
        &&& forall|i: int, k: int|
            0 <= i < self.edge_seq().len() && 0 <= k < self.edge_seq()[i].len() ==> (#[trigger] self.edge_seq()[i][k]).1@
                < self.node_seq().len()
        &&& forall|i: int|
            0 <= i < self.node_seq().len() ==> match (#[trigger] self.node_seq()[i]).link {
                Some(l) => l@ < self.node_seq().len(),
                None => true,
            }
    }

    /// Every label is a range of positions `0..=n`.
    pub open spec fn ranges_within(&self, n: nat) -> bool {
        forall|i: int|
            0 <= i < self.node_seq().len() ==> (#[trigger] self.node_seq()[i]).start <= self.node_seq()[i].end
                <= n
    }

    /// `r` numbers the nodes below the table's size so that every edge leads
    /// to a node with a larger number.
    pub open spec fn ranked_by(&self, r: Seq<nat>) -> bool {
        &&& r.len() == self.node_seq().len()
        &&& forall|i: int| 0 <= i < r.len() ==> #[trigger] r[i] < r.len()
        &&& forall|i: int, k: int|
            0 <= i < self.edge_seq().len() && 0 <= k < self.edge_seq()[i].len() ==> r[i]
                < r[(#[trigger] self.edge_seq()[i][k]).1@ as int]
    }

    /// Along an edge, the numbering grows.
    pub proof fn lemma_child_ranked(&self, r: Seq<nat>, n: int, s: Symbol<char>)
        requires
            self.wf(),
            self.ranked_by(r),
            0 <= n < self.node_seq().len(),
            self.child(n, s) is Some,
        ensures
            self.child(n, s)->0@ < self.node_seq().len(),
            r[n] < r[self.child(n, s)->0@ as int],
    {
        lemma_lookup_some(self.edge_seq()[n], s);
        let k = choose|k: int|
            0 <= k < self.edge_seq()[n].len() && (#[trigger] self.edge_seq()[n][k]) == (
                s,
                self.child(n, s)->0,
            );
        assert(self.edge_seq()[n][k].1 == self.child(n, s)->0);
    }

    /// The edges form no cycle.
    pub open spec fn acyclic(&self) -> bool {
        exists|r: Seq<nat>| self.ranked_by(r)
    }

    /// How far `node` lies from the top of the numbering chosen for the
    /// tables: it shrinks along every edge.
    pub open spec fn height(&self, node: int) -> int {
        self.node_seq().len() - (choose|r: Seq<nat>| self.ranked_by(r))[node]
    }

    /// The height is positive and shrinks along every edge.
    pub proof fn lemma_height_decreases(&self, node: int, k: int)
        requires
            self.wf(),
            self.acyclic(),
            0 <= node < self.node_seq().len(),
            0 <= k < self.edge_seq()[node].len(),
        ensures
            0 < self.height(self.edge_seq()[node][k].1@ as int) < self.height(node),
            self.edge_seq()[node][k].1@ < self.node_seq().len(),
    {
        let r = choose|r: Seq<nat>| self.ranked_by(r);
        assert(self.ranked_by(r));
        let c = self.edge_seq()[node][k].1@ as int;
        assert(r[node] < r[c]);
        assert(r[c] < r.len());
    }

    /// Along the edge that starts with `s`, the height shrinks.
    pub proof fn lemma_child_height(&self, node: int, s: Symbol<char>)
        requires
            self.wf(),
            self.acyclic(),
            0 <= node < self.node_seq().len(),
            self.child(node, s) is Some,
        ensures
            self.child(node, s)->0@ < self.node_seq().len(),
            0 < self.height(self.child(node, s)->0@ as int) < self.height(node),
    {
        lemma_lookup_some(self.edge_seq()[node], s);
        let k = choose|k: int|
            0 <= k < self.edge_seq()[node].len() && (#[trigger] self.edge_seq()[node][k]) == (
                s,
                self.child(node, s)->0,
            );
        self.lemma_height_decreases(node, k);
    }

    /// The height is positive.
    pub proof fn lemma_height_positive(&self, node: int)
        requires
            self.acyclic(),
            0 <= node < self.node_seq().len(),
        ensures
            0 < self.height(node),
    {
        let r = choose|r: Seq<nat>| self.ranked_by(r);
        assert(self.ranked_by(r));
        assert(r[node] < r.len());
    }

    /// A table with the root alone.
    pub fn new_with_root() -> (r: Self)
        ensures
            r.node_seq() == seq![Node { start: 0, end: 0, link: None }],
            r.edge_seq() == seq![Seq::<(Symbol<char>, NodeIndex)>::empty()],
            r.wf(),
            r.acyclic(),
    {
        let mut nodes: Vec<Node> = Vec::new();
        nodes.push(Node::root());
        let mut edges: Vec<Vec<(Symbol<char>, NodeIndex)>> = Vec::new();
        edges.push(Vec::new());
        let r = Self { nodes, edges };
        assert(r.edge_seq() =~= seq![Seq::<(Symbol<char>, NodeIndex)>::empty()]);
        assert(r.node_seq() =~= seq![Node { start: 0, end: 0, link: None }]);
        assert(r.ranked_by(seq![0nat]));
        r
    }

    /// Appends a node without edges and returns its index.
    pub fn insert_node(&mut self, node: Node) -> (r: NodeIndex)
        requires
            old(self).node_seq().len() <= isize::MAX,
            old(self).edge_seq().len() == old(self).node_seq().len(),
        ensures
            r@ == old(self).node_seq().len(),
            final(self).node_seq() == old(self).node_seq().push(node),
            final(self).edge_seq() == old(self).edge_seq().push(Seq::empty()),
    {
        let index = self.nodes.len();
        self.nodes.push(node);
        self.edges.push(Vec::new());
        assert(self.edge_seq() =~= old(self).edge_seq().push(Seq::empty()));
        NodeIndex::new(index)
    }

    /// Sets the edge from `from` that starts with `edge` to lead to `to`,
    /// keeping the edge list ordered.
    pub fn insert_edge(&mut self, from: NodeIndex, edge: Symbol<char>, to: NodeIndex)
        requires
            old(self).wf(),
            from@ < old(self).node_seq().len(),
            to@ < old(self).node_seq().len(),
        ensures
            final(self).wf(),
            final(self).node_seq() == old(self).node_seq(),
            final(self).edge_seq().len() == old(self).edge_seq().len(),
            forall|i: int|
                0 <= i < old(self).edge_seq().len() && i != from@ ==> #[trigger] final(self).edge_seq()[i]
                    == old(self).edge_seq()[i],
            forall|s: Symbol<char>|
                #[trigger] final(self).child(from@ as int, s) == if s == edge {
                    Some(to)
                } else {
                    old(self).child(from@ as int, s)
                },
            forall|k: int|
                0 <= k < final(self).edge_seq()[from@ as int].len() ==> {
                    let e = #[trigger] final(self).edge_seq()[from@ as int][k];
                    e == (edge, to) || old(self).edge_seq()[from@ as int].contains(e)
                },
    {
        let f = from.get();
        let ghost old_list = self.edge_seq()[f as int];
        let mut list: Vec<(Symbol<char>, NodeIndex)> = Vec::new();
        self.edges.set_and_swap(f, &mut list);
        assert(list@ == old_list);
        let mut p: usize = 0;
        while p < list.len() && symbol_less(list[p].0, edge)
            invariant
                list@ == old_list,
                sorted_edges(old_list),
                p <= list.len(),
                forall|j: int| 0 <= j < p ==> symbol_lt(#[trigger] old_list[j].0, edge),
            decreases list.len() - p,
        {
            p += 1;
        }
        proof {
            assert forall|j: int| p <= j < old_list.len() implies !symbol_lt(#[trigger] old_list[j].0, edge) by {
                crate::word::lemma_symbol_lt_strict(old_list[p as int].0, old_list[j].0, edge);
                if p < j {
                    assert(symbol_lt(old_list[p as int].0, old_list[j].0));
                }
            }
        }
        if p < list.len() && list[p].0 == edge {
            list.set(p, (edge, to));
        } else {
            list.insert(p, (edge, to));
        }
        let ghost new_list = list@;
        proof {
            assert forall|i: int, j: int| 0 <= i < j < new_list.len() implies symbol_lt(
                #[trigger] new_list[i].0,
                #[trigger] new_list[j].0,
            ) by {
                crate::word::lemma_symbol_lt_strict(new_list[i].0, new_list[j].0, edge);
                if p < old_list.len() && old_list[p as int].0 == edge {
                } else {
                    if i < p && j > p {
                        crate::word::lemma_symbol_lt_strict(new_list[i].0, edge, new_list[j].0);
                        assert(!symbol_lt(old_list[j - 1].0, edge));
                        crate::word::lemma_symbol_lt_strict(edge, old_list[j - 1].0, edge);
                    } else if i == p && j > p {
                        assert(!symbol_lt(old_list[j - 1].0, edge));
                        crate::word::lemma_symbol_lt_strict(edge, old_list[j - 1].0, edge);
                    }
                }
            }
            assert(sorted_edges(new_list));
            assert forall|s: Symbol<char>|
                #[trigger] lookup(new_list, s) == if s == edge {
                    Some(to)
                } else {
                    lookup(old_list, s)
                } by {
                if s == edge {
                    lemma_lookup_at(new_list, p as int);
                } else {
                    if lookup(old_list, s) is Some {
                        let k = choose|k: int| 0 <= k < old_list.len() && (#[trigger] old_list[k]).0 == s;
                        lemma_lookup_at(old_list, k);
                        if p < old_list.len() && old_list[p as int].0 == edge {
                            lemma_lookup_at(new_list, k);
                        } else if k < p {
                            lemma_lookup_at(new_list, k);
                        } else {
                            assert(new_list[k + 1] == old_list[k]);
                            lemma_lookup_at(new_list, k + 1);
                        }
                    } else {
                        assert forall|k: int| 0 <= k < new_list.len() implies (#[trigger] new_list[k]).0
                            != s by {
                            if p < old_list.len() && old_list[p as int].0 == edge {
                                if k != p {
                                    assert(old_list[k].0 != s);
                                }
                            } else if k < p {
                                assert(old_list[k].0 != s);
                            } else if k > p {
                                assert(old_list[k - 1].0 != s);
                            }
                        }
                    }
                }
            }
            assert forall|k: int| 0 <= k < new_list.len() implies (#[trigger] new_list[k] == (edge, to)
                || old_list.contains(new_list[k])) by {
                if p < old_list.len() && old_list[p as int].0 == edge {
                    if k != p {
                        assert(old_list[k] == new_list[k]);
                    }
                } else if k < p {
                    assert(old_list[k] == new_list[k]);
                } else if k > p {
                    assert(old_list[k - 1] == new_list[k]);
                }
            }
        }
        self.edges.set_and_swap(f, &mut list);
        proof {
            assert(self.edge_seq() =~= old(self).edge_seq().update(f as int, new_list));
        }
    }

    /// The edges from `node`, in the order of their symbols, or `None` when
    /// the node has none.
    pub fn get_edges(&self, node: NodeIndex) -> (r: Option<Vec<(Symbol<char>, NodeIndex)>>)
        requires
            self.wf(),
        ensures
            match r {
                Some(v) => node@ < self.node_seq().len() && v@ == self.edge_seq()[node@ as int] && v@.len()
                    > 0,
                None => node@ >= self.node_seq().len() || self.edge_seq()[node@ as int].len() == 0,
            },
    {
        let n = node.get();
        if n >= self.edges.len() {
            return None;
        }
        let list = &self.edges[n];
        if list.len() == 0 {
            return None;
        }
        let mut out: Vec<(Symbol<char>, NodeIndex)> = Vec::new();
        let mut i: usize = 0;
        while i < list.len()
            invariant
                list@ == self.edge_seq()[n as int],
                i <= list@.len(),
                out@ == list@.subrange(0, i as int),
            decreases list@.len() - i,
        {
            out.push(list[i]);
            i += 1;
        }
        proof {
            assert(out@ =~= list@);
        }
        Some(out)
    }

    /// The position, in the edge list of `n`, of the edge that starts with `s`.
    fn find_edge(&self, n: usize, s: Symbol<char>) -> (r: Option<usize>)
        requires
            self.wf(),
            n < self.node_seq().len(),
        ensures
            match r {
                Some(k) => k < self.edge_seq()[n as int].len() && self.edge_seq()[n as int][k as int].0 == s
                    && self.child(n as int, s) == Some(self.edge_seq()[n as int][k as int].1),
                None => self.child(n as int, s) is None,
            },
    {
        let list = &self.edges[n];
        assert(list@ == self.edge_seq()[n as int]);
        assert(sorted_edges(list@));
        let mut i: usize = 0;
        while i < list.len()
            invariant
                list@ == self.edge_seq()[n as int],
                sorted_edges(list@),
                i <= list@.len(),
                forall|j: int| 0 <= j < i ==> (#[trigger] list@[j]).0 != s,
            decreases list@.len() - i,
        {
            if list[i].0 == s {
                proof {
                    lemma_lookup_at(list@, i as int);
                }
                return Some(i);
            }
            i += 1;
        }
        None
    }

    /// The node that the edge from `node` starting with `edge` leads to, with its index.
    pub fn get_edge(&self, node: NodeIndex, edge: Symbol<char>) -> (r: Option<(NodeIndex, &Node)>)
        requires
            self.wf(),
        ensures
            match r {
                Some((i, nd)) => node@ < self.node_seq().len() && self.child(node@ as int, edge) == Some(i)
                    && i@ < self.node_seq().len() && *nd == self.node_seq()[i@ as int],
                None => node@ >= self.node_seq().len() || self.child(node@ as int, edge) is None,
            },
    {
        let n = node.get();
        if n >= self.nodes.len() {
            return None;
        }
        match self.find_edge(n, edge) {
            Some(k) => {
                let target = self.edges[n][k].1;
                Some((target, &self.nodes[target.get()]))
            },
            None => None,
        }
    }

    /// As `get_edge`, with the node open to change.
    pub fn get_edge_mut(&mut self, node: NodeIndex, edge: Symbol<char>) -> (r: Option<
        (NodeIndex, &mut Node),
    >)
        requires
            old(self).wf(),
        ensures
            match r {
                Some((i, nd)) => node@ < old(self).node_seq().len() && old(self).child(node@ as int, edge)
                    == Some(i) && i@ < old(self).node_seq().len() && *nd == old(self).node_seq()[i@ as int]
                    && final(self).node_seq() == old(self).node_seq().update(i@ as int, *final(nd))
                    && final(self).edge_seq() == old(self).edge_seq(),
                None => (node@ >= old(self).node_seq().len() || old(self).child(node@ as int, edge) is None)
                    && *final(self) == *old(self),
            },
    {
        let n = node.get();
        if n >= self.nodes.len() {
            return None;
        }
        match self.find_edge(n, edge) {
            Some(k) => {
                let target = self.edges[n][k].1;
                Some((target, &mut self.nodes[target.get()]))
            },
            None => None,
        }
    }

    /// The node at `index`.
    pub fn get_node(&self, index: NodeIndex) -> (r: &Node)
        requires
            index@ < self.node_seq().len(),
        ensures
            *r == self.node_seq()[index@ as int],
    {
        &self.nodes[index.get()]
    }

    /// The node at `index`, open to change.
    pub fn get_node_mut(&mut self, index: NodeIndex) -> (r: &mut Node)
        requires
            index@ < old(self).node_seq().len(),
        ensures
            *r == old(self).node_seq()[index@ as int],
            final(self).node_seq() == old(self).node_seq().update(index@ as int, *final(r)),
            final(self).edge_seq() == old(self).edge_seq(),
    {
        &mut self.nodes[index.get()]
    }

    /// The suffix link of `node`.
    pub fn get_link(&self, node: NodeIndex) -> (r: Option<NodeIndex>)
        requires
            node@ < self.node_seq().len(),
        ensures
            r == self.node_seq()[node@ as int].link,
    {
        self.nodes[node.get()].link
    }

    /// Sets the suffix link of `from` to `to`.
    pub fn insert_link(&mut self, from: NodeIndex, to: NodeIndex)
        requires
            from@ < old(self).node_seq().len(),
        ensures
            final(self).node_seq() == old(self).node_seq().update(
                from@ as int,
                Node { link: Some(to), ..old(self).node_seq()[from@ as int] },
            ),
            final(self).edge_seq() == old(self).edge_seq(),
    {
        let f = from.get();
        let mut nd = self.nodes[f];
        nd.link = Some(to);
        self.nodes.set(f, nd);
    }
}

} // verus!
