use vstd::prelude::*;

use crate::ukkonen::data::{lemma_lookup_some, Node, NodeIndex, SuffixTreeData};
use crate::ukkonen::SuffixTree;
use crate::word::{spec_get, spec_try_get, Symbol, Word};

verus! {

/// The state of Ukkonen's construction: the word, the position being added,
/// how many suffixes are still to be added explicitly, the last node created
/// in this phase (to receive a suffix link) and the active point.
pub struct SuffixTreeBuilder<'a> {
    word: &'a [char],
    position: usize,
    remaining: usize,
    last_created_node: Option<NodeIndex>,
    active: Active,
}

/// The active point: a node, the edge out of it (by its first symbol) and
/// how far along that edge the point lies.
#[derive(Debug, Clone, Copy)]
pub struct Active {
    node: NodeIndex,
    edge: Option<Symbol<char>>,
    len: usize,
}

/// The tables of a construction over a word of `n` positions are well formed.
pub open spec fn tables_ok(data: SuffixTreeData, n: nat) -> bool {
    &&& data.wf()
    &&& data.ranges_within(n)
    &&& data.acyclic()
}

/// The first symbol of the edge that continues at position `suffix`, if
/// the word has one there.
spec fn edge_symbol_at(w: Seq<char>, suffix: int) -> Option<Symbol<char>> {
    match spec_try_get(w, suffix) {
        Some(ch) => Some(Symbol::Char(ch)),
        None => None,
    }
}

/// The active point reached from `node` by walking down `len` symbols that
/// start with `edge` (the word's symbols from position `suffix` on): whole
/// edges no longer than what is left are passed; the walk stops at a node
/// when nothing is left or no edge goes on, and otherwise inside the first
/// edge that is longer than what is left.
spec fn walk(
    d: SuffixTreeData,
    w: Seq<char>,
    node: NodeIndex,
    edge: Option<Symbol<char>>,
    len: int,
    suffix: int,
) -> Active
    decreases len, d.height(node@ as int),
    when d.wf() && d.acyclic() && node@ < d.node_seq().len() && 0 <= len <= usize::MAX
{
    match edge {
        None => Active { node, edge: None, len: 0 },
        Some(e) => if len == 0 {
            Active { node, edge: None, len: 0 }
        } else { match d.child(node@ as int, e) {
            None => Active { node, edge: None, len: 0 },
            Some(ch) => {
                let nd = d.node_seq()[ch@ as int];
                let el = nd.end - nd.start;
                if 0 <= el <= len {
                    proof {
                        d.lemma_child_height(node@ as int, e);
                    }
                    walk(d, w, ch, edge_symbol_at(w, suffix + el), len - el, suffix + el)
                } else {
                    Active { node, edge, len: len as usize }
                }
            },
        } },
    }
}

/// The active point lies on the tables: at a node, or strictly inside the
/// label of an edge out of it (past its first symbol, before its end).
spec fn point_ok(d: SuffixTreeData, a: Active) -> bool {
    &&& a.node@ < d.node_seq().len()
    &&& match a.edge {
        Some(e) => match d.child(a.node@ as int, e) {
            Some(ch) => 0 < a.len < d.node_seq()[ch@ as int].end - d.node_seq()[ch@ as int].start,
            None => false,
        },
        None => a.len == 0,
    }
}

/// `d1` is `d0` with a leaf for position `pos` added below `node` by the
/// edge that starts with `c` (case B).
spec fn leaf_added(d0: SuffixTreeData, d1: SuffixTreeData, w: Seq<char>, pos: int, node: int, c: Symbol<char>) -> bool {
    let m = d0.node_seq().len() as int;
    &&& d1.node_seq() == d0.node_seq().push(Node { start: pos as usize, end: w.len() as usize, link: None })
    &&& d1.edge_seq().len() == m + 1
    &&& forall|i: int| 0 <= i < m && i != node ==> #[trigger] d1.edge_seq()[i] == d0.edge_seq()[i]
    &&& forall|s: Symbol<char>|
        #[trigger] d1.child(node, s) == if s == c {
            Some(NodeIndex(m as usize))
        } else {
            d0.child(node, s)
        }
    &&& d1.edge_seq()[m].len() == 0
}

/// `d1` is `d0` with the edge from `node` that starts with `e` split `len`
/// symbols in (case E): the node it led to keeps the rest of its label, a
/// middle node takes the first part and gets two edges, one back to that node (by the symbol at the split
/// point) and one to a new leaf for position `pos` (by the symbol there).
spec fn split_made(
    d0: SuffixTreeData,
    d1: SuffixTreeData,
    w: Seq<char>,
    pos: int,
    node: int,
    e: Symbol<char>,
    len: int,
) -> bool {
    let ch = d0.child(node, e)->0;
    let old_nd = d0.node_seq()[ch@ as int];
    let cut = len;
    let m = d0.node_seq().len() as int;
    &&& d1.node_seq() == d0.node_seq().update(
        ch@ as int,
        Node { start: (old_nd.start + cut) as usize, ..old_nd },
    ).push(Node { start: old_nd.start, end: (old_nd.start + cut) as usize, link: None }).push(
        Node { start: pos as usize, end: w.len() as usize, link: None },
    )
    &&& d1.edge_seq().len() == m + 2
    &&& forall|i: int| 0 <= i < m && i != node ==> #[trigger] d1.edge_seq()[i] == d0.edge_seq()[i]
    &&& forall|s: Symbol<char>|
        #[trigger] d1.child(node, s) == if s == e {
            Some(NodeIndex(m as usize))
        } else {
            d0.child(node, s)
        }
    &&& forall|s: Symbol<char>|
        #[trigger] d1.child(m, s) == if s == spec_get(w, pos) {
            Some(NodeIndex((m + 1) as usize))
        } else if s == spec_get(w, old_nd.start + len) {
            Some(ch)
        } else {
            None
        }
    &&& d1.edge_seq()[m + 1].len() == 0
}

/// `d1` is `d0` with the suffix link of `last`, if there is such a node,
/// set to `to`.
spec fn linked(d0: SuffixTreeData, d1: SuffixTreeData, last: Option<NodeIndex>, to: NodeIndex) -> bool {
    match last {
        Some(l) => {
            &&& d1.node_seq() == d0.node_seq().update(l@ as int, Node { link: Some(to), ..d0.node_seq()[l@ as int] })
            &&& d1.edge_seq() == d0.edge_seq()
        },
        None => d1 == d0,
    }
}

/// The shape of a suffix tree's tables over `w`: every edge is keyed by
/// the symbol at the start of the label of the node it leads to (the
/// terminal for an empty label at the end of the word), no node is reached
/// by two edges, every node but the root that has no edges (a leaf) has a
/// label that runs to the end of the word, and the only empty labels are
/// those at the end of the word (so reached by the terminal).
pub open spec fn shaped(d: SuffixTreeData, w: Seq<char>) -> bool {
    &&& forall|i: int, s: Symbol<char>|
        0 <= i < d.node_seq().len() && (#[trigger] d.child(i, s)) is Some ==> s == spec_get(
            w,
            d.node_seq()[d.child(i, s)->0@ as int].start as int,
        )
    &&& forall|i: int, j: int, s: Symbol<char>, t: Symbol<char>|
        0 <= i < d.node_seq().len() && 0 <= j < d.node_seq().len() && (#[trigger] d.child(i, s)) is Some
            && #[trigger] d.child(j, t) == d.child(i, s) ==> i == j && s == t
    &&& forall|i: int|
        0 < i < d.node_seq().len() && (#[trigger] d.edge_seq()[i]).len() == 0 ==> d.node_seq()[i].end
            == w.len()
    &&& forall|i: int|
        0 < i < d.node_seq().len() && (#[trigger] d.node_seq()[i]).start == d.node_seq()[i].end
            ==> d.node_seq()[i].start == w.len()
}

/// A node other than the root with an empty label has no edges.
pub open spec fn bare_ends(d: SuffixTreeData) -> bool {
    forall|i: int|
        0 < i < d.node_seq().len() && (#[trigger] d.node_seq()[i]).start == d.node_seq()[i].end
            ==> d.edge_seq()[i].len() == 0
}

/// No edge leads back to the root.
pub open spec fn root_unreached(d: SuffixTreeData) -> bool {
    forall|i: int, s: Symbol<char>|
        0 <= i < d.node_seq().len() && (#[trigger] d.child(i, s)) is Some ==> d.child(i, s)->0@ != 0
}

/// The root, or a node with a nonempty label.
pub open spec fn labelled_or_root(d: SuffixTreeData, x: NodeIndex) -> bool {
    x@ == 0 || d.node_seq()[x@ as int].start < d.node_seq()[x@ as int].end
}

/// Every suffix link leads to the root or to a node with a nonempty label.
pub open spec fn links_labelled(d: SuffixTreeData) -> bool {
    forall|i: int|
        0 <= i < d.node_seq().len() && (#[trigger] d.node_seq()[i]).link is Some ==> labelled_or_root(
            d,
            d.node_seq()[i].link->0,
        )
}

/// The tables' ends are tidy: empty labels only on leaves, no edge into
/// the root, and links only to labelled nodes or the root.
pub open spec fn tidy(d: SuffixTreeData) -> bool {
    &&& bare_ends(d)
    &&& root_unreached(d)
    &&& links_labelled(d)
}

/// Setting a suffix link to the root or a labelled node keeps the ends tidy.
proof fn lemma_link_tidy(d0: SuffixTreeData, d1: SuffixTreeData, last: Option<NodeIndex>, to: NodeIndex)
    requires
        d0.wf(),
        tidy(d0),
        linked(d0, d1, last, to),
        last matches Some(l) ==> l@ < d0.node_seq().len(),
        to@ < d0.node_seq().len(),
        labelled_or_root(d0, to),
    ensures
        tidy(d1),
        d1.node_seq().len() == d0.node_seq().len(),
        forall|x: int| 0 <= x < d0.node_seq().len() ==> (#[trigger] d1.node_seq()[x]).start == d0.node_seq()[x].start
            && d1.node_seq()[x].end == d0.node_seq()[x].end,
{
    if let Some(l) = last {
        assert forall|i: int, s: Symbol<char>| #[trigger] d1.child(i, s) == d0.child(i, s) by {
        }
        assert forall|x: int| 0 <= x < d0.node_seq().len() implies (#[trigger] d1.node_seq()[x]).start
            == d0.node_seq()[x].start && d1.node_seq()[x].end == d0.node_seq()[x].end by {
        }
        assert forall|i: int|
            0 <= i < d1.node_seq().len() && (#[trigger] d1.node_seq()[i]).link is Some implies labelled_or_root(
            d1,
            d1.node_seq()[i].link->0,
        ) by {
            if i != l@ {
                assert(d1.node_seq()[i] == d0.node_seq()[i]);
                let y = d0.node_seq()[i].link->0;
                assert(labelled_or_root(d0, y));
                if y@ != 0 {
                    assert(d1.node_seq()[y@ as int].start == d0.node_seq()[y@ as int].start);
                }
            } else {
                if to@ != 0 {
                    assert(d1.node_seq()[to@ as int].start == d0.node_seq()[to@ as int].start);
                }
            }
        }
        assert forall|i: int|
            0 < i < d1.node_seq().len() && (#[trigger] d1.node_seq()[i]).start == d1.node_seq()[i].end implies d1.edge_seq()[i].len()
            == 0 by {
            assert(d0.node_seq()[i].start == d0.node_seq()[i].end);
        }
    }
}

/// Adding a leaf below the root or a labelled node keeps the ends tidy.
proof fn lemma_leaf_tidy(d0: SuffixTreeData, d1: SuffixTreeData, w: Seq<char>, pos: int, node: int, c: Symbol<char>)
    requires
        d0.wf(),
        tidy(d0),
        leaf_added(d0, d1, w, pos, node, c),
        0 <= node < d0.node_seq().len(),
        labelled_or_root(d0, NodeIndex(node as usize)),
        0 <= pos <= w.len() < isize::MAX,
        d0.node_seq().len() + 2 < isize::MAX,
    ensures
        tidy(d1),
        forall|x: int| 0 <= x < d0.node_seq().len() ==> #[trigger] d1.node_seq()[x] == d0.node_seq()[x],
{
    let m = d0.node_seq().len() as int;
    assert forall|x: int| 0 <= x < m implies #[trigger] d1.node_seq()[x] == d0.node_seq()[x] by {
    }
    assert forall|i: int, s: Symbol<char>| 0 <= i < m && i != node implies #[trigger] d1.child(i, s) == d0.child(i, s) by {
        assert(d1.edge_seq()[i] == d0.edge_seq()[i]);
    }
    assert forall|s: Symbol<char>| #[trigger] d1.child(m, s) is None by {
    }
    assert forall|i: int, s: Symbol<char>|
        0 <= i < d1.node_seq().len() && (#[trigger] d1.child(i, s)) is Some implies d1.child(i, s)->0@ != 0 by {
        if i == m {
        } else if i == node && s == c {
        } else {
            assert(d1.child(i, s) == d0.child(i, s));
        }
    }
    assert forall|i: int|
        0 < i < d1.node_seq().len() && (#[trigger] d1.node_seq()[i]).start == d1.node_seq()[i].end implies d1.edge_seq()[i].len()
        == 0 by {
        if i < m {
            assert(d0.node_seq()[i].start == d0.node_seq()[i].end);
            assert(i != node);
            assert(d1.edge_seq()[i] == d0.edge_seq()[i]);
        }
    }
    assert forall|i: int|
        0 <= i < d1.node_seq().len() && (#[trigger] d1.node_seq()[i]).link is Some implies labelled_or_root(
        d1,
        d1.node_seq()[i].link->0,
    ) by {
        assert(i < m);
        let y = d0.node_seq()[i].link->0;
        assert(labelled_or_root(d0, y));
        assert(y@ < m);
        if y@ != 0 {
            assert(d1.node_seq()[y@ as int] == d0.node_seq()[y@ as int]);
        }
    }
}

/// Splitting an edge keeps the ends tidy.
proof fn lemma_split_tidy(d0: SuffixTreeData, d1: SuffixTreeData, w: Seq<char>, pos: int, node: int, e: Symbol<char>, len: int)
    requires
        d0.wf(),
        d0.acyclic(),
        tidy(d0),
        split_made(d0, d1, w, pos, node, e, len),
        0 <= node < d0.node_seq().len(),
        d0.child(node, e) is Some,
        0 < len < d0.node_seq()[d0.child(node, e)->0@ as int].end - d0.node_seq()[d0.child(node, e)->0@ as int].start,
        0 <= pos <= w.len() < isize::MAX,
        d0.node_seq().len() + 2 < isize::MAX,
    ensures
        tidy(d1),
        forall|x: int|
            0 <= x < d0.node_seq().len() && x != d0.child(node, e)->0@ ==> #[trigger] d1.node_seq()[x]
                == d0.node_seq()[x],
        d1.node_seq()[d0.child(node, e)->0@ as int].start < d1.node_seq()[d0.child(node, e)->0@ as int].end,
{
    let m = d0.node_seq().len() as int;
    let ch = d0.child(node, e)->0;
    assert(ch@ < m) by {
        lemma_lookup_some(d0.edge_seq()[node], e);
    }
    assert(ch@ != 0);
    assert forall|i: int, s: Symbol<char>| 0 <= i < m && i != node implies #[trigger] d1.child(i, s) == d0.child(i, s) by {
        assert(d1.edge_seq()[i] == d0.edge_seq()[i]);
    }
    assert forall|s: Symbol<char>| #[trigger] d1.child(m + 1, s) is None by {
    }
    assert forall|x: int| 0 <= x < m && x != ch@ implies #[trigger] d1.node_seq()[x] == d0.node_seq()[x] by {
    }
    assert forall|i: int, s: Symbol<char>|
        0 <= i < d1.node_seq().len() && (#[trigger] d1.child(i, s)) is Some implies d1.child(i, s)->0@ != 0 by {
        if i == m || i == m + 1 || (i == node && s == e) {
        } else {
            assert(d1.child(i, s) == d0.child(i, s));
        }
    }
    assert forall|i: int|
        0 < i < d1.node_seq().len() && (#[trigger] d1.node_seq()[i]).start == d1.node_seq()[i].end implies d1.edge_seq()[i].len()
        == 0 by {
        if i < m && i != ch@ {
            assert(d0.node_seq()[i].start == d0.node_seq()[i].end);
            assert(i != node) by {
                lemma_child_listed(d0, node, e);
            }
            assert(d1.edge_seq()[i] == d0.edge_seq()[i]);
        }
    }
    assert forall|i: int|
        0 <= i < d1.node_seq().len() && (#[trigger] d1.node_seq()[i]).link is Some implies labelled_or_root(
        d1,
        d1.node_seq()[i].link->0,
    ) by {
        assert(i < m);
        if i != ch@ {
            assert(d1.node_seq()[i] == d0.node_seq()[i]);
        }
        let y = d0.node_seq()[i].link->0;
        assert(d1.node_seq()[i].link == d0.node_seq()[i].link);
        assert(labelled_or_root(d0, y));
        assert(y@ < m);
        if y@ != ch@ {
            assert(d1.node_seq()[y@ as int] == d0.node_seq()[y@ as int]);
        }
    }
}

/// A child reached by the symbol of a character has a label.
proof fn lemma_char_child_labelled(d: SuffixTreeData, w: Seq<char>, node: int, s: Symbol<char>)
    requires
        tables_ok(d, w.len()),
        shaped(d, w),
        tidy(d),
        0 <= node < d.node_seq().len(),
        d.child(node, s) is Some,
        s is Char,
    ensures
        labelled_or_root(d, d.child(node, s)->0),
        d.child(node, s)->0@ < d.node_seq().len(),
{
    lemma_lookup_some(d.edge_seq()[node], s);
}

/// The walk for the next active point ends at the root or a labelled node.
proof fn lemma_walk_labelled(
    d: SuffixTreeData,
    w: Seq<char>,
    node: NodeIndex,
    edge: Option<Symbol<char>>,
    len: int,
    suffix: int,
)
    requires
        tables_ok(d, w.len()),
        shaped(d, w),
        tidy(d),
        node@ < d.node_seq().len(),
        0 <= len <= usize::MAX,
        labelled_or_root(d, node),
        edge matches Some(e) ==> e is Char,
    ensures
        labelled_or_root(d, walk(d, w, node, edge, len, suffix).node),
    decreases len, d.height(node@ as int),
{
    if let Some(e) = edge {
        if len != 0 {
            if let Some(ch) = d.child(node@ as int, e) {
                let nd = d.node_seq()[ch@ as int];
                let el = nd.end - nd.start;
                if 0 <= el <= len {
                    d.lemma_child_height(node@ as int, e);
                    lemma_char_child_labelled(d, w, node@ as int, e);
                    lemma_walk_labelled(d, w, ch, edge_symbol_at(w, suffix + el), len - el, suffix + el);
                }
            }
        }
    }
}

/// An active point inside an edge lies on an edge keyed by a character:
/// the terminal's edges have empty labels.
proof fn lemma_active_edge_char(d: SuffixTreeData, w: Seq<char>, a: Active)
    requires
        tables_ok(d, w.len()),
        shaped(d, w),
        point_ok(d, a),
    ensures
        a.edge matches Some(e) ==> e is Char,
{
    if let Some(e) = a.edge {
        let ch = d.child(a.node@ as int, e)->0;
        lemma_lookup_some(d.edge_seq()[a.node@ as int], e);
        assert(d.node_seq()[ch@ as int].start <= d.node_seq()[ch@ as int].end);
    }
}

/// An edge that is found makes the edge list nonempty.
proof fn lemma_child_listed(d: SuffixTreeData, i: int, s: Symbol<char>)
    requires
        d.child(i, s) is Some,
    ensures
        d.edge_seq()[i].len() > 0,
{
}

/// Setting a suffix link keeps the shape.
proof fn lemma_link_shaped(d0: SuffixTreeData, d1: SuffixTreeData, w: Seq<char>, last: Option<NodeIndex>, to: NodeIndex)
    requires
        d0.wf(),
        shaped(d0, w),
        linked(d0, d1, last, to),
        last matches Some(l) ==> l@ < d0.node_seq().len(),
    ensures
        shaped(d1, w),
{
    if let Some(l) = last {
        assert forall|i: int| 0 <= i < d1.node_seq().len() implies (#[trigger] d1.node_seq()[i]).start
            == d0.node_seq()[i].start && d1.node_seq()[i].end == d0.node_seq()[i].end by {
        }
        assert forall|i: int, s: Symbol<char>| #[trigger] d1.child(i, s) == d0.child(i, s) by {
        }
        assert forall|i: int, s: Symbol<char>|
            0 <= i < d1.node_seq().len() && (#[trigger] d1.child(i, s)) is Some implies s == spec_get(
                w,
                d1.node_seq()[d1.child(i, s)->0@ as int].start as int,
            ) by {
            assert(d0.child(i, s) is Some);
            lemma_lookup_some(d0.edge_seq()[i], s);
            let x = d0.child(i, s)->0@ as int;
            assert(d1.node_seq()[x].start == d0.node_seq()[x].start);
        }
        assert forall|i: int, j: int, s: Symbol<char>, t: Symbol<char>|
            0 <= i < d1.node_seq().len() && 0 <= j < d1.node_seq().len() && (#[trigger] d1.child(i, s)) is Some
                && #[trigger] d1.child(j, t) == d1.child(i, s) implies i == j && s == t by {
            assert(d0.child(i, s) is Some);
            assert(d0.child(j, t) == d0.child(i, s));
        }
        assert forall|i: int| 0 < i < d1.node_seq().len() && (#[trigger] d1.edge_seq()[i]).len() == 0 implies d1.node_seq()[i].end
            == w.len() by {
            assert(d0.edge_seq()[i].len() == 0);
            assert(d1.node_seq()[i].end == d0.node_seq()[i].end);
        }
        assert forall|i: int| 0 < i < d1.node_seq().len() && (#[trigger] d1.node_seq()[i]).start
            == d1.node_seq()[i].end implies d1.node_seq()[i].start == w.len() by {
            assert(d0.node_seq()[i].start == d0.node_seq()[i].end);
        }
    }
}

/// Adding a leaf (case B) keeps the shape.
proof fn lemma_leaf_shaped(d0: SuffixTreeData, d1: SuffixTreeData, w: Seq<char>, pos: int, node: int, c: Symbol<char>)
    requires
        d0.wf(),
        shaped(d0, w),
        leaf_added(d0, d1, w, pos, node, c),
        0 <= node < d0.node_seq().len(),
        d0.child(node, c) is None,
        c == spec_get(w, pos),
        0 <= pos <= w.len() < isize::MAX,
        d0.node_seq().len() + 2 < isize::MAX,
    ensures
        shaped(d1, w),
{
    let m = d0.node_seq().len() as int;
    assert forall|i: int, s: Symbol<char>| 0 <= i < m && i != node implies #[trigger] d1.child(i, s) == d0.child(i, s) by {
        assert(d1.edge_seq()[i] == d0.edge_seq()[i]);
    }
    assert forall|s: Symbol<char>| #[trigger] d1.child(m, s) is None by {
    }
    assert forall|i: int, s: Symbol<char>| 0 <= i < m && (#[trigger] d0.child(i, s)) is Some implies d0.child(i, s)->0@ < m by {
        lemma_lookup_some(d0.edge_seq()[i], s);
    }
    assert forall|i: int, s: Symbol<char>|
        0 <= i < d1.node_seq().len() && (#[trigger] d1.child(i, s)) is Some implies s == spec_get(
            w,
            d1.node_seq()[d1.child(i, s)->0@ as int].start as int,
        ) by {
        if i == m {
        } else if i == node && s == c {
            assert(d1.node_seq()[m].start == pos);
        } else {
            assert(d1.child(i, s) == d0.child(i, s));
            assert(d0.child(i, s) is Some);
            let x = d0.child(i, s)->0@ as int;
            assert(x < m);
            assert(d1.node_seq()[x] == d0.node_seq()[x]);
        }
    }
    assert forall|i: int, j: int, s: Symbol<char>, t: Symbol<char>|
        0 <= i < d1.node_seq().len() && 0 <= j < d1.node_seq().len() && (#[trigger] d1.child(i, s)) is Some
            && #[trigger] d1.child(j, t) == d1.child(i, s) implies i == j && s == t by {
        assert(i != m && j != m);
        let new_i = i == node && s == c;
        let new_j = j == node && t == c;
        if !new_i {
            assert(d1.child(i, s) == d0.child(i, s));
            assert(d0.child(i, s) is Some);
            assert(d0.child(i, s)->0@ < m);
        }
        if !new_j {
            assert(d1.child(j, t) == d0.child(j, t));
            assert(d0.child(j, t) is Some);
            assert(d0.child(j, t)->0@ < m);
        }
        if !new_i && !new_j {
            assert(d0.child(j, t) == d0.child(i, s));
        }
    }
    assert forall|i: int| 0 < i < d1.node_seq().len() && (#[trigger] d1.edge_seq()[i]).len() == 0 implies d1.node_seq()[i].end
        == w.len() by {
        if i == node {
            lemma_child_listed(d1, node, c);
        } else if i < m {
            assert(d1.edge_seq()[i] == d0.edge_seq()[i]);
        }
    }
    assert forall|i: int| 0 < i < d1.node_seq().len() && (#[trigger] d1.node_seq()[i]).start
        == d1.node_seq()[i].end implies d1.node_seq()[i].start == w.len() by {
        if i < m {
            assert(d1.node_seq()[i] == d0.node_seq()[i]);
        }
    }
}

/// Splitting an edge (case E) keeps the shape, where the symbol at the
/// split point differs from the one added.
proof fn lemma_split_shaped(d0: SuffixTreeData, d1: SuffixTreeData, w: Seq<char>, pos: int, node: int, e: Symbol<char>, len: int)
    requires
        d0.wf(),
        d0.acyclic(),
        shaped(d0, w),
        split_made(d0, d1, w, pos, node, e, len),
        0 <= node < d0.node_seq().len(),
        d0.child(node, e) is Some,
        0 < len < d0.node_seq()[d0.child(node, e)->0@ as int].end - d0.node_seq()[d0.child(node, e)->0@ as int].start,
        spec_get(w, d0.node_seq()[d0.child(node, e)->0@ as int].start + len) != spec_get(w, pos),
        0 <= pos <= w.len() < isize::MAX,
        d0.node_seq().len() + 2 < isize::MAX,
    ensures
        shaped(d1, w),
{
    let m = d0.node_seq().len() as int;
    let ch = d0.child(node, e)->0;
    let r = choose|r: Seq<nat>| d0.ranked_by(r);
    d0.lemma_child_ranked(r, node, e);
    assert(ch@ != node);
    let left = spec_get(w, d0.node_seq()[ch@ as int].start + len);
    let right = spec_get(w, pos);
    assert forall|i: int, s: Symbol<char>| 0 <= i < m && i != node implies #[trigger] d1.child(i, s) == d0.child(i, s) by {
        assert(d1.edge_seq()[i] == d0.edge_seq()[i]);
    }
    assert forall|s: Symbol<char>| #[trigger] d1.child(m + 1, s) is None by {
    }
    assert forall|i: int, s: Symbol<char>| 0 <= i < m && (#[trigger] d0.child(i, s)) is Some implies d0.child(i, s)->0@ < m by {
        lemma_lookup_some(d0.edge_seq()[i], s);
    }
    // the only edge that led to the split node was the active one
    assert forall|i: int, s: Symbol<char>| 0 <= i < m && (#[trigger] d0.child(i, s)) == Some(ch) implies i == node && s == e by {
    }
    assert forall|i: int| 0 <= i < m && i != ch@ implies #[trigger] d1.node_seq()[i] == d0.node_seq()[i] by {
    }
    assert forall|i: int, s: Symbol<char>|
        0 <= i < d1.node_seq().len() && (#[trigger] d1.child(i, s)) is Some implies s == spec_get(
            w,
            d1.node_seq()[d1.child(i, s)->0@ as int].start as int,
        ) by {
        if i == m {
            if s == right {
                assert(d1.node_seq()[m + 1].start == pos);
            } else {
                assert(s == left);
                assert(d1.node_seq()[ch@ as int].start == d0.node_seq()[ch@ as int].start + len);
            }
        } else if i == m + 1 {
        } else if i == node && s == e {
            assert(d1.node_seq()[m].start == d0.node_seq()[ch@ as int].start);
        } else {
            assert(d1.child(i, s) == d0.child(i, s));
            assert(d0.child(i, s) is Some);
            let x = d0.child(i, s)->0@ as int;
            assert(x < m);
            assert(d0.child(i, s) != Some(ch));
            assert(d1.node_seq()[x] == d0.node_seq()[x]);
        }
    }
    assert forall|i: int, j: int, s: Symbol<char>, t: Symbol<char>|
        0 <= i < d1.node_seq().len() && 0 <= j < d1.node_seq().len() && (#[trigger] d1.child(i, s)) is Some
            && #[trigger] d1.child(j, t) == d1.child(i, s) implies i == j && s == t by {
        assert(i != m + 1 && j != m + 1);
        let old_i = i < m && !(i == node && s == e);
        let old_j = j < m && !(j == node && t == e);
        if old_i {
            assert(d1.child(i, s) == d0.child(i, s));
            assert(d0.child(i, s) is Some);
            assert(d0.child(i, s)->0@ < m);
            assert(d0.child(i, s) != Some(ch));
        }
        if old_j {
            assert(d1.child(j, t) == d0.child(j, t));
            assert(d0.child(j, t) is Some);
            assert(d0.child(j, t)->0@ < m);
            assert(d0.child(j, t) != Some(ch));
        }
        if old_i && old_j {
            assert(d0.child(j, t) == d0.child(i, s));
        }
    }
    assert forall|i: int| 0 < i < d1.node_seq().len() && (#[trigger] d1.edge_seq()[i]).len() == 0 implies d1.node_seq()[i].end
        == w.len() by {
        if i == node {
            lemma_child_listed(d1, node, e);
        } else if i == m {
            lemma_child_listed(d1, m, right);
        } else if i < m {
            assert(d1.edge_seq()[i] == d0.edge_seq()[i]);
        }
    }
    assert forall|i: int| 0 < i < d1.node_seq().len() && (#[trigger] d1.node_seq()[i]).start
        == d1.node_seq()[i].end implies d1.node_seq()[i].start == w.len() by {
        if i < m && i != ch@ {
            assert(d1.node_seq()[i] == d0.node_seq()[i]);
        }
    }
}

impl<'a> SuffixTreeBuilder<'a> {
    /// The state agrees with the tables: positions in range, the active point
    /// and the last created node exist, and the node count is bounded.
    spec fn inv(&self, data: SuffixTreeData) -> bool {
        let n = self.word@.len();
        &&& tables_ok(data, n)
        &&& n < isize::MAX / 4
        &&& self.position <= n
        &&& self.remaining <= self.position
        &&& self.active.node@ < data.node_seq().len()
        &&& (self.active.edge matches Some(e) ==> data.child(self.active.node@ as int, e) is Some)
        &&& (self.last_created_node matches Some(l) ==> l@ < data.node_seq().len())
        &&& data.node_seq().len() + 2 * self.remaining <= 1 + 2 * self.position
        &&& point_ok(data, self.active)
    }

    /// Whether the symbol at the current position already follows the
    /// active point (cases C and D).
    spec fn extends(&self, d: SuffixTreeData) -> bool {
        let c = spec_get(self.word@, self.position as int);
        match self.active.edge {
            Some(e) => match d.child(self.active.node@ as int, e) {
                Some(ch) => spec_get(self.word@, d.node_seq()[ch@ as int].start + self.active.len) == c,
                None => false,
            },
            None => d.child(self.active.node@ as int, c) is Some,
        }
    }

    /// The active point one symbol further down: along the active edge, or
    /// onto the edge that starts with the current symbol; reaching the end
    /// of an edge (a one-symbol edge at once) moves the point to the edge's
    /// node.
    spec fn advanced(&self, d: SuffixTreeData) -> Active {
        let c = spec_get(self.word@, self.position as int);
        match self.active.edge {
            Some(e) => {
                let ch = d.child(self.active.node@ as int, e)->0;
                let nd = d.node_seq()[ch@ as int];
                if self.active.len + 1 == nd.end - nd.start {
                    Active { node: ch, edge: None, len: 0 }
                } else {
                    Active { node: self.active.node, edge: Some(e), len: (self.active.len + 1) as usize }
                }
            },
            None => {
                let ch = d.child(self.active.node@ as int, c)->0;
                let nd = d.node_seq()[ch@ as int];
                if nd.end - nd.start <= 1 {
                    Active { node: ch, edge: None, len: 0 }
                } else {
                    Active { node: self.active.node, edge: Some(c), len: 1 }
                }
            },
        }
    }

    /// Where the next shorter suffix continues after a leaf was added: from
    /// the active node's suffix link (or the root), the symbols still to be
    /// placed are walked down.  When the active point lies inside its edge,
    /// the walk keeps that edge and length; otherwise it covers all the
    /// remaining symbols, starting with the first of them.
    spec fn next_active(&self, d: SuffixTreeData) -> Active {
        let start = match d.node_seq()[self.active.node@ as int].link {
            Some(l) => l,
            None => NodeIndex(0),
        };
        let suffix = self.position - self.remaining;
        if self.remaining > self.active.len {
            walk(d, self.word@, start, self.active.edge, self.active.len as int, suffix)
        } else {
            walk(d, self.word@, start, edge_symbol_at(self.word@, suffix), self.remaining as int, suffix)
        }
    }

    /// The next active point starts at the root or at a labelled node.
    proof fn lemma_next_active_labelled(&self, d: SuffixTreeData)
        requires
            tables_ok(d, self.word@.len()),
            shaped(d, self.word@),
            tidy(d),
            self.active.node@ < d.node_seq().len(),
            self.active.edge matches Some(e) ==> e is Char,
            self.remaining <= self.position,
        ensures
            labelled_or_root(d, self.next_active(d).node),
    {
        let start = match d.node_seq()[self.active.node@ as int].link {
            Some(l) => l,
            None => NodeIndex(0),
        };
        assert(start@ < d.node_seq().len()) by {
            if d.node_seq()[self.active.node@ as int].link is Some {
                assert(d.wf());
            }
        }
        let suffix = self.position - self.remaining;
        if self.remaining > self.active.len {
            lemma_walk_labelled(d, self.word@, start, self.active.edge, self.active.len as int, suffix);
        } else {
            lemma_walk_labelled(
                d,
                self.word@,
                start,
                edge_symbol_at(self.word@, suffix),
                self.remaining as int,
                suffix,
            );
        }
    }

    /// Builds the suffix tree of `word`.
    pub fn build_tree<'w, T: Word + ?Sized>(word: &'w T) -> (r: SuffixTree<'w, T>)
        requires
            word.spec_symbols().len() < isize::MAX / 4,
        ensures
            r.spec_word() == word,
            r.wf(),
            shaped(r.spec_data(), word.spec_symbols()),
            tidy(r.spec_data()),
            r.spec_data().node_seq().len() <= 2 * (word.spec_symbols().len() + 1),
    {
        let chars = word.symbols();
        let data = SuffixTreeBuilder::build_data(chars.as_slice());
        SuffixTree::from_parts(data, word)
    }

    /// Builds the suffix tree tables of `word` with Ukkonen's algorithm.
    pub fn build_data(word: &[char]) -> (data: SuffixTreeData)
        requires
            word@.len() < isize::MAX / 4,
        ensures
            tables_ok(data, word@.len()),
            shaped(data, word@),
            tidy(data),
            data.node_seq().len() <= 2 * (word@.len() + 1),
    {
        let mut data = SuffixTreeData::new_with_root();
        let mut this = SuffixTreeBuilder {
            word,
            active: Active { node: NodeIndex::root(), edge: None, len: 0 },
            last_created_node: None,
            remaining: 0,
            position: 0,
        };
        let n = word.len();
        let mut i: usize = 0;
        while i <= n
            invariant
                n == word@.len(),
                this.word == word,
                i == this.position,
                i <= n + 1,
                tables_ok(data, n as nat),
                n < isize::MAX / 4,
                this.remaining <= this.position,
                this.active.node@ < data.node_seq().len(),
                (this.active.edge matches Some(e) ==> data.child(this.active.node@ as int, e) is Some),
                (this.last_created_node matches Some(l) ==> l@ < data.node_seq().len()),
                data.node_seq().len() + 2 * this.remaining <= 1 + 2 * this.position,
                this.position > 0 ==> data.node_seq().len() + 2 * this.remaining <= 2 * this.position,
                this.position == 0 ==> data.node_seq().len() == 1 && this.active.node@ == 0 && this.active.edge is None
                    && forall|s: Symbol<char>| #[trigger] data.child(0, s) is None,
                this.active.len <= this.remaining,
                point_ok(data, this.active),
                shaped(data, word@),
                tidy(data),
                i <= n ==> labelled_or_root(data, this.active.node),
            decreases n + 1 - i,
        {
            let c = Word::get(word, i);
            this.last_created_node = None;
            loop
                invariant_except_break
                    this.word == word,
                    n == word@.len(),
                    i == this.position,
                    i <= n,
                    tables_ok(data, n as nat),
                    n < isize::MAX / 4,
                    this.remaining <= this.position,
                    this.active.node@ < data.node_seq().len(),
                    (this.active.edge matches Some(e) ==> data.child(this.active.node@ as int, e) is Some),
                    (this.last_created_node matches Some(l) ==> l@ < data.node_seq().len()),
                    data.node_seq().len() + 2 * this.remaining <= 1 + 2 * this.position,
                    this.position > 0 ==> data.node_seq().len() + 2 * this.remaining <= 2 * this.position,
                    this.position == 0 ==> data.node_seq().len() == 1 && this.active.node@ == 0
                        && this.active.edge is None && forall|s: Symbol<char>| #[trigger] data.child(0, s) is None,
                    this.active.len <= this.remaining,
                    point_ok(data, this.active),
                    shaped(data, word@),
                    tidy(data),
                    labelled_or_root(data, this.active.node),
                ensures
                    this.word == word,
                    i == this.position,
                    i <= n,
                    tables_ok(data, n as nat),
                    this.remaining <= this.position + 1,
                    this.active.node@ < data.node_seq().len(),
                    this.active.edge matches Some(e) ==> data.child(this.active.node@ as int, e) is Some,
                    this.last_created_node matches Some(l) ==> l@ < data.node_seq().len(),
                    data.node_seq().len() + 2 * this.remaining <= 2 + 2 * this.position,
                    this.active.len <= this.remaining,
                    point_ok(data, this.active),
                    shaped(data, word@),
                    tidy(data),
                    i < n ==> labelled_or_root(data, this.active.node),
                decreases this.remaining,
            {
                proof {
                    lemma_active_edge_char(data, word@, this.active);
                }
                let is_implicit_add = this.add_next_suffix(&mut data);

                // After adding with case C/D
                if is_implicit_add {
                    this.remaining += word.size_of_symbol(c);
                    break;
                }
                if this.remaining == 0 {
                    break;
                }
                // After adding with case B/E the next active point is needed.
                let remaining_char = word.try_get(this.position - this.remaining);
                match remaining_char {
                    Some(rc) => {
                        this.remaining -= word.size_of(rc);
                    },
                    None => {
                        // a position before the current one always holds a symbol
                        proof {
                            assert(false);
                        }
                    },
                }
                let ghost before = this;
                this.active = this.find_next_active(&data);
                proof {
                    before.lemma_next_active_labelled(data);
                }
            }
            // Case A
            this.position += word.size_of_symbol(c);
            i += 1;
        }
        data
    }

    /// Where a node was created earlier in this phase, its suffix link is set
    /// to `to`, the node at which the current suffix continues.
    fn link_last_to(&self, data: &mut SuffixTreeData, to: NodeIndex)
        requires
            tables_ok(*old(data), self.word@.len()),
            to@ < old(data).node_seq().len(),
            self.last_created_node matches Some(l) ==> l@ < old(data).node_seq().len(),
            shaped(*old(data), self.word@),
            tidy(*old(data)),
            labelled_or_root(*old(data), to),
        ensures
            tables_ok(*final(data), self.word@.len()),
            linked(*old(data), *final(data), self.last_created_node, to),
            shaped(*final(data), self.word@),
            tidy(*final(data)),
            forall|x: int| 0 <= x < old(data).node_seq().len() ==> (#[trigger] final(data).node_seq()[x]).start
                == old(data).node_seq()[x].start && final(data).node_seq()[x].end == old(data).node_seq()[x].end,
    {
        let ghost d0 = *data;
        if let Some(last_created_node) = self.last_created_node {
            data.insert_link(last_created_node, to);
            proof {
                lemma_link_keeps_tree(d0, *data, last_created_node@ as int, to, self.word@.len());
            }
        }
        proof {
            lemma_link_shaped(d0, *data, self.word@, self.last_created_node, to);
            lemma_link_tidy(d0, *data, self.last_created_node, to);
        }
    }

    /// Adds the suffix ending at the current position at the active point.
    /// Returns `true` when it was already present (cases C and D), `false`
    /// when a leaf was added (cases B and E).
    fn add_next_suffix(&mut self, data: &mut SuffixTreeData) -> (implicit: bool)
        requires
            old(self).inv(*old(data)),
            old(self).active.len <= old(self).remaining,
            shaped(*old(data), old(self).word@),
            tidy(*old(data)),
            labelled_or_root(*old(data), old(self).active.node),
        ensures
            shaped(*final(data), old(self).word@),
            tidy(*final(data)),
            !implicit ==> labelled_or_root(*final(data), old(self).active.node),
            implicit && spec_get(old(self).word@, old(self).position as int) is Char ==> labelled_or_root(
                *final(data),
                final(self).active.node,
            ),
            final(self).word == old(self).word,
            final(self).position == old(self).position,
            final(self).remaining == old(self).remaining,
            tables_ok(*final(data), old(self).word@.len()),
            final(self).active.node@ < final(data).node_seq().len(),
            final(self).active.edge matches Some(e) ==> final(data).child(final(self).active.node@ as int, e) is Some,
            final(self).last_created_node matches Some(l) ==> l@ < final(data).node_seq().len(),
            implicit ==> final(data).node_seq().len() == old(data).node_seq().len(),
            implicit ==> final(self).active.len <= old(self).remaining + 1,
            !implicit ==> final(data).node_seq().len() <= old(data).node_seq().len() + 2,
            !implicit && old(self).active.edge is None ==> final(data).node_seq().len() == old(
                data,
            ).node_seq().len() + 1,
            !implicit ==> final(self).active.len <= old(self).remaining,
            implicit == old(self).extends(*old(data)),
            implicit || old(self).active.edge is None ==> point_ok(*final(data), final(self).active),
            implicit ==> linked(*old(data), *final(data), old(self).last_created_node, old(self).active.node)
                && final(self).active == old(self).advanced(*old(data))
                && final(self).last_created_node == old(self).last_created_node,
            !implicit ==> final(self).active == old(self).active,
            !implicit && old(self).active.edge is None ==> final(self).last_created_node == Some(
                old(self).active.node,
            ) && exists|dm: SuffixTreeData|
                #[trigger] leaf_added(
                    *old(data),
                    dm,
                    old(self).word@,
                    old(self).position as int,
                    old(self).active.node@ as int,
                    spec_get(old(self).word@, old(self).position as int),
                ) && linked(dm, *final(data), old(self).last_created_node, old(self).active.node),
            !implicit && old(self).active.edge is Some ==> final(self).last_created_node == Some(
                NodeIndex(old(data).node_seq().len() as usize),
            ) && exists|dm: SuffixTreeData|
                #[trigger] split_made(
                    *old(data),
                    dm,
                    old(self).word@,
                    old(self).position as int,
                    old(self).active.node@ as int,
                    old(self).active.edge->0,
                    old(self).active.len as int,
                ) && linked(
                    dm,
                    *final(data),
                    old(self).last_created_node,
                    NodeIndex(old(data).node_seq().len() as usize),
                ),
    {
        let c = Word::get(self.word, self.position);
        let Active { node, edge, len } = self.active;
        if let Some(edge) = edge {
            match data.get_edge(node, edge) {
                Some((edge_index, edgen)) => {
                    let edgen = *edgen;
                    let other = Word::get(self.word, edgen.start + len);
                    if other == c {
                        // Case D.  A node split earlier in this phase spells the
                        // suffix one symbol longer than the one that continues
                        // here, so its suffix link leads to `node`; left unset,
                        // the next phase restarts from the root and loses a leaf
                        // (the tree of "aabaaa" would miss the suffix "a").
                        let ghost dd = *data;
                        self.link_last_to(data, node);
                        let other_len = self.word.size_of_symbol(other);
                        self.active = if len + other_len == edgen.end - edgen.start {
                            Active { node: edge_index, edge: None, len: 0 }
                        } else {
                            Active { node, edge: Some(edge), len: len + other_len }
                        };
                        proof {
                            assert(data.node_seq()[edge_index@ as int].start == dd.node_seq()[edge_index@ as int].start);
                            assert(data.node_seq()[edge_index@ as int].end == dd.node_seq()[edge_index@ as int].end);
                            if node@ != 0 {
                                assert(data.node_seq()[node@ as int].start == dd.node_seq()[node@ as int].start);
                                assert(data.node_seq()[node@ as int].end == dd.node_seq()[node@ as int].end);
                            }
                        }
                        true
                    } else {
                        // Case E
                        let ghost d0 = *data;
                        let created_node = self.create_node_split_edge(data);
                        proof {
                            lemma_split_tidy(
                                d0,
                                *data,
                                self.word@,
                                self.position as int,
                                node@ as int,
                                edge,
                                len as int,
                            );
                            let r = choose|r: Seq<nat>| d0.ranked_by(r);
                            d0.lemma_child_ranked(r, node@ as int, edge);
                            if node@ != 0 {
                                assert(data.node_seq()[node@ as int] == d0.node_seq()[node@ as int]);
                            }
                            assert(data.node_seq()[created_node@ as int].start < data.node_seq()[created_node@ as int].end);
                            lemma_split_shaped(
                                d0,
                                *data,
                                self.word@,
                                self.position as int,
                                node@ as int,
                                edge,
                                len as int,
                            );
                        }
                        let ghost d2 = *data;
                        self.link_last_to(data, created_node);
                        proof {
                            if node@ != 0 {
                                assert(data.node_seq()[node@ as int].start == d2.node_seq()[node@ as int].start);
                                assert(data.node_seq()[node@ as int].end == d2.node_seq()[node@ as int].end);
                            }
                        }
                        self.last_created_node = Some(created_node);
                        false
                    }
                },
                None => {
                    // the active edge always exists
                    proof {
                        assert(false);
                    }
                    false
                },
            }
        } else {
            // Insert the symbol at the node itself
            if let Some((child, childn)) = data.get_edge(node, c) {
                // Case C: a one-symbol edge is passed at once
                let one = self.word.size_of_symbol(c);
                self.active = if childn.end - childn.start <= one {
                    Active { node: child, edge: None, len: 0 }
                } else {
                    Active { node, edge: Some(c), len: one }
                };
                let ghost dd = *data;
                proof {
                    if c is Char {
                        lemma_char_child_labelled(dd, self.word@, node@ as int, c);
                    }
                }
                // as in case D, a node split earlier in this phase links here
                self.link_last_to(data, node);
                proof {
                    assert(data.node_seq()[child@ as int].start == dd.node_seq()[child@ as int].start);
                    assert(data.node_seq()[child@ as int].end == dd.node_seq()[child@ as int].end);
                    if node@ != 0 {
                        assert(data.node_seq()[node@ as int].start == dd.node_seq()[node@ as int].start);
                        assert(data.node_seq()[node@ as int].end == dd.node_seq()[node@ as int].end);
                    }
                }
                true
            } else {
                // Case B
                let ghost d0 = *data;
                let leaf = self.create_node_leaf(data);
                let ghost d1 = *data;
                data.insert_edge(node, c, leaf);
                proof {
                    lemma_leaf_keeps_tree(d0, d1, *data, node@ as int, c, leaf, self.word@.len());
                    let m = d0.node_seq().len() as int;
                    assert(leaf == NodeIndex(m as usize));
                    assert(d1.edge_seq()[node@ as int] == d0.edge_seq()[node@ as int]);
                    assert forall|i: int| 0 <= i < m && i != node@ implies #[trigger] data.edge_seq()[i]
                        == d0.edge_seq()[i] by {
                        assert(d1.edge_seq()[i] == d0.edge_seq()[i]);
                    }
                    assert forall|s: Symbol<char>| #[trigger] data.child(node@ as int, s) == if s == c {
                        Some(NodeIndex(m as usize))
                    } else {
                        d0.child(node@ as int, s)
                    } by {
                        assert(d1.child(node@ as int, s) == d0.child(node@ as int, s));
                    }
                    assert(data.edge_seq()[m] == d1.edge_seq()[m]);
                    assert(leaf_added(d0, *data, self.word@, self.position as int, node@ as int, c));
                }
                let ghost dm = *data;
                proof {
                    lemma_leaf_shaped(d0, dm, self.word@, self.position as int, node@ as int, c);
                    assert(NodeIndex(node@ as usize) == node);
                    lemma_leaf_tidy(d0, dm, self.word@, self.position as int, node@ as int, c);
                    if node@ != 0 {
                        assert(dm.node_seq()[node@ as int] == d0.node_seq()[node@ as int]);
                    }
                }
                self.link_last_to(data, node);
                proof {
                    if node@ != 0 {
                        assert(data.node_seq()[node@ as int].start == dm.node_seq()[node@ as int].start);
                        assert(data.node_seq()[node@ as int].end == dm.node_seq()[node@ as int].end);
                    }
                }
                self.last_created_node = Some(node);
                false
            }
        }
    }

    /// Moves the active point to where the next shorter suffix continues:
    /// follows the suffix link (or goes to the root) and walks down the edges
    /// that the remaining symbols span.
    fn find_next_active(&self, data: &SuffixTreeData) -> (r: Active)
        requires
            tables_ok(*data, self.word@.len()),
            self.remaining <= self.position <= self.word@.len(),
            self.active.node@ < data.node_seq().len(),
        ensures
            r == self.next_active(*data),
            r.node@ < data.node_seq().len(),
            r.edge matches Some(e) ==> data.child(r.node@ as int, e) is Some,
            r.len <= self.remaining,
            point_ok(*data, r),
    {
        let ghost rank = choose|r: Seq<nat>| data.ranked_by(r);
        let mut suffix = self.position - self.remaining;
        let mut next_node = match data.get_link(self.active.node) {
            Some(l) => l,
            None => NodeIndex::root(),
        };
        let mut next_edge = self.active.edge;
        let mut next_len = if self.remaining > self.active.len {
            self.active.len
        } else {
            next_edge = match self.word.try_get(suffix) {
                Some(ch) => Some(Symbol::Char(ch)),
                None => None,
            };
            self.remaining
        };
        loop
            invariant_except_break
                tables_ok(*data, self.word@.len()),
                data.ranked_by(rank),
                self.position <= self.word@.len(),
                next_node@ < data.node_seq().len(),
                next_len <= self.remaining,
                suffix + next_len <= self.position,
                walk(*data, self.word@, next_node, next_edge, next_len as int, suffix as int)
                    == self.next_active(*data),
            ensures
                (Active { node: next_node, edge: next_edge, len: next_len }) == self.next_active(*data),
                next_node@ < data.node_seq().len(),
                next_edge matches Some(e) ==> data.child(next_node@ as int, e) is Some,
                next_len <= self.remaining,
                point_ok(*data, Active { node: next_node, edge: next_edge, len: next_len }),
            decreases data.node_seq().len() - rank[next_node@ as int],
        {
            let edge = match next_edge {
                Some(e) => e,
                None => {
                    next_len = 0;
                    break ;
                },
            };
            if next_len == 0 {
                next_edge = None;
                break ;
            }
            let (edge_node, edgen) = match data.get_edge(next_node, edge) {
                Some(p) => p,
                None => {
                    next_len = 0;
                    next_edge = None;
                    break ;
                },
            };
            if edgen.end - edgen.start <= next_len {
                proof {
                    data.lemma_child_ranked(rank, next_node@ as int, edge);
                }
                suffix += edgen.end - edgen.start;
                next_len -= edgen.end - edgen.start;
                next_node = edge_node;
                next_edge = match self.word.try_get(suffix) {
                    Some(ch) => Some(Symbol::Char(ch)),
                    None => None,
                };
            } else {
                break ;
            }
        }
        Active { node: next_node, edge: next_edge, len: next_len }
    }

    /// Creates the leaf for the suffix that ends at the current position
    /// (case B).
    fn create_node_leaf(&self, data: &mut SuffixTreeData) -> (r: NodeIndex)
        requires
            old(data).wf(),
            old(data).node_seq().len() <= isize::MAX,
            self.position <= self.word@.len(),
        ensures
            r@ == old(data).node_seq().len(),
            final(data).node_seq() == old(data).node_seq().push(
                Node { start: self.position, end: self.word@.len() as usize, link: None },
            ),
            final(data).edge_seq() == old(data).edge_seq().push(Seq::empty()),
    {
        data.insert_node(Node { start: self.position, end: self.word.size(), link: None })
    }

    /// Splits the active edge at the active point (case E): a middle node
    /// takes the first part of the label, the old node keeps the rest, and a
    /// new leaf receives the current position.  Returns the middle node.
    fn create_node_split_edge(&self, data: &mut SuffixTreeData) -> (mid: NodeIndex)
        requires
            self.inv(*old(data)),
            self.active.edge is Some,
            self.active.len <= self.remaining,
        ensures
            tables_ok(*final(data), self.word@.len()),
            mid@ == old(data).node_seq().len(),
            final(data).node_seq().len() == old(data).node_seq().len() + 2,
            final(data).child(self.active.node@ as int, self.active.edge->0) == Some(mid),
            split_made(
                *old(data),
                *final(data),
                self.word@,
                self.position as int,
                self.active.node@ as int,
                self.active.edge->0,
                self.active.len as int,
            ),
    {
        let ghost d0 = *data;
        let ghost n = self.word@.len();
        let node = self.active.node;
        let len = self.active.len;
        let edge_char = match self.active.edge {
            Some(e) => e,
            None => {
                proof {
                    assert(false);
                }
                Symbol::Terminal
            },
        };
        let (edge_index, edge) = match data.get_edge(node, edge_char) {
            Some((i, nd)) => (i, *nd),
            None => {
                proof {
                    assert(false);
                }
                (NodeIndex::root(), Node::root())
            },
        };
        let left = Word::get(self.word, edge.start + len);
        let right = Word::get(self.word, self.position);
        // The active point lies strictly inside the edge, so both parts of
        // the label are nonempty.
        let cut = len;
        let mid = Node { start: edge.start, end: edge.start + cut, link: None };
        let right_node = Node { start: self.position, end: self.word.size(), link: None };
        // the old node keeps the rest of the old label
        {
            let nd = data.get_node_mut(edge_index);
            *nd = Node { start: edge.start + cut, end: edge.end, link: edge.link };
        }
        let ghost d1 = *data;
        let mid_index = data.insert_node(mid);
        let right_node_index = data.insert_node(right_node);
        let ghost d2 = *data;
        // the edge that led to the old node now leads to the middle node
        data.insert_edge(node, edge_char, mid_index);
        let ghost d3 = *data;
        data.insert_edge(mid_index, left, edge_index);
        let ghost d4 = *data;
        data.insert_edge(mid_index, right, right_node_index);
        proof {
            lemma_split_keeps_tree(d0, d1, d2, d3, d4, *data, node@ as int, edge_char, edge_index, mid_index, right_node_index, left, right, n);
            let m = d0.node_seq().len() as int;
            let d5 = *data;
            assert(mid_index == NodeIndex(m as usize));
            assert(right_node_index == NodeIndex((m + 1) as usize));
            assert(d5.node_seq() =~= d0.node_seq().update(
                edge_index@ as int,
                Node { start: (edge.start + cut) as usize, ..edge },
            ).push(mid).push(right_node));
            assert forall|i: int| 0 <= i < m && i != node@ implies #[trigger] d5.edge_seq()[i] == d0.edge_seq()[i] by {
                assert(d5.edge_seq()[i] == d4.edge_seq()[i]);
                assert(d4.edge_seq()[i] == d3.edge_seq()[i]);
                assert(d3.edge_seq()[i] == d2.edge_seq()[i]);
                assert(d2.edge_seq()[i] == d0.edge_seq()[i]);
            }
            assert(d5.edge_seq()[node@ as int] == d3.edge_seq()[node@ as int]);
            assert(d2.edge_seq()[node@ as int] == d0.edge_seq()[node@ as int]);
            assert forall|s: Symbol<char>| #[trigger] d5.child(node@ as int, s) == if s == edge_char {
                Some(NodeIndex(m as usize))
            } else {
                d0.child(node@ as int, s)
            } by {
                assert(d3.child(node@ as int, s) == d5.child(node@ as int, s));
            }
            assert(d3.edge_seq()[m] == d2.edge_seq()[m]);
            assert(d2.edge_seq()[m].len() == 0);
            assert forall|s: Symbol<char>| #[trigger] d5.child(m, s) == if s == right {
                Some(NodeIndex((m + 1) as usize))
            } else if s == left {
                Some(edge_index)
            } else {
                None
            } by {
                assert(d5.child(m, s) == if s == right { Some(right_node_index) } else { d4.child(m, s) });
                assert(d4.child(m, s) == if s == left { Some(edge_index) } else { d3.child(m, s) });
                assert(d3.child(m, s) is None);
            }
            assert(d5.edge_seq()[m + 1] == d2.edge_seq()[m + 1]);
        }
        mid_index
    }
}

/// Setting a suffix link keeps the tables well formed.
proof fn lemma_link_keeps_tree(d0: SuffixTreeData, d1: SuffixTreeData, from: int, to: NodeIndex, n: nat)
    requires
        tables_ok(d0, n),
        0 <= from < d0.node_seq().len(),
        to@ < d0.node_seq().len(),
        d1.node_seq() == d0.node_seq().update(from, Node { link: Some(to), ..d0.node_seq()[from] }),
        d1.edge_seq() == d0.edge_seq(),
    ensures
        tables_ok(d1, n),
{
    let r = choose|r: Seq<nat>| d0.ranked_by(r);
    assert(d1.ranked_by(r));
    assert forall|i: int| 0 <= i < d1.node_seq().len() implies match (#[trigger] d1.node_seq()[i]).link {
        Some(l) => l@ < d1.node_seq().len(),
        None => true,
    } by {
        if i != from {
            assert(d1.node_seq()[i] == d0.node_seq()[i]);
        }
    }
    assert forall|i: int| 0 <= i < d1.node_seq().len() implies (#[trigger] d1.node_seq()[i]).start
        <= d1.node_seq()[i].end <= n by {
        assert(d0.node_seq()[i].start <= d0.node_seq()[i].end <= n);
    }
}

/// Adding a leaf below `node` keeps the tables well formed.
proof fn lemma_leaf_keeps_tree(
    d0: SuffixTreeData,
    d1: SuffixTreeData,
    d2: SuffixTreeData,
    node: int,
    c: Symbol<char>,
    leaf: NodeIndex,
    n: nat,
)
    requires
        tables_ok(d0, n),
        0 <= node < d0.node_seq().len(),
        leaf@ == d0.node_seq().len(),
        d1.node_seq().len() == d0.node_seq().len() + 1,
        forall|i: int| 0 <= i < d0.node_seq().len() ==> #[trigger] d1.node_seq()[i] == d0.node_seq()[i],
        d1.node_seq()[leaf@ as int].start <= d1.node_seq()[leaf@ as int].end <= n,
        d1.node_seq()[leaf@ as int].link is None,
        d1.edge_seq() == d0.edge_seq().push(Seq::empty()),
        d2.wf(),
        d2.node_seq() == d1.node_seq(),
        d2.edge_seq().len() == d1.edge_seq().len(),
        forall|i: int| 0 <= i < d1.edge_seq().len() && i != node ==> #[trigger] d2.edge_seq()[i] == d1.edge_seq()[i],
        forall|k: int|
            0 <= k < d2.edge_seq()[node].len() ==> {
                let e = #[trigger] d2.edge_seq()[node][k];
                e == (c, leaf) || d1.edge_seq()[node].contains(e)
            },
    ensures
        tables_ok(d2, n),
{
    let r = choose|r: Seq<nat>| d0.ranked_by(r);
    let r2 = r.push(d0.node_seq().len() as nat);
    assert forall|i: int, k: int|
        0 <= i < d2.edge_seq().len() && 0 <= k < d2.edge_seq()[i].len() implies r2[i] < r2[(#[trigger] d2.edge_seq()[i][k]).1@ as int] by {
        if i == node {
            let e = d2.edge_seq()[node][k];
            if e != (c, leaf) {
                let j = choose|j: int| 0 <= j < d1.edge_seq()[node].len() && d1.edge_seq()[node][j] == e;
                assert(d0.edge_seq()[node][j] == e);
            }
        } else {
            assert(d2.edge_seq()[i] == d1.edge_seq()[i]);
            if i < d0.node_seq().len() {
                assert(d1.edge_seq()[i] == d0.edge_seq()[i]);
            }
        }
    }
    assert(d2.ranked_by(r2));
    assert forall|i: int| 0 <= i < d2.node_seq().len() implies (#[trigger] d2.node_seq()[i]).start
        <= d2.node_seq()[i].end <= n by {
        if i < d0.node_seq().len() {
            assert(d0.node_seq()[i].start <= d0.node_seq()[i].end <= n);
        }
    }
}

/// Splitting an edge keeps the tables well formed: the old numbering, with
/// the numbers from the split node's up moved by one, the middle node taking
/// the split node's old number and the new leaf the largest one, grows along
/// every edge.
proof fn lemma_split_keeps_tree(
    d0: SuffixTreeData,
    d1: SuffixTreeData,
    d2: SuffixTreeData,
    d3: SuffixTreeData,
    d4: SuffixTreeData,
    d5: SuffixTreeData,
    node: int,
    edge_char: Symbol<char>,
    ei: NodeIndex,
    mid: NodeIndex,
    leaf: NodeIndex,
    left: Symbol<char>,
    right: Symbol<char>,
    n: nat,
)
    requires
        tables_ok(d0, n),
        0 <= node < d0.node_seq().len(),
        d0.child(node, edge_char) == Some(ei),
        mid@ == d0.node_seq().len(),
        leaf@ == d0.node_seq().len() + 1,
        d1.node_seq().len() == d0.node_seq().len(),
        d1.edge_seq() == d0.edge_seq(),
        forall|i: int| 0 <= i < d0.node_seq().len() && i != ei@ ==> #[trigger] d1.node_seq()[i] == d0.node_seq()[i],
        d1.node_seq()[ei@ as int].start <= d1.node_seq()[ei@ as int].end <= n,
        d1.node_seq()[ei@ as int].link == d0.node_seq()[ei@ as int].link,
        d2.node_seq().len() == d1.node_seq().len() + 2,
        forall|i: int| 0 <= i < d1.node_seq().len() ==> #[trigger] d2.node_seq()[i] == d1.node_seq()[i],
        d2.node_seq()[d1.node_seq().len() as int].start <= d2.node_seq()[d1.node_seq().len() as int].end <= n,
        d2.node_seq()[d1.node_seq().len() as int + 1].start <= d2.node_seq()[d1.node_seq().len() as int + 1].end <= n,
        d2.node_seq()[d1.node_seq().len() as int].link is None,
        d2.node_seq()[d1.node_seq().len() as int + 1].link is None,
        d2.edge_seq() == d1.edge_seq().push(Seq::empty()).push(Seq::empty()),
        // first insertion: node -> mid
        d3.wf(),
        d3.node_seq() == d2.node_seq(),
        d3.edge_seq().len() == d2.edge_seq().len(),
        forall|i: int| 0 <= i < d2.edge_seq().len() && i != node ==> #[trigger] d3.edge_seq()[i] == d2.edge_seq()[i],
        forall|s: Symbol<char>|
            #[trigger] d3.child(node, s) == if s == edge_char {
                Some(mid)
            } else {
                d2.child(node, s)
            },
        forall|k: int|
            0 <= k < d3.edge_seq()[node].len() ==> {
                let x = #[trigger] d3.edge_seq()[node][k];
                x == (edge_char, mid) || d2.edge_seq()[node].contains(x)
            },
        // second insertion: mid -> old node
        d4.wf(),
        d4.node_seq() == d3.node_seq(),
        d4.edge_seq().len() == d3.edge_seq().len(),
        forall|i: int|
            0 <= i < d3.edge_seq().len() && i != d1.node_seq().len() ==> #[trigger] d4.edge_seq()[i]
                == d3.edge_seq()[i],
        forall|k: int|
            0 <= k < d4.edge_seq()[d1.node_seq().len() as int].len() ==> {
                let x = #[trigger] d4.edge_seq()[d1.node_seq().len() as int][k];
                x == (left, ei) || d3.edge_seq()[d1.node_seq().len() as int].contains(x)
            },
        // third insertion: mid -> new leaf
        d5.wf(),
        d5.node_seq() == d4.node_seq(),
        d5.edge_seq().len() == d4.edge_seq().len(),
        forall|i: int|
            0 <= i < d4.edge_seq().len() && i != d1.node_seq().len() ==> #[trigger] d5.edge_seq()[i]
                == d4.edge_seq()[i],
        forall|s: Symbol<char>|
            #[trigger] d5.child(d1.node_seq().len() as int, s) == if s == right {
                Some(leaf)
            } else {
                d4.child(d1.node_seq().len() as int, s)
            },
        forall|k: int|
            0 <= k < d5.edge_seq()[d1.node_seq().len() as int].len() ==> {
                let x = #[trigger] d5.edge_seq()[d1.node_seq().len() as int][k];
                x == (right, leaf) || d4.edge_seq()[d1.node_seq().len() as int].contains(x)
            },
    ensures
        tables_ok(d5, n),
        d5.child(node, edge_char) == Some(mid),
{
    let len0 = d0.node_seq().len();
    let m = len0 as int;
    let r = choose|r: Seq<nat>| d0.ranked_by(r);
    d0.lemma_child_ranked(r, node, edge_char);
    let e = ei@ as int;
    let re = r[e];
    let r2 = Seq::new(
        (len0 + 2) as nat,
        |i: int|
            if i < m {
                if r[i] >= re {
                    (r[i] + 1) as nat
                } else {
                    r[i]
                }
            } else if i == m {
                re
            } else {
                (len0 + 1) as nat
            },
    );
    assert forall|i: int, k: int|
        0 <= i < d5.edge_seq().len() && 0 <= k < d5.edge_seq()[i].len() implies r2[i] < r2[(#[trigger] d5.edge_seq()[i][k]).1@ as int] by {
        let x = d5.edge_seq()[i][k];
        assert(r[e] < r.len());
        if i == m {
            if x == (right, leaf) {
                assert(r2[i] == re);
                assert(r2[m + 1] == len0 + 1);
            } else {
                let j = choose|j: int| 0 <= j < d4.edge_seq()[m].len() && d4.edge_seq()[m][j] == x;
                assert(d4.edge_seq()[m][j] == x);
                if x != (left, ei) {
                    assert(d3.edge_seq()[m] == d2.edge_seq()[m]);
                    assert(d2.edge_seq()[m].len() == 0);
                    assert(false);
                }
                assert(r2[i] == re);
                assert(r2[e] == re + 1);
            }
        } else if i == m + 1 {
            assert(d5.edge_seq()[i] == d4.edge_seq()[i]);
            assert(d4.edge_seq()[i] == d3.edge_seq()[i]);
            assert(d3.edge_seq()[i] == d2.edge_seq()[i]);
            assert(d2.edge_seq()[i].len() == 0);
            assert(false);
        } else {
            assert(d5.edge_seq()[i] == d4.edge_seq()[i]);
            assert(d4.edge_seq()[i] == d3.edge_seq()[i]);
            if i == node {
                if x == (edge_char, mid) {
                    assert(r[node] < re);
                    assert(r2[node] == r[node]);
                    assert(r2[m] == re);
                } else {
                    let j = choose|j: int| 0 <= j < d2.edge_seq()[node].len() && d2.edge_seq()[node][j] == x;
                    assert(d2.edge_seq()[node][j] == x);
                    assert(d2.edge_seq()[node] == d0.edge_seq()[node]);
                    assert(d0.edge_seq()[node][j] == x);
                    assert(r[node] < r[x.1@ as int]);
                    assert(x.1@ < m);
                }
            } else {
                assert(d3.edge_seq()[i] == d2.edge_seq()[i]);
                assert(d2.edge_seq()[i] == d0.edge_seq()[i]);
                assert(d0.edge_seq()[i][k] == x);
                assert(r[i] < r[x.1@ as int]);
                assert(x.1@ < m);
            }
        }
    }
    assert(d5.ranked_by(r2));
    assert(d5.edge_seq()[node] == d4.edge_seq()[node]);
    assert(d4.edge_seq()[node] == d3.edge_seq()[node]);
    assert(d3.child(node, edge_char) == Some(mid));
    assert forall|i: int| 0 <= i < d5.node_seq().len() implies (#[trigger] d5.node_seq()[i]).start
        <= d5.node_seq()[i].end <= n by {
        if i < m && i != e {
            assert(d0.node_seq()[i].start <= d0.node_seq()[i].end <= n);
        }
    }
}

} // verus!
