use vstd::prelude::*;

use crate::ukkonen::data::{NodeIndex, SuffixTreeData};
use crate::word::Symbol;

verus! {

/// The length of the label of `node`.
pub open spec fn label_len(d: SuffixTreeData, node: int) -> usize {
    (d.node_seq()[node].end - d.node_seq()[node].start) as usize
}

/// The leaves below `node`, in the order of the edges' symbols, each given
/// by `suffix_len` less the lengths of the labels on the way down to it
/// (subtracted with wrap-around, as unsigned machine integers are).
pub open spec fn leaves(d: SuffixTreeData, node: int, suffix_len: usize) -> Seq<usize>
    decreases d.height(node), d.edge_seq()[node].len() + 1,
    when d.wf() && d.acyclic() && 0 <= node < d.node_seq().len()
{
    proof {
        d.lemma_height_positive(node);
    }
    let edges = d.edge_seq()[node];
    if edges.len() == 0 {
        seq![suffix_len]
    } else {
        leaves_list(d, node, suffix_len, edges.len() as int)
    }
}

/// The leaves below the first `k` edges of `node`.
pub open spec fn leaves_list(d: SuffixTreeData, node: int, suffix_len: usize, k: int) -> Seq<usize>
    decreases d.height(node), k,
    when d.wf() && d.acyclic() && 0 <= node < d.node_seq().len() && 0 <= k <= d.edge_seq()[node].len()
{
    proof {
        d.lemma_height_positive(node);
    }
    if k <= 0 {
        Seq::empty()
    } else {
        proof {
            d.lemma_height_decreases(node, k - 1);
        }
        let child = d.edge_seq()[node][k - 1].1@ as int;
        leaves_list(d, node, suffix_len, k - 1) + leaves(
            d,
            child,
            vstd::wrapping::usize_specs::wrapping_sub(suffix_len, label_len(d, child)),
        )
    }
}

/// The leaves below the child of each edge of `node`, in the order of the
/// edges, each child taking off its label's length.
pub open spec fn leaves_by_edge(d: SuffixTreeData, node: int, suffix_len: usize) -> Seq<Seq<usize>> {
    d.edge_seq()[node].map_values(
        |e: (Symbol<char>, NodeIndex)|
            leaves(d, e.1@ as int, vstd::wrapping::usize_specs::wrapping_sub(suffix_len, label_len(d, e.1@ as int))),
    )
}

/// The leaves below a node with edges are those below its children, taken
/// edge after edge in the order of the edges (the order of their symbols):
/// first all the leaves below the first child, then all below the second,
/// and so on.
pub proof fn lemma_leaves_in_edge_order(d: SuffixTreeData, node: int, suffix_len: usize)
    requires
        d.wf(),
        d.acyclic(),
        0 <= node < d.node_seq().len(),
        d.edge_seq()[node].len() > 0,
    ensures
        leaves(d, node, suffix_len) == leaves_by_edge(d, node, suffix_len).flatten(),
{
    let edges = d.edge_seq()[node];
    let f = |e: (Symbol<char>, NodeIndex)|
        leaves(d, e.1@ as int, vstd::wrapping::usize_specs::wrapping_sub(suffix_len, label_len(d, e.1@ as int)));
    lemma_leaves_prefix(d, node, suffix_len, edges.len() as int);
    assert(edges.take(edges.len() as int) =~= edges);
    assert(leaves_by_edge(d, node, suffix_len) =~= edges.map_values(f));
    assert(leaves(d, node, suffix_len) == leaves_list(d, node, suffix_len, edges.len() as int));
}

/// The leaves below the first `k` edges, as a concatenation.
proof fn lemma_leaves_prefix(d: SuffixTreeData, node: int, suffix_len: usize, k: int)
    requires
        d.wf(),
        d.acyclic(),
        0 <= node < d.node_seq().len(),
        0 <= k <= d.edge_seq()[node].len(),
    ensures
        leaves_list(d, node, suffix_len, k) == d.edge_seq()[node].take(k).map_values(
            |e: (Symbol<char>, NodeIndex)|
                leaves(d, e.1@ as int, vstd::wrapping::usize_specs::wrapping_sub(suffix_len, label_len(d, e.1@ as int))),
        ).flatten(),
    decreases k,
{
    let edges = d.edge_seq()[node];
    let f = |e: (Symbol<char>, NodeIndex)|
        leaves(d, e.1@ as int, vstd::wrapping::usize_specs::wrapping_sub(suffix_len, label_len(d, e.1@ as int)));
    if k == 0 {
        assert(edges.take(0).map_values(f) =~= Seq::<Seq<usize>>::empty());
    } else {
        lemma_leaves_prefix(d, node, suffix_len, k - 1);
        assert(edges.take(k).map_values(f) =~= edges.take(k - 1).map_values(f).push(f(edges[k - 1])));
        edges.take(k - 1).map_values(f).lemma_flatten_push(f(edges[k - 1]));
        d.lemma_height_decreases(node, k - 1);
    }
}

/// Appends the leaves below `node` to `data`.
pub fn deep(node: NodeIndex, data: &mut Vec<usize>, d: &SuffixTreeData, suffix_len: usize)
    requires
        d.wf(),
        d.acyclic(),
        node@ < d.node_seq().len(),
        forall|i: int| 0 <= i < d.node_seq().len() ==> (#[trigger] d.node_seq()[i]).start <= d.node_seq()[i].end,
    ensures
        final(data)@ == old(data)@ + leaves(*d, node@ as int, suffix_len),
    decreases d.height(node@ as int),
{
    proof {
        d.lemma_height_positive(node@ as int);
    }
    let ghost start = data@;
    match d.get_edges(node) {
        Some(edges) => {
            let mut k: usize = 0;
            while k < edges.len()
                invariant
                    d.wf(),
                    d.acyclic(),
                    node@ < d.node_seq().len(),
                    forall|i: int| 0 <= i < d.node_seq().len() ==> (#[trigger] d.node_seq()[i]).start <= d.node_seq()[i].end,
                    edges@ == d.edge_seq()[node@ as int],
                    k <= edges@.len(),
                    data@ == start + leaves_list(*d, node@ as int, suffix_len, k as int),
                decreases edges@.len() - k,
            {
                let index = edges[k].1;
                proof {
                    d.lemma_height_decreases(node@ as int, k as int);
                }
                let nd = d.get_node(index);
                deep(index, data, d, suffix_len.wrapping_sub(nd.end - nd.start));
                k += 1;
                proof {
                    assert(data@ =~= start + leaves_list(*d, node@ as int, suffix_len, k as int));
                }
            }
            proof {
                assert(data@ =~= start + leaves(*d, node@ as int, suffix_len));
            }
        },
        None => {
            data.push(suffix_len);
            proof {
                assert(data@ =~= start + leaves(*d, node@ as int, suffix_len));
            }
        },
    }
}

} // verus!
