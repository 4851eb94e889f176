use vstd::prelude::*;

verus! {

/// The children of a node of the naive suffix tree.
#[derive(Debug)]
pub struct Nodes(pub Vec<Node>);

/// A node: its label is the word's range `start..end`.
#[derive(Debug)]
pub struct Node {
    pub start: usize,
    pub end: usize,
    pub nodes: Nodes,
}

/// The label of a node.
pub open spec fn label(nd: Node, w: Seq<char>) -> Seq<char> {
    w.subrange(nd.start as int, nd.end as int)
}

/// Puts `lab` in front of each string.
pub open spec fn prefix_all(lab: Seq<char>, ps: Seq<Seq<char>>) -> Seq<Seq<char>> {
    ps.map_values(|t: Seq<char>| lab + t)
}

/// The strings spelled from the top of `nd`'s label down to each leaf below it.
pub open spec fn node_paths(nd: Node, w: Seq<char>) -> Seq<Seq<char>>
    decreases nd,
{
    if nd.nodes.0@.len() == 0 {
        seq![label(nd, w)]
    } else {
        prefix_all(label(nd, w), list_paths(nd.nodes.0@, w))
    }
}

/// The strings spelled down to each leaf below a list of nodes, in order.
pub open spec fn list_paths(l: Seq<Node>, w: Seq<char>) -> Seq<Seq<char>>
    decreases l,
{
    if l.len() == 0 {
        Seq::empty()
    } else {
        list_paths(l.drop_last(), w) + node_paths(l.last(), w)
    }
}

/// Node invariant: labels are ranges of the word, a node with children has a
/// non-empty label, and the children are in order.
pub open spec fn node_ok(nd: Node, w: Seq<char>) -> bool
    decreases nd,
{
    &&& nd.start <= nd.end <= w.len()
    &&& nd.nodes.0@.len() > 0 ==> nd.start < nd.end
    &&& list_ok(nd.nodes.0@, w)
}

/// List invariant: non-empty labels start with different symbols, a node
/// with an empty label is a leaf and comes last, and every node is in order.
pub open spec fn list_ok(l: Seq<Node>, w: Seq<char>) -> bool
    decreases l,
{
    &&& forall|i: int, j: int|
        #![trigger l[i], l[j]]
        0 <= i < l.len() && 0 <= j < l.len() && i != j && l[i].start < l[i].end && l[j].start < l[j].end
            ==> w[l[i].start as int] != w[l[j].start as int]
    &&& forall|i: int|
        0 <= i < l.len() && (#[trigger] l[i]).start == l[i].end ==> i == l.len() - 1 && l[i].nodes.0@.len()
            == 0
    &&& forall|i: int| 0 <= i < l.len() ==> node_ok(#[trigger] l[i], w)
}

/// How many of the strings have `p` as a prefix.
pub open spec fn num_prefixed(ps: Seq<Seq<char>>, p: Seq<char>) -> nat
    decreases ps.len(),
{
    if ps.len() == 0 {
        0
    } else {
        num_prefixed(ps.drop_last(), p) + if p.is_prefix_of(ps.last()) {
            1nat
        } else {
            0nat
        }
    }
}

/// Counting is additive over concatenation.
pub proof fn lemma_num_add(a: Seq<Seq<char>>, b: Seq<Seq<char>>, p: Seq<char>)
    ensures
        num_prefixed(a + b, p) == num_prefixed(a, p) + num_prefixed(b, p),
    decreases b.len(),
{
    if b.len() > 0 {
        assert((a + b).drop_last() =~= a + b.drop_last());
        lemma_num_add(a, b.drop_last(), p);
    } else {
        assert(a + b =~= a);
    }
}

/// `p` is a prefix of `lab + t` exactly when it is a prefix of `lab`, or,
/// when longer, starts with `lab` and goes on with a prefix of `t`.
pub proof fn lemma_prefix_concat(lab: Seq<char>, t: Seq<char>, p: Seq<char>)
    ensures
        p.is_prefix_of(lab + t) == if p.len() <= lab.len() {
            p.is_prefix_of(lab)
        } else {
            lab.is_prefix_of(p) && p.subrange(lab.len() as int, p.len() as int).is_prefix_of(t)
        },
{
    let c = lab + t;
    if p.len() <= lab.len() {
        if p.is_prefix_of(c) {
            assert(p =~= lab.subrange(0, p.len() as int));
        }
        if p.is_prefix_of(lab) {
            assert(p =~= c.subrange(0, p.len() as int));
        }
    } else {
        let q = p.subrange(lab.len() as int, p.len() as int);
        if p.is_prefix_of(c) {
            assert(lab =~= p.subrange(0, lab.len() as int));
            assert(q =~= t.subrange(0, q.len() as int));
        }
        if lab.is_prefix_of(p) && q.is_prefix_of(t) {
            assert(p =~= lab + q);
            assert(c.subrange(0, p.len() as int) =~= lab + t.subrange(0, q.len() as int));
            assert(p =~= c.subrange(0, p.len() as int));
        }
    }
}

/// Counting among strings that all start with `lab`.
pub proof fn lemma_num_prefix_all(lab: Seq<char>, ps: Seq<Seq<char>>, p: Seq<char>)
    ensures
        num_prefixed(prefix_all(lab, ps), p) == if p.len() <= lab.len() {
            if p.is_prefix_of(lab) {
                ps.len()
            } else {
                0
            }
        } else {
            if lab.is_prefix_of(p) {
                num_prefixed(ps, p.subrange(lab.len() as int, p.len() as int))
            } else {
                0
            }
        },
    decreases ps.len(),
{
    if ps.len() > 0 {
        assert(prefix_all(lab, ps).drop_last() =~= prefix_all(lab, ps.drop_last()));
        lemma_num_prefix_all(lab, ps.drop_last(), p);
        lemma_prefix_concat(lab, ps.last(), p);
    }
}

/// The paths below a list split over a concatenation.
pub proof fn lemma_list_paths_add(a: Seq<Node>, b: Seq<Node>, w: Seq<char>)
    ensures
        list_paths(a + b, w) == list_paths(a, w) + list_paths(b, w),
    decreases b.len(),
{
    if b.len() > 0 {
        assert((a + b).drop_last() =~= a + b.drop_last());
        lemma_list_paths_add(a, b.drop_last(), w);
        assert(list_paths(a + b, w) =~= list_paths(a, w) + list_paths(b, w));
    } else {
        assert(a + b =~= a);
        assert(list_paths(a + b, w) =~= list_paths(a, w) + list_paths(b, w));
    }
}

/// Every node has at least one path.
pub proof fn lemma_node_paths_len(nd: Node, w: Seq<char>)
    ensures
        node_paths(nd, w).len() >= 1,
    decreases nd,
{
    if nd.nodes.0@.len() > 0 {
        let l = nd.nodes.0@;
        assert(l =~= l.drop_last().push(l.last()));
        lemma_list_paths_add(l.drop_last(), seq![l.last()], w);
        assert(seq![l.last()].drop_last() =~= Seq::<Node>::empty());
        lemma_node_paths_len(l.last(), w);
    }
}

/// The paths of a list are those of its first `k` nodes, of node `k` and of
/// the rest.
pub proof fn lemma_list_paths_split(l: Seq<Node>, k: int, w: Seq<char>)
    requires
        0 <= k < l.len(),
    ensures
        list_paths(l, w) == list_paths(l.subrange(0, k), w) + node_paths(l[k], w) + list_paths(
            l.subrange(k + 1, l.len() as int),
            w,
        ),
{
    let a = l.subrange(0, k);
    let b = l.subrange(k + 1, l.len() as int);
    assert(l =~= a + seq![l[k]] + b);
    lemma_list_paths_add(a + seq![l[k]], b, w);
    lemma_list_paths_add(a, seq![l[k]], w);
    let one = seq![l[k]];
    assert(one.drop_last() =~= Seq::<Node>::empty());
    assert(one.last() == l[k]);
    assert(list_paths(one.drop_last(), w) =~= Seq::<Seq<char>>::empty());
    assert(list_paths(one, w) =~= node_paths(l[k], w));
}

/// The paths of a list with one node put in place of another.
pub proof fn lemma_list_paths_update(l: Seq<Node>, k: int, x: Node, w: Seq<char>)
    requires
        0 <= k < l.len(),
    ensures
        list_paths(l.update(k, x), w) == list_paths(l.subrange(0, k), w) + node_paths(x, w) + list_paths(
            l.subrange(k + 1, l.len() as int),
            w,
        ),
{
    let m = l.update(k, x);
    lemma_list_paths_split(m, k, w);
    assert(m.subrange(0, k) =~= l.subrange(0, k));
    assert(m.subrange(k + 1, m.len() as int) =~= l.subrange(k + 1, l.len() as int));
}

/// A list of nodes none of which has a path starting with `p` has no path
/// starting with `p`.
pub proof fn lemma_num_list_zero(l: Seq<Node>, w: Seq<char>, p: Seq<char>)
    requires
        forall|i: int| 0 <= i < l.len() ==> num_prefixed(#[trigger] node_paths(l[i], w), p) == 0,
    ensures
        num_prefixed(list_paths(l, w), p) == 0,
    decreases l.len(),
{
    if l.len() > 0 {
        lemma_num_list_zero(l.drop_last(), w, p);
        lemma_num_add(list_paths(l.drop_last(), w), node_paths(l.last(), w), p);
    }
}

/// Counting over a node's paths.
pub proof fn lemma_num_node(nd: Node, w: Seq<char>, p: Seq<char>)
    ensures
        num_prefixed(node_paths(nd, w), p) == if p.len() <= label(nd, w).len() {
            if p.is_prefix_of(label(nd, w)) {
                node_paths(nd, w).len() as int
            } else {
                0
            }
        } else {
            if label(nd, w).is_prefix_of(p) && nd.nodes.0@.len() > 0 {
                num_prefixed(
                    list_paths(nd.nodes.0@, w),
                    p.subrange(label(nd, w).len() as int, p.len() as int),
                ) as int
            } else {
                0
            }
        },
{
    let lab = label(nd, w);
    if nd.nodes.0@.len() == 0 {
        let ps = seq![lab];
        assert(node_paths(nd, w) == ps);
        assert(ps.drop_last() =~= Seq::<Seq<char>>::empty());
        assert(ps.last() == lab);
        assert(num_prefixed(ps.drop_last(), p) == 0);
        if p.len() > lab.len() {
            assert(!p.is_prefix_of(lab));
        }
    } else {
        lemma_num_prefix_all(lab, list_paths(nd.nodes.0@, w), p);
    }
}

/// The number of leaves below a node.
pub open spec fn leaf_count(nd: Node) -> nat
    decreases nd,
{
    if nd.nodes.0@.len() == 0 {
        1
    } else {
        list_count(nd.nodes.0@)
    }
}

/// The number of leaves below a list of nodes.
pub open spec fn list_count(l: Seq<Node>) -> nat
    decreases l,
{
    if l.len() == 0 {
        0
    } else {
        list_count(l.drop_last()) + leaf_count(l.last())
    }
}

/// Leaves and paths correspond.
pub proof fn lemma_counts(nd: Node, w: Seq<char>)
    ensures
        node_paths(nd, w).len() == leaf_count(nd),
    decreases nd,
{
    if nd.nodes.0@.len() > 0 {
        lemma_list_counts(nd.nodes.0@, w);
    }
}

/// Leaves and paths correspond.
pub proof fn lemma_list_counts(l: Seq<Node>, w: Seq<char>)
    ensures
        list_paths(l, w).len() == list_count(l),
    decreases l,
{
    if l.len() > 0 {
        lemma_list_counts(l.drop_last(), w);
        lemma_counts(l.last(), w);
    }
}

/// A leading part of a list has no more leaves than the list.
pub proof fn lemma_list_count_prefix(l: Seq<Node>, i: int)
    requires
        0 <= i <= l.len(),
    ensures
        list_count(l.subrange(0, i)) <= list_count(l),
    decreases l.len() - i,
{
    if i < l.len() {
        lemma_list_count_prefix(l, i + 1);
        assert(l.subrange(0, i + 1).drop_last() =~= l.subrange(0, i));
    } else {
        assert(l.subrange(0, i) =~= l);
    }
}

impl Node {
    /// The number of leaves below the node (itself, when it has no children).
    pub fn count_leaves(&self) -> (r: usize)
        requires
            leaf_count(*self) <= usize::MAX,
        ensures
            r == leaf_count(*self),
        decreases *self,
    {
        if self.nodes.0.len() == 0 {
            1
        } else {
            let l = &self.nodes.0;
            let mut sum: usize = 0;
            let mut i: usize = 0;
            while i < l.len()
                invariant
                    *l == self.nodes.0,
                    list_count(l@) <= usize::MAX,
                    i <= l@.len(),
                    sum == list_count(l@.subrange(0, i as int)),
                decreases l@.len() - i,
            {
                proof {
                    assert(l@.subrange(0, i + 1).drop_last() =~= l@.subrange(0, i as int));
                    lemma_list_count_prefix(l@, i + 1);
                    assert(decreases_to!(*self => l@[i as int]));
                }
                let c = l[i].count_leaves();
                sum = sum + c;
                i += 1;
            }
            proof {
                assert(l@.subrange(0, i as int) =~= l@);
            }
            sum
        }
    }
}

/// Counting never exceeds the number of strings.
pub proof fn lemma_num_le_len(ps: Seq<Seq<char>>, p: Seq<char>)
    ensures
        num_prefixed(ps, p) <= ps.len(),
    decreases ps.len(),
{
    if ps.len() > 0 {
        lemma_num_le_len(ps.drop_last(), p);
    }
}

/// A node that the text at `q` cannot go through contributes nothing.
proof fn lemma_node_no_match(nd: Node, w: Seq<char>, q: Seq<char>)
    requires
        nd.start <= nd.end <= w.len(),
        ({
            let lab = label(nd, w);
            let m = if lab.len() < q.len() {
                lab.len()
            } else {
                q.len()
            };
            lab.subrange(0, m as int) != q.subrange(0, m as int)
        }),
    ensures
        num_prefixed(node_paths(nd, w), q) == 0,
{
    lemma_num_node(nd, w, q);
    let lab = label(nd, w);
    if q.len() <= lab.len() {
        if q.is_prefix_of(lab) {
            assert(q.subrange(0, q.len() as int) =~= q);
        }
    } else {
        if lab.is_prefix_of(q) {
            assert(lab.subrange(0, lab.len() as int) =~= lab);
        }
    }
}

/// Whether the first `m` symbols of the label of `nd` are those of `p` from `off`.
fn label_matches(w: &[char], nd: &Node, p: &[char], off: usize, m: usize) -> (r: bool)
    requires
        nd.start + m <= nd.end <= w@.len(),
        off + m <= p@.len(),
    ensures
        r == (w@.subrange(nd.start as int, nd.start + m) == p@.subrange(off as int, off + m)),
{
    let plen = p.len();
    let mut i: usize = 0;
    while i < m
        invariant
            plen == p@.len(),
            nd.start + m <= nd.end <= w@.len(),
            off + m <= p@.len(),
            i <= m,
            w@.subrange(nd.start as int, nd.start + i) == p@.subrange(off as int, off + i),
        decreases m - i,
    {
        if w[nd.start + i] != p[off + i] {
            proof {
                assert(w@.subrange(nd.start as int, nd.start + m)[i as int] != p@.subrange(off as int, off + m)[i as int]);
            }
            return false;
        }
        i += 1;
        proof {
            assert(w@.subrange(nd.start as int, nd.start + i) =~= p@.subrange(off as int, off + i));
        }
    }
    true
}

/// The node that the text of `p` from `off` leads to in the list `l`: the
/// first node whose label agrees with the text as far as both go; when the
/// text goes on past the label, the search goes on among its children.
fn find_in<'b>(l: &'b Vec<Node>, w: &[char], p: &[char], off: usize) -> (r: Option<&'b Node>)
    requires
        list_ok(l@, w@),
        off <= p@.len(),
    ensures
        ({
            let q = p@.subrange(off as int, p@.len() as int);
            &&& q.len() == 0 ==> match r {
                Some(nd) => l@.len() > 0 && *nd == l@[0],
                None => l@.len() == 0,
            }
            &&& q.len() > 0 ==> match r {
                Some(nd) => node_ok(*nd, w@) && node_paths(*nd, w@).len() == num_prefixed(list_paths(l@, w@), q),
                None => num_prefixed(list_paths(l@, w@), q) == 0,
            }
        }),
    decreases l@,
{
    let ghost q = p@.subrange(off as int, p@.len() as int);
    let plen = p.len();
    let rem = plen - off;
    let mut k: usize = 0;
    while k < l.len()
        invariant
            list_ok(l@, w@),
            off <= p@.len(),
            rem == p@.len() - off,
            plen == p@.len(),
            q == p@.subrange(off as int, p@.len() as int),
            k <= l@.len(),
            q.len() == 0 ==> k == 0,
            q.len() > 0 ==> forall|j: int| 0 <= j < k ==> num_prefixed(#[trigger] node_paths(l@[j], w@), q) == 0,
        decreases l@.len() - k,
    {
        let nd = &l[k];
        proof {
            assert(node_ok(l@[k as int], w@));
        }
        let lab_len = nd.end - nd.start;
        let m = if lab_len < rem {
            lab_len
        } else {
            rem
        };
        let ghost lab = label(*nd, w@);
        proof {
            if m == 0 {
                assert(w@.subrange(nd.start as int, nd.start + m) =~= p@.subrange(off as int, off + m));
            }
        }
        if label_matches(w, nd, p, off, m) {
            proof {
                assert(lab.subrange(0, m as int) =~= w@.subrange(nd.start as int, nd.start + m));
                assert(q.subrange(0, m as int) =~= p@.subrange(off as int, off + m));
                if q.len() > 0 {
                    lemma_list_paths_split(l@, k as int, w@);
                    let a = l@.subrange(0, k as int);
                    let b = l@.subrange(k + 1, l@.len() as int);
                    assert forall|j: int| 0 <= j < a.len() implies num_prefixed(#[trigger] node_paths(a[j], w@), q) == 0 by {
                        assert(a[j] == l@[j]);
                    }
                    lemma_num_list_zero(a, w@, q);
                    assert forall|j: int| 0 <= j < b.len() implies num_prefixed(#[trigger] node_paths(b[j], w@), q) == 0 by {
                        assert(b[j] == l@[k + 1 + j]);
                        let y = l@[k + 1 + j];
                        assert(node_ok(y, w@));
                        if y.start < y.end {
                            assert(nd.start < nd.end) by {
                                if nd.start == nd.end {
                                    assert(k == l@.len() - 1);
                                }
                            }
                            assert(w@[nd.start as int] != w@[y.start as int]);
                            assert(lab.subrange(0, m as int)[0] == q[0]);
                            let laby = label(y, w@);
                            assert(laby[0] == w@[y.start as int]);
                            lemma_node_no_match(y, w@, q);
                        } else {
                            assert(k + 1 + j == l@.len() - 1);
                            lemma_num_node(y, w@, q);
                        }
                    }
                    lemma_num_list_zero(b, w@, q);
                    lemma_num_add(list_paths(a, w@), node_paths(l@[k as int], w@), q);
                    lemma_num_add(list_paths(a, w@) + node_paths(l@[k as int], w@), list_paths(b, w@), q);
                    lemma_num_node(*nd, w@, q);
                }
            }
            if rem <= lab_len {
                proof {
                    if q.len() > 0 {
                        assert(q =~= lab.subrange(0, q.len() as int));
                    }
                }
                return Some(nd);
            } else {
                proof {
                    assert(lab =~= q.subrange(0, lab.len() as int));
                    assert(p@.subrange(off + lab_len, p@.len() as int) =~= q.subrange(lab.len() as int, q.len() as int));
                    assert(decreases_to!(l@ => l@[k as int]));
                }
                let r = find_in(&nd.nodes.0, w, p, off + lab_len);
                return r;
            }
        }
        proof {
            if q.len() > 0 {
                assert(lab.subrange(0, m as int) =~= w@.subrange(nd.start as int, nd.start + m));
                assert(q.subrange(0, m as int) =~= p@.subrange(off as int, off + m));
                lemma_node_no_match(*nd, w@, q);
            }
        }
        k += 1;
    }
    proof {
        if q.len() > 0 {
            lemma_num_list_zero(l@, w@, q);
        }
    }
    None
}

/// The number of strings with prefix `p` among `ps` and one more string `t`.
pub proof fn lemma_num_push(ps: Seq<Seq<char>>, t: Seq<char>, p: Seq<char>)
    ensures
        num_prefixed(ps.push(t), p) == num_prefixed(ps, p) + if p.is_prefix_of(t) {
            1nat
        } else {
            0nat
        },
{
    assert(ps.push(t).drop_last() =~= ps);
}

/// The `i`-th path of node `k` is among the paths of the list.
pub proof fn lemma_path_in_list(l: Seq<Node>, k: int, i: int, w: Seq<char>)
    requires
        0 <= k < l.len(),
        0 <= i < node_paths(l[k], w).len(),
    ensures
        list_paths(l, w).contains(node_paths(l[k], w)[i]),
{
    lemma_list_paths_split(l, k, w);
    let a = list_paths(l.subrange(0, k), w);
    assert(list_paths(l, w)[a.len() + i] == node_paths(l[k], w)[i]);
}

/// When every path of a list is longer than `bound`, no label is empty.
pub proof fn lemma_no_empty_label(l: Seq<Node>, w: Seq<char>, bound: int)
    requires
        list_ok(l, w),
        0 <= bound,
        forall|k: int| 0 <= k < list_paths(l, w).len() ==> #[trigger] list_paths(l, w)[k].len() > bound,
    ensures
        forall|j: int| 0 <= j < l.len() ==> (#[trigger] l[j]).start < l[j].end,
{
    assert forall|j: int| 0 <= j < l.len() implies (#[trigger] l[j]).start < l[j].end by {
        assert(node_ok(l[j], w));
        if l[j].start == l[j].end {
            assert(l[j].nodes.0@.len() == 0);
            assert(node_paths(l[j], w) == seq![label(l[j], w)]);
            lemma_path_in_list(l, j, 0, w);
            let t = node_paths(l[j], w)[0];
            let z = choose|z: int| 0 <= z < list_paths(l, w).len() && list_paths(l, w)[z] == t;
            assert(list_paths(l, w)[z].len() > bound);
        }
    }
}

/// Appending a leaf for the suffix at `s` whose first symbol no label
/// starts with.
pub proof fn lemma_push_leaf(l: Seq<Node>, w: Seq<char>, s: int, x: Node)
    requires
        x.start == s,
        x.end == w.len(),
        x.nodes.0@.len() == 0,
        list_ok(l, w),
        0 <= s <= w.len(),
        forall|k: int| 0 <= k < list_paths(l, w).len() ==> #[trigger] list_paths(l, w)[k].len() > w.len() - s,
        s < w.len() ==> forall|j: int|
            0 <= j < l.len() && (#[trigger] l[j]).start < l[j].end ==> w[l[j].start as int] != w[s],
    ensures
        list_ok(l.push(x), w),
        list_paths(l.push(x), w) == list_paths(l, w).push(w.subrange(s, w.len() as int)),
{
    let l2 = l.push(x);
    assert(l2.drop_last() =~= l);
    {
        lemma_no_empty_label(l, w, w.len() - s);
        assert(node_paths(x, w) =~= seq![w.subrange(s, w.len() as int)]);
        assert(list_paths(l2, w) =~= list_paths(l, w).push(w.subrange(s, w.len() as int)));
        assert forall|i: int, j: int|
            #![trigger l2[i], l2[j]]
            0 <= i < l2.len() && 0 <= j < l2.len() && i != j && l2[i].start < l2[i].end && l2[j].start < l2[j].end
                implies w[l2[i].start as int] != w[l2[j].start as int] by {
            if i < l.len() && j < l.len() {
                assert(l2[i] == l[i] && l2[j] == l[j]);
            } else if i < l.len() {
                assert(l2[i] == l[i]);
            } else {
                assert(l2[j] == l[j]);
            }
        }
        assert forall|i: int| 0 <= i < l2.len() && (#[trigger] l2[i]).start == l2[i].end implies i == l2.len() - 1
            && l2[i].nodes.0@.len() == 0 by {
            if i < l.len() {
                assert(l2[i] == l[i]);
            }
        }
        assert forall|i: int| 0 <= i < l2.len() implies node_ok(#[trigger] l2[i], w) by {
            if i < l.len() {
                assert(l2[i] == l[i]);
            } else {
                assert(list_ok(x.nodes.0@, w));
            }
        }
    }
}

/// Whether `p` is a prefix of `t`, as a count.
pub open spec fn one_if_prefix(p: Seq<char>, t: Seq<char>) -> nat {
    if p.is_prefix_of(t) {
        1
    } else {
        0
    }
}

/// Putting, at place `k` of a list, a node with the same first symbol whose
/// paths count as the old node's and one more, `t`.
pub proof fn lemma_replace(l: Seq<Node>, k: int, x: Node, w: Seq<char>, t: Seq<char>, bound: int)
    requires
        list_ok(l, w),
        0 <= k < l.len(),
        node_ok(x, w),
        x.start == l[k].start,
        x.start < x.end,
        l[k].start < l[k].end,
        forall|p: Seq<char>|
            #[trigger] num_prefixed(node_paths(x, w), p) == num_prefixed(node_paths(l[k], w), p) + one_if_prefix(
                p,
                t,
            ),
        node_paths(x, w).len() == node_paths(l[k], w).len() + 1,
        forall|i: int| 0 <= i < list_paths(l, w).len() ==> #[trigger] list_paths(l, w)[i].len() > bound,
        forall|i: int| 0 <= i < node_paths(x, w).len() ==> #[trigger] node_paths(x, w)[i].len() >= bound,
    ensures
        list_ok(l.update(k, x), w),
        forall|p: Seq<char>|
            #[trigger] num_prefixed(list_paths(l.update(k, x), w), p) == num_prefixed(list_paths(l, w), p)
                + one_if_prefix(p, t),
        list_paths(l.update(k, x), w).len() == list_paths(l, w).len() + 1,
        forall|i: int|
            0 <= i < list_paths(l.update(k, x), w).len() ==> #[trigger] list_paths(l.update(k, x), w)[i].len()
                >= bound,
{
    let l2 = l.update(k, x);
    assert forall|i: int, j: int|
        #![trigger l2[i], l2[j]]
        0 <= i < l2.len() && 0 <= j < l2.len() && i != j && l2[i].start < l2[i].end && l2[j].start < l2[j].end
            implies w[l2[i].start as int] != w[l2[j].start as int] by {
        assert(l[i].start == l2[i].start && l[j].start == l2[j].start);
        assert(l[i].start < l[i].end && l[j].start < l[j].end);
    }
    assert forall|i: int| 0 <= i < l2.len() && (#[trigger] l2[i]).start == l2[i].end implies i == l2.len() - 1
        && l2[i].nodes.0@.len() == 0 by {
        assert(i != k);
        assert(l2[i] == l[i]);
    }
    assert forall|i: int| 0 <= i < l2.len() implies node_ok(#[trigger] l2[i], w) by {
        if i != k {
            assert(l2[i] == l[i]);
        }
    }
    lemma_list_paths_update(l, k, x, w);
    lemma_list_paths_split(l, k, w);
    let a = list_paths(l.subrange(0, k), w);
    let b = list_paths(l.subrange(k + 1, l.len() as int), w);
    let nx = node_paths(x, w);
    let no = node_paths(l[k], w);
    assert forall|p: Seq<char>|
        #[trigger] num_prefixed(list_paths(l2, w), p) == num_prefixed(list_paths(l, w), p) + one_if_prefix(
            p,
            t,
        ) by {
        lemma_num_add(a, nx, p);
        lemma_num_add(a + nx, b, p);
        lemma_num_add(a, no, p);
        lemma_num_add(a + no, b, p);
        assert(num_prefixed(nx, p) == num_prefixed(no, p) + one_if_prefix(p, t));
    }
    assert forall|i: int| 0 <= i < list_paths(l2, w).len() implies #[trigger] list_paths(l2, w)[i].len() >= bound by {
        let lp = list_paths(l2, w);
        if i < a.len() {
            assert(lp[i] == list_paths(l, w)[i]);
        } else if i < a.len() + nx.len() {
            assert(lp[i] == nx[i - a.len()]);
        } else {
            assert(lp[i] == list_paths(l, w)[i - nx.len() + no.len()]);
        }
    }
}

/// A node whose children received one more path for the suffix after its
/// label receives that path, behind its label.
pub proof fn lemma_extend_node(old: Node, x: Node, w: Seq<char>, s: int, m: int)
    requires
        node_ok(old, w),
        old.start < old.end,
        m == old.end - old.start,
        0 <= s,
        s + m <= w.len(),
        label(old, w) == w.subrange(s, s + m),
        x.start == old.start,
        x.end == old.end,
        old.nodes.0@.len() > 0,
        list_ok(x.nodes.0@, w),
        forall|p: Seq<char>|
            #[trigger] num_prefixed(list_paths(x.nodes.0@, w), p) == num_prefixed(list_paths(old.nodes.0@, w), p)
                + one_if_prefix(p, w.subrange(s + m, w.len() as int)),
        list_paths(x.nodes.0@, w).len() == list_paths(old.nodes.0@, w).len() + 1,
        forall|i: int|
            0 <= i < list_paths(x.nodes.0@, w).len() ==> #[trigger] list_paths(x.nodes.0@, w)[i].len() >= w.len()
                - s - m,
    ensures
        node_ok(x, w),
        forall|p: Seq<char>|
            #[trigger] num_prefixed(node_paths(x, w), p) == num_prefixed(node_paths(old, w), p) + one_if_prefix(
                p,
                w.subrange(s, w.len() as int),
            ),
        node_paths(x, w).len() == node_paths(old, w).len() + 1,
        forall|i: int| 0 <= i < node_paths(x, w).len() ==> #[trigger] node_paths(x, w)[i].len() >= w.len() - s,
{
    let lab = label(old, w);
    let tail = w.subrange(s + m, w.len() as int);
    assert(lab + tail =~= w.subrange(s, w.len() as int));
    assert(x.nodes.0@.len() > 0) by {
        if x.nodes.0@.len() == 0 {
            assert(list_paths(x.nodes.0@, w).len() == 0);
        }
    }
    assert forall|p: Seq<char>|
        #[trigger] num_prefixed(node_paths(x, w), p) == num_prefixed(node_paths(old, w), p) + one_if_prefix(
            p,
            w.subrange(s, w.len() as int),
        ) by {
        lemma_num_prefix_all(lab, list_paths(x.nodes.0@, w), p);
        lemma_num_prefix_all(lab, list_paths(old.nodes.0@, w), p);
        lemma_prefix_concat(lab, tail, p);
        if p.len() > lab.len() && lab.is_prefix_of(p) {
            let q = p.subrange(lab.len() as int, p.len() as int);
            assert(num_prefixed(list_paths(x.nodes.0@, w), q) == num_prefixed(list_paths(old.nodes.0@, w), q)
                + one_if_prefix(q, tail));
        }
    }
    assert forall|i: int| 0 <= i < node_paths(x, w).len() implies #[trigger] node_paths(x, w)[i].len() >= w.len() - s by {
        assert(node_paths(x, w)[i] == lab + list_paths(x.nodes.0@, w)[i]);
    }
}

/// Splitting a node after `m` symbols of its label: the first part keeps the
/// node's place, the rest with the old children and a leaf for the suffix
/// after the common part become its children.
pub proof fn lemma_split_node(old: Node, mid: Node, w: Seq<char>, s: int, m: int)
    requires
        node_ok(old, w),
        0 < m < old.end - old.start,
        0 <= s,
        s + m <= w.len(),
        w.subrange(old.start as int, old.start + m) == w.subrange(s, s + m),
        s + m == w.len() || w[old.start + m] != w[s + m],
        mid.start == old.start,
        mid.end == old.start + m,
        mid.nodes.0@.len() == 2,
        mid.nodes.0@[0] == (Node { start: (old.start + m) as usize, end: old.end, nodes: old.nodes }),
        mid.nodes.0@[1].start == s + m,
        mid.nodes.0@[1].end == w.len(),
        mid.nodes.0@[1].nodes.0@.len() == 0,
        forall|i: int| 0 <= i < node_paths(old, w).len() ==> #[trigger] node_paths(old, w)[i].len() > w.len() - s,
    ensures
        node_ok(mid, w),
        forall|p: Seq<char>|
            #[trigger] num_prefixed(node_paths(mid, w), p) == num_prefixed(node_paths(old, w), p) + one_if_prefix(
                p,
                w.subrange(s, w.len() as int),
            ),
        node_paths(mid, w).len() == node_paths(old, w).len() + 1,
        forall|i: int| 0 <= i < node_paths(mid, w).len() ==> #[trigger] node_paths(mid, w)[i].len() >= w.len() - s,
{
    let l = mid.nodes.0@;
    let rest = l[0];
    let leaf = l[1];
    let lab_a = label(mid, w);
    let lab_b = label(rest, w);
    assert(label(old, w) =~= lab_a + lab_b);
    // the children are in order
    assert(node_ok(rest, w));
    assert(node_ok(leaf, w)) by {
        assert(list_ok(leaf.nodes.0@, w));
    }
    assert forall|i: int, j: int|
        #![trigger l[i], l[j]]
        0 <= i < l.len() && 0 <= j < l.len() && i != j && l[i].start < l[i].end && l[j].start < l[j].end
            implies w[l[i].start as int] != w[l[j].start as int] by {
    }
    assert(list_ok(l, w));
    // the paths: those of the old node, then the new suffix
    assert(l.drop_last() =~= seq![rest]);
    let one = seq![rest];
    assert(one.drop_last() =~= Seq::<Node>::empty());
    assert(one.last() == rest);
    assert(list_paths(one.drop_last(), w) =~= Seq::<Seq<char>>::empty());
    assert(list_paths(one, w) =~= node_paths(rest, w));
    let tail = w.subrange(s + m, w.len() as int);
    assert(node_paths(leaf, w) =~= seq![tail]);
    assert(list_paths(l, w) =~= node_paths(rest, w).push(tail));
    if old.nodes.0@.len() == 0 {
        assert(node_paths(old, w) =~= seq![lab_a + lab_b]);
        assert(node_paths(rest, w) =~= seq![lab_b]);
    } else {
        assert(prefix_all(lab_a, node_paths(rest, w)) =~= node_paths(old, w)) by {
            assert forall|i: int| 0 <= i < node_paths(old, w).len() implies #[trigger] prefix_all(
                lab_a,
                node_paths(rest, w),
            )[i] == node_paths(old, w)[i] by {
                let t = list_paths(old.nodes.0@, w)[i];
                assert(lab_a + (lab_b + t) =~= (lab_a + lab_b) + t);
            }
        }
    }
    assert(lab_a + tail =~= w.subrange(s, w.len() as int));
    assert(node_paths(mid, w) =~= node_paths(old, w).push(w.subrange(s, w.len() as int)));
    assert forall|p: Seq<char>|
        #[trigger] num_prefixed(node_paths(mid, w), p) == num_prefixed(node_paths(old, w), p) + one_if_prefix(
            p,
            w.subrange(s, w.len() as int),
        ) by {
        lemma_num_push(node_paths(old, w), w.subrange(s, w.len() as int), p);
    }
}

/// Each path of node `k` is a path of the list, so it is as long as those.
pub proof fn lemma_node_paths_bound(l: Seq<Node>, k: int, w: Seq<char>, bound: int)
    requires
        0 <= k < l.len(),
        forall|i: int| 0 <= i < list_paths(l, w).len() ==> #[trigger] list_paths(l, w)[i].len() > bound,
    ensures
        forall|i: int| 0 <= i < node_paths(l[k], w).len() ==> #[trigger] node_paths(l[k], w)[i].len() > bound,
{
    assert forall|i: int| 0 <= i < node_paths(l[k], w).len() implies #[trigger] node_paths(l[k], w)[i].len() > bound by {
        lemma_path_in_list(l, k, i, w);
        let t = node_paths(l[k], w)[i];
        let z = choose|z: int| 0 <= z < list_paths(l, w).len() && list_paths(l, w)[z] == t;
        assert(list_paths(l, w)[z].len() > bound);
    }
}

impl Nodes {
    /// Adds the suffix of `w` at `s` below these nodes: it follows the node
    /// whose label starts with the suffix's first symbol as far as the two
    /// agree; where the label ends, it goes on among the node's children,
    /// and where they part, the node is split in two; where no label starts
    /// with that symbol, a leaf is appended.
    pub fn add_suffix(&mut self, w: &[char], s: usize)
        requires
            list_ok(old(self).0@, w@),
            s <= w@.len(),
            forall|i: int|
                0 <= i < list_paths(old(self).0@, w@).len() ==> #[trigger] list_paths(old(self).0@, w@)[i].len()
                    > w@.len() - s,
        ensures
            list_ok(final(self).0@, w@),
            forall|p: Seq<char>|
                #[trigger] num_prefixed(list_paths(final(self).0@, w@), p) == num_prefixed(
                    list_paths(old(self).0@, w@),
                    p,
                ) + one_if_prefix(p, w@.subrange(s as int, w@.len() as int)),
            list_paths(final(self).0@, w@).len() == list_paths(old(self).0@, w@).len() + 1,
            forall|i: int|
                0 <= i < list_paths(final(self).0@, w@).len() ==> #[trigger] list_paths(final(self).0@, w@)[i].len()
                    >= w@.len() - s,
        decreases old(self).0@,
    {
        let n = w.len();
        if s == n {
            let x = Node { start: n, end: n, nodes: Nodes::empty() };
            proof {
                lemma_push_leaf(self.0@, w@, s as int, x);
            }
            let ghost l0 = self.0@;
            self.0.push(x);
            proof {
                assert forall|p: Seq<char>|
                    #[trigger] num_prefixed(list_paths(self.0@, w@), p) == num_prefixed(list_paths(l0, w@), p)
                        + one_if_prefix(p, w@.subrange(s as int, w@.len() as int)) by {
                    lemma_num_push(list_paths(l0, w@), w@.subrange(s as int, w@.len() as int), p);
                }
            }
            return;
        }
        let ssc = w[s];
        let mut idx: usize = 0;
        while idx < self.0.len()
            invariant
                self.0@ == old(self).0@,
                list_ok(self.0@, w@),
                n == w@.len(),
                s < n,
                ssc == w@[s as int],
                idx <= self.0@.len(),
                forall|i: int|
                    0 <= i < list_paths(old(self).0@, w@).len() ==> #[trigger] list_paths(old(self).0@, w@)[i].len()
                        > w@.len() - s,
                forall|j: int|
                    0 <= j < idx && (#[trigger] self.0@[j]).start < self.0@[j].end ==> w@[self.0@[j].start as int]
                        != ssc,
            decreases self.0@.len() - idx,
        {
            let nd_start = self.0[idx].start;
            let nd_end = self.0[idx].end;
            proof {
                assert(node_ok(self.0@[idx as int], w@));
            }
            if nd_start < nd_end && w[nd_start] == ssc {
                let lab_len = nd_end - nd_start;
                let mut match_len: usize = 1;
                proof {
                    assert(w@.subrange(nd_start as int, nd_start + 1) =~= w@.subrange(s as int, s + 1));
                }
                while match_len < lab_len && s + match_len < n && w[nd_start + match_len] == w[s + match_len]
                    invariant
                        n == w@.len(),
                        nd_start < nd_end <= n,
                        lab_len == nd_end - nd_start,
                        s < n,
                        1 <= match_len <= lab_len,
                        s + match_len <= n,
                        w@.subrange(nd_start as int, nd_start + match_len) == w@.subrange(s as int, s + match_len),
                    decreases lab_len - match_len,
                {
                    match_len += 1;
                    proof {
                        assert(w@.subrange(nd_start as int, nd_start + match_len) =~= w@.subrange(s as int, s + match_len));
                    }
                }
                let ghost l0 = self.0@;
                let ghost old_node = l0[idx as int];
                let ghost m = match_len as int;
                proof {
                    lemma_node_paths_bound(l0, idx as int, w@, w@.len() - s);
                }
                let mut node = Node { start: 0, end: 0, nodes: Nodes::empty() };
                self.0.set_and_swap(idx, &mut node);
                if match_len == lab_len {
                    // the label is all matched: go on among the children
                    proof {
                        assert(label(old_node, w@) =~= w@.subrange(s as int, s + m));
                        if old_node.nodes.0@.len() == 0 {
                            assert(node_paths(old_node, w@)[0] == label(old_node, w@));
                            assert(false);
                        }
                        assert forall|i: int|
                            0 <= i < list_paths(node.nodes.0@, w@).len() implies #[trigger] list_paths(
                            node.nodes.0@,
                            w@,
                        )[i].len() > w@.len() - (s + match_len) by {
                            assert(node_paths(old_node, w@)[i] == label(old_node, w@) + list_paths(node.nodes.0@, w@)[i]);
                        }
                        assert(decreases_to!(old(self).0@ => old(self).0@[idx as int]));
                    }
                    node.nodes.add_suffix(w, s + match_len);
                    proof {
                        assert(w@.subrange((s + match_len) as int, w@.len() as int) == w@.subrange(s + m, w@.len() as int));
                        lemma_extend_node(old_node, node, w@, s as int, m);
                        lemma_replace(l0, idx as int, node, w@, w@.subrange(s as int, w@.len() as int), w@.len() - s);
                    }
                    let ghost node_v = node;
                    self.0.set_and_swap(idx, &mut node);
                    proof {
                        assert(self.0@ =~= l0.update(idx as int, node_v));
                    }
                } else {
                    // the label and the suffix part: split the node
                    let rest = Node { start: nd_start + match_len, end: nd_end, nodes: node.nodes };
                    let leaf = Node { start: s + match_len, end: n, nodes: Nodes::empty() };
                    let mut children: Vec<Node> = Vec::new();
                    children.push(rest);
                    children.push(leaf);
                    let mut mid = Node { start: nd_start, end: nd_start + match_len, nodes: Nodes(children) };
                    proof {
                        lemma_split_node(old_node, mid, w@, s as int, m);
                        lemma_replace(l0, idx as int, mid, w@, w@.subrange(s as int, w@.len() as int), w@.len() - s);
                    }
                    let ghost mid_v = mid;
                    self.0.set_and_swap(idx, &mut mid);
                    proof {
                        assert(self.0@ =~= l0.update(idx as int, mid_v));
                    }
                }
                return;
            }
            idx += 1;
        }
        // no label starts with the suffix's first symbol: a new leaf
        let x = Node { start: s, end: n, nodes: Nodes::empty() };
        proof {
            lemma_push_leaf(self.0@, w@, s as int, x);
        }
        let ghost l0 = self.0@;
        self.0.push(x);
        proof {
            assert forall|p: Seq<char>|
                #[trigger] num_prefixed(list_paths(self.0@, w@), p) == num_prefixed(list_paths(l0, w@), p)
                    + one_if_prefix(p, w@.subrange(s as int, w@.len() as int)) by {
                lemma_num_push(list_paths(l0, w@), w@.subrange(s as int, w@.len() as int), p);
            }
        }
    }

    /// The node that `p` leads to from these nodes: see `find_in`.
    pub fn find_node<'b>(&'b self, w: &[char], p: &[char]) -> (r: Option<&'b Node>)
        requires
            list_ok(self.0@, w@),
        ensures
            p@.len() == 0 ==> match r {
                Some(nd) => self.0@.len() > 0 && *nd == self.0@[0],
                None => self.0@.len() == 0,
            },
            p@.len() > 0 ==> match r {
                Some(nd) => node_ok(*nd, w@) && node_paths(*nd, w@).len() == num_prefixed(list_paths(self.0@, w@), p@),
                None => num_prefixed(list_paths(self.0@, w@), p@) == 0,
            },
    {
        let r = find_in(&self.0, w, p, 0);
        assert(p@.subrange(0, p@.len() as int) =~= p@);
        r
    }

    /// The number of leaves below the node that `p` leads to, or 0.
    pub fn substring_count(&self, w: &[char], p: &[char]) -> (r: usize)
        requires
            list_ok(self.0@, w@),
            list_count(self.0@) <= usize::MAX,
        ensures
            p@.len() > 0 ==> r == num_prefixed(list_paths(self.0@, w@), p@),
            p@.len() == 0 ==> r == if self.0@.len() > 0 {
                leaf_count(self.0@[0])
            } else {
                0
            },
    {
        match self.find_node(w, p) {
            Some(node) => {
                proof {
                    lemma_counts(*node, w@);
                    lemma_list_counts(self.0@, w@);
                    if p@.len() > 0 {
                        lemma_num_le_len(list_paths(self.0@, w@), p@);
                    } else {
                        lemma_list_paths_split(self.0@, 0, w@);
                    }
                }
                node.count_leaves()
            },
            None => 0,
        }
    }

    /// No nodes.
    pub fn empty() -> (r: Self)
        ensures
            r.0@.len() == 0,
    {
        Nodes(Vec::new())
    }
}

} // verus!
