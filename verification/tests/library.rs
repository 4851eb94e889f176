use lib::naive;
use lib::suffix_array::lcp::compute_lcp;
use lib::suffix_array::skew::SuffixArrayBuilder;
use lib::suffix_array::SuffixArray;
use lib::ukkonen::builder::SuffixTreeBuilder;
use lib::ukkonen::data::{Node, NodeIndex, SuffixTreeData};
use lib::ukkonen::SuffixTree;
use lib::word::{symbol_less, Symbol, Word};

#[test]
fn word_of_chars() {
    let w: Vec<char> = vec!['a', 'b', 'c'];
    let s: &[char] = &w;
    assert_eq!(s.size(), 3);
    assert_eq!(s.try_get(1), Some('b'));
    assert_eq!(s.try_get(3), None);
    assert_eq!(Word::get(s, 2), Symbol::Char('c'));
    assert_eq!(Word::get(s, 7), Symbol::Terminal);
    assert_eq!(s.symbols(), vec!['a', 'b', 'c']);
    assert_eq!(s.size_of('a'), 1);
    assert_eq!(s.size_of_symbol(Symbol::Terminal), 1);
}

#[test]
fn word_of_str() {
    let s: &str = "héllo";
    assert_eq!(s.size(), 5);
    assert_eq!(s.try_get(1), Some('é'));
    assert_eq!(s.try_get(5), None);
    assert_eq!(Word::get(s, 4), Symbol::Char('o'));
    assert_eq!(Word::get(s, 5), Symbol::Terminal);
    assert_eq!(s.symbols(), vec!['h', 'é', 'l', 'l', 'o']);
}

#[test]
fn symbols_order_and_print() {
    assert!(symbol_less(Symbol::Terminal, Symbol::Char('a')));
    assert!(!symbol_less(Symbol::Char('a'), Symbol::Terminal));
    assert!(!symbol_less(Symbol::Terminal, Symbol::Terminal));
    assert!(symbol_less(Symbol::Char('a'), Symbol::Char('b')));
    assert!(!symbol_less(Symbol::Char('b'), Symbol::Char('b')));
    assert_eq!(Symbol::Char('x').to_string(), "x");
    assert_eq!(Symbol::Terminal.to_string(), "$");
}

#[test]
fn node_indices() {
    assert_eq!(NodeIndex::root().get(), 0);
    assert_eq!(NodeIndex::new(42).get(), 42);
    let r = Node::root();
    assert_eq!((r.start, r.end, r.link), (0, 0, None));
}

#[test]
fn tables_keep_edges_ordered() {
    let mut d = SuffixTreeData::new_with_root();
    let a = d.insert_node(Node { start: 0, end: 2, link: None });
    let b = d.insert_node(Node { start: 2, end: 3, link: None });
    let c = d.insert_node(Node { start: 3, end: 3, link: None });
    assert_eq!((a.get(), b.get(), c.get()), (1, 2, 3));
    let root = NodeIndex::root();
    d.insert_edge(root, Symbol::Char('n'), a);
    d.insert_edge(root, Symbol::Char('b'), b);
    d.insert_edge(root, Symbol::Terminal, c);
    let edges = d.get_edges(root).unwrap();
    assert_eq!(
        edges,
        vec![(Symbol::Terminal, c), (Symbol::Char('b'), b), (Symbol::Char('n'), a)]
    );
    // an edge with the same symbol is replaced
    d.insert_edge(root, Symbol::Char('b'), a);
    let edges = d.get_edges(root).unwrap();
    assert_eq!(
        edges,
        vec![(Symbol::Terminal, c), (Symbol::Char('b'), a), (Symbol::Char('n'), a)]
    );
    assert!(d.get_edges(b).is_none());
    assert!(d.get_edges(NodeIndex::new(99)).is_none());
    let (i, nd) = d.get_edge(root, Symbol::Char('n')).unwrap();
    assert_eq!((i.get(), nd.start, nd.end), (1, 0, 2));
    assert!(d.get_edge(root, Symbol::Char('z')).is_none());
    {
        let (i, nd) = d.get_edge_mut(root, Symbol::Terminal).unwrap();
        assert_eq!(i.get(), 3);
        nd.end = 4;
    }
    assert_eq!(d.get_node(c).end, 4);
    d.get_node_mut(c).start = 1;
    assert_eq!(d.get_node(c).start, 1);
    assert_eq!(d.get_link(a), None);
    d.insert_link(a, b);
    assert_eq!(d.get_link(a), Some(b));
}

#[test]
fn ukkonen_empty_word() {
    let tree = SuffixTree::new("");
    assert_eq!(tree.to_string(), "($)");
    assert!(tree.contains(""));
    assert!(!tree.contains("a"));
}

#[test]
fn ukkonen_contains_reads_paths() {
    let tree = SuffixTree::new("banana");
    assert_eq!(tree.word(), "banana");
    assert!(tree.contains("ana"));
    assert!(tree.contains("banana"));
    assert!(tree.contains("nan"));
    assert!(tree.contains(""));
    assert!(!tree.contains("nab"));
    assert!(!tree.contains("bananas"));
    assert!(!tree.contains("x"));
    let root = tree.data().get_edges(NodeIndex::root()).unwrap();
    assert_eq!(root.len(), 4);
}

#[test]
fn ukkonen_over_char_slices() {
    let w: Vec<char> = "abab".chars().collect();
    let tree = SuffixTree::new(w.as_slice());
    assert_eq!(tree.to_string(), "($, ab($, ab), b($, ab))");
    let p: Vec<char> = "bab".chars().collect();
    assert!(tree.contains(p.as_slice()));
    let q: Vec<char> = "bb".chars().collect();
    assert!(!tree.contains(q.as_slice()));
    let built = SuffixTreeBuilder::build_tree("abab");
    assert_eq!(built.to_string(), "($, ab($, ab), b($, ab))");
}

#[test]
fn naive_counts_occurrences() {
    let tree = naive::SuffixTree::new("banana");
    assert_eq!(tree.src(), "banana");
    assert_eq!(tree.substring_count("a"), 3);
    assert_eq!(tree.substring_count("an"), 2);
    assert_eq!(tree.substring_count("nana"), 1);
    assert_eq!(tree.substring_count("banana"), 1);
    assert_eq!(tree.substring_count("x"), 0);
    assert_eq!(tree.substring_count("bananas"), 0);
    assert!(tree.contains(""));
    assert!(tree.contains("nan"));
    assert!(!tree.contains("nab"));
    // the empty string leads to the first node below the root
    assert_eq!(tree.substring_count(""), 1);
}

#[test]
fn naive_overlapping_occurrences() {
    let tree = naive::SuffixTree::new("aaaa");
    assert_eq!(tree.substring_count("a"), 4);
    assert_eq!(tree.substring_count("aa"), 3);
    assert_eq!(tree.substring_count("aaaa"), 1);
    assert_eq!(tree.substring_count("aaaaa"), 0);
    assert_eq!(tree.substring_count(""), 4);
}

#[test]
fn naive_prints_quoted_labels() {
    let tree = naive::SuffixTree::new("banana");
    assert_eq!(
        tree.to_string(),
        "(\"banana\", \"a\"(\"na\"(\"na\", $), $), \"na\"(\"na\", $), $)"
    );
    let tree = naive::SuffixTree::new("a\"");
    assert_eq!(tree.to_string(), "(\"a\\\"\", \"\\\"\", $)");
    let tree = naive::SuffixTree::new("");
    assert_eq!(tree.to_string(), "($)");
    assert_eq!(tree.substring_count(""), 1);
}

#[test]
fn naive_prints_control_characters_by_code() {
    for c in ['\u{1}', '\u{1f}', '\u{7f}', '\u{85}', '\u{9f}', '\n', '\0'] {
        let w = c.to_string();
        let tree = naive::SuffixTree::new(&w);
        assert_eq!(tree.to_string(), format!("({:?}, $)", w));
    }
}

#[test]
fn skew_writes_a_permutation() {
    let word = [3usize, 1, 3, 1, 2];
    let mut sa = vec![9usize; 7];
    SuffixArrayBuilder::build_in_place(&word, &mut sa);
    assert_eq!(&sa[5..], &[9, 9]);
    let mut seen = sa[..5].to_vec();
    seen.sort();
    assert_eq!(seen, vec![0, 1, 2, 3, 4]);
    assert_eq!(&sa[..5], &[3, 1, 4, 2, 0]);
}

#[test]
fn skew_order_of_a_repeated_symbol() {
    let array = SuffixArray::from_ascii_str("aaaaaaa");
    assert_eq!(array.array(), &[7, 6, 5, 4, 3, 2, 1, 0]);
    let array = SuffixArray::from_ascii_str("aaaa");
    assert_eq!(array.array(), &[4, 3, 2, 1, 0]);
}

fn sorted_suffixes(w: &str) -> Vec<usize> {
    let mut sa: Vec<usize> = (0..=w.len()).collect();
    sa.sort_by(|&a, &b| w[a..].cmp(&w[b..]));
    sa
}

fn words_over(alphabet: &[char], max_len: usize) -> Vec<String> {
    let mut all = vec![String::new()];
    let mut last = vec![String::new()];
    for _ in 0..max_len {
        let mut next = Vec::new();
        for w in &last {
            for &c in alphabet {
                let mut v = w.clone();
                v.push(c);
                next.push(v);
            }
        }
        all.extend(next.iter().cloned());
        last = next;
    }
    all
}

#[test]
fn skew_sorts_every_short_word() {
    for w in words_over(&['a', 'b', 'c'], 8) {
        if w.len() >= 2 {
            let array = SuffixArray::from_ascii_str(&w);
            assert_eq!(array.array(), sorted_suffixes(&w).as_slice(), "{}", w);
        }
    }
}

#[test]
fn tree_array_sorts_every_short_word() {
    for w in words_over(&['a', 'b', 'c'], 7) {
        let array = SuffixArray::new(w.as_str());
        assert_eq!(array.array(), sorted_suffixes(&w).as_slice(), "{}", w);
    }
}

#[test]
fn ukkonen_reads_exactly_the_substrings() {
    for w in words_over(&['a', 'b'], 8) {
        let tree = SuffixTree::new(w.as_str());
        for p in words_over(&['a', 'b'], w.len() + 1) {
            assert_eq!(tree.contains(p.as_str()), w.contains(p.as_str()), "{} in {}", p, w);
        }
    }
}

fn leaf_count(data: &SuffixTreeData, node: NodeIndex) -> usize {
    match data.get_edges(node) {
        Some(edges) if !edges.is_empty() => edges.iter().map(|&(_, child)| leaf_count(data, child)).sum(),
        _ => 1,
    }
}

#[test]
fn ukkonen_links_a_node_met_again() {
    // in the phase of the last "a", the node split for "aa" must link to
    // the node of "a", where the shorter suffix continues
    let tree = SuffixTree::new("aabaaa");
    assert_eq!(leaf_count(tree.data(), NodeIndex::root()), 7);
    let w = "aabaaa";
    for i in 0..=w.len() {
        assert!(tree.contains(&w[i..]));
    }
    for w in ["banana", "mississippi", "abcabxabcd", "aaaa", ""] {
        let tree = SuffixTree::new(w);
        assert_eq!(leaf_count(tree.data(), NodeIndex::root()), w.len() + 1, "{}", w);
    }
}

#[test]
fn ukkonen_one_symbol_edges() {
    let tree = SuffixTree::new("aaba");
    assert!(tree.contains("ab"));
    assert!(!tree.contains("aaa"));
    assert_eq!(tree.to_string(), "($, a($, aba, ba), ba)");
    let tree = SuffixTree::new("aabab");
    assert_eq!(tree.to_string(), "($, a(abab, b($, ab)), b($, ab))");
    let tree = SuffixTree::new("aabaaa");
    assert_eq!(tree.to_string(), "($, a($, a($, a, baaa), baaa), baaa)");
}

#[test]
fn lcp_of_banana() {
    let sa = [6usize, 5, 3, 1, 0, 4, 2];
    assert_eq!(compute_lcp("banana", &sa), vec![0, 0, 1, 3, 0, 0, 2]);
    assert_eq!(compute_lcp("", &[0usize]), Vec::<usize>::new());
    // positions past the end rank no suffix
    assert_eq!(compute_lcp("ab", &[2usize, 7, 0, 1]), vec![0, 0, 0, 0]);
}

#[test]
fn lcp_without_the_empty_suffix() {
    let sa = [5usize, 3, 1, 0, 4, 2];
    assert_eq!(compute_lcp("banana", &sa), vec![0, 1, 3, 0, 0, 2]);
    let sa = [10usize, 7, 4, 1, 0, 9, 8, 6, 3, 5, 2];
    assert_eq!(compute_lcp("mississippi", &sa), vec![0, 1, 1, 4, 0, 0, 1, 0, 2, 1, 3]);
}

#[test]
fn suffix_array_of_a_word() {
    let array = SuffixArray::new("banana");
    assert_eq!(array.word(), "banana");
    assert_eq!(array.array(), &[6, 5, 3, 1, 0, 4, 2]);
    let w: Vec<char> = "mississippi".chars().collect();
    let array = SuffixArray::new(w.as_slice());
    assert_eq!(array.array(), &[11, 10, 7, 4, 1, 0, 9, 8, 6, 3, 5, 2]);
    let array = SuffixArray::new("");
    assert_eq!(array.array(), &[0]);
}
