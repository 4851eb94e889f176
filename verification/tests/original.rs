use lib::naive;
use lib::suffix_array::SuffixArray;
use lib::ukkonen::SuffixTree;

#[test]
fn lib_test_banana() {
    let tree = SuffixTree::new("banana");
    let array = SuffixArray::from(tree);

    assert_eq!(array.array(), &[6, 5, 3, 1, 0, 4, 2]);
}

#[test]
fn test_processing() {
    let array = SuffixArray::from_ascii_str("processing");

    assert_eq!(array.array(), &[10, 3, 4, 9, 7, 8, 2, 0, 1, 6, 5]);
}

fn test_tree_and_array(word: &str) {
    let a = SuffixArray::from(SuffixTree::new(word));
    let b = SuffixArray::from_ascii_str(word);

    assert_eq!(a.array(), b.array());
}

#[test]
fn test_equals() {
    test_tree_and_array("banana");
    test_tree_and_array("processing");
    test_tree_and_array("mississippi");

    test_tree_and_array("aaaaaa");
    test_tree_and_array("abcabc");
}

#[test]
fn find() {
    let tree = naive::SuffixTree::new("banana");
    println!("{}", tree.to_string());

    assert!(tree.contains("ban"));
    assert_eq!(tree.substring_count("ana"), 2);
}

#[test]
fn mod_test_banana() {
    let tree = SuffixTree::new("banana");
    assert_eq!(tree.to_string(), "($, a($, na($, na)), banana, na($, na))")
}

#[test]
fn test_abcabxabcd() {
    let tree = SuffixTree::new("abcabx");
    assert_eq!(tree.to_string(), "($, ab(cabx, x), b(cabx, x), cabx, x)");

    let tree = SuffixTree::new("abcabxa");
    assert_eq!(
        tree.to_string(),
        "($, a($, b(cabxa, xa)), b(cabxa, xa), cabxa, xa)"
    );

    let tree = SuffixTree::new("abcabxab");
    assert_eq!(
        tree.to_string(),
        "($, ab($, cabxab, xab), b($, cabxab, xab), cabxab, xab)"
    );

    let tree = SuffixTree::new("abcabxabd");
    assert_eq!(
        tree.to_string(),
        "($, ab(cabxabd, d, xabd), b(cabxabd, d, xabd), cabxabd, d, xabd)"
    );

    let tree = SuffixTree::new("abcabxabc");
    assert_eq!(
        tree.to_string(),
        "($, ab(c($, abxabc), xabc), b(c($, abxabc), xabc), c($, abxabc), xabc)"
    );

    let tree = SuffixTree::new("abcabxabcd");
    assert_eq!(
        tree.to_string(),
        "($, ab(c(abxabcd, d), xabcd), b(c(abxabcd, d), xabcd), c(abxabcd, d), d, xabcd)"
    );
}
