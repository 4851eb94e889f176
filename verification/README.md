# Suffix trees and suffix arrays

A verified library of string indexes:

- `word`: words as sequences of symbols, the terminal symbol and its order.
- `ukkonen`: suffix trees built by Ukkonen's algorithm (`data` holds the
  node and edge tables, `builder` the construction); searching and printing.
  The construction is proved to keep the tables well formed and acyclic,
  every edge keyed by the first symbol of the label it leads to, every node
  reached by one edge only, every leaf's label running to the end of the
  word, empty labels only at the end of the word, and at most `2(n + 1)`
  nodes for a word of `n` symbols.
- `naive`: suffix trees built by inserting every suffix from the root; it
  counts the occurrences of a pattern, proved equal to the number of places
  where the pattern occurs.
- `suffix_array`: suffix arrays read off a suffix tree or built by the skew
  (DC3) method, proved to list the suffixes in order (its stable radix
  passes, the naming of triples, the reduced word's order and the merge),
  and the longest-common-prefix array by Kasai's method, proved exact for
  any list of suffixes in order (`order` holds the order of suffixes,
  `perm` permutations).

`app/main.rs` prints the naive tree of `banana` and queries it.
