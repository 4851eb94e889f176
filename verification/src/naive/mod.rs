use vstd::prelude::*;

use crate::naive::node::{
    label, leaf_count, lemma_counts, lemma_list_counts, lemma_num_push, list_ok, list_paths,
    num_prefixed, one_if_prefix, Node, Nodes,
};
use crate::text::push_char;
use crate::word::Word;

pub mod node;

verus! {

/// The suffixes of `w` that start before `k`, longest first.
pub open spec fn suffixes(w: Seq<char>, k: int) -> Seq<Seq<char>> {
    Seq::new(k as nat, |i: int| w.subrange(i, w.len() as int))
}

/// How many suffixes of `w` (the empty one included) start with `p`: the
/// number of places where `p` occurs in `w`, when `p` is not empty.
pub open spec fn occurrences(w: Seq<char>, p: Seq<char>) -> nat {
    num_prefixed(suffixes(w, w.len() as int + 1), p)
}

/// The lowercase hexadecimal digit of `d` (below 16).
pub open spec fn hex_digit(d: int) -> char {
    seq!['0', '1', '2', '3', '4', '5', '6', '7', '8', '9', 'a', 'b', 'c', 'd', 'e', 'f'][d]
}

/// A control character: below a space, or from delete to the end of the
/// second block of control codes.
pub open spec fn is_control(c: char) -> bool {
    c < ' ' || ('\u{7f}' <= c && c <= '\u{9f}')
}

/// A control character written by its code: `\u{..}` with the code in
/// lowercase hexadecimal, without leading zeros.
pub open spec fn code_escape(c: char) -> Seq<char> {
    let v = c as int;
    let digits = if v < 16 {
        seq![hex_digit(v)]
    } else {
        seq![hex_digit(v / 16), hex_digit(v % 16)]
    };
    seq!['\\', 'u', '{'] + digits + seq!['}']
}

/// How a character is written inside a quoted string.
pub open spec fn escape_char(c: char) -> Seq<char> {
    if c == '"' {
        seq!['\\', '"']
    } else if c == '\\' {
        seq!['\\', '\\']
    } else if c == '\n' {
        seq!['\\', 'n']
    } else if c == '\r' {
        seq!['\\', 'r']
    } else if c == '\t' {
        seq!['\\', 't']
    } else if c == '\0' {
        seq!['\\', '0']
    } else if is_control(c) {
        code_escape(c)
    } else {
        seq![c]
    }
}

/// How a string is written inside quotes.
pub open spec fn escape(s: Seq<char>) -> Seq<char>
    decreases s.len(),
{
    if s.len() == 0 {
        Seq::empty()
    } else {
        escape(s.drop_last()) + escape_char(s.last())
    }
}

/// The value of a lowercase hexadecimal digit.
pub open spec fn hex_value(c: char) -> int {
    choose|d: int| 0 <= d < 16 && hex_digit(d) == c
}

/// The code of a character.
pub open spec fn code_of(c: char) -> int {
    c as int
}

/// The character with code `v`.
pub open spec fn char_with_code(v: int) -> char {
    choose|c: char| #[trigger] code_of(c) == v
}

/// The character that an escape `\e` stands for.
pub open spec fn unescaped(e: char) -> char {
    if e == 'n' {
        '\n'
    } else if e == 'r' {
        '\r'
    } else if e == 't' {
        '\t'
    } else if e == '0' {
        '\0'
    } else {
        e
    }
}

/// Reads a quoted string's text back: `\` with `n`, `r`, `t` or `0` stands
/// for the control character, with `u{..}` for the character with that
/// hexadecimal code, and with any other character for that character.
pub open spec fn unescape(t: Seq<char>) -> Seq<char>
    decreases t.len(),
{
    if t.len() == 0 {
        Seq::empty()
    } else if t[0] != '\\' || t.len() < 2 {
        seq![t[0]] + unescape(t.drop_first())
    } else if t[1] == 'u' && t.len() >= 5 && t[2] == '{' && t[4] == '}' {
        seq![char_with_code(hex_value(t[3]))] + unescape(t.skip(5))
    } else if t[1] == 'u' && t.len() >= 6 && t[2] == '{' && t[5] == '}' {
        seq![char_with_code(hex_value(t[3]) * 16 + hex_value(t[4]))] + unescape(t.skip(6))
    } else {
        seq![unescaped(t[1])] + unescape(t.skip(2))
    }
}

/// Escaping can be read from the front: the first character's escape, then
/// the rest's.
proof fn lemma_escape_front(s: Seq<char>)
    requires
        s.len() > 0,
    ensures
        escape(s) == escape_char(s[0]) + escape(s.drop_first()),
    decreases s.len(),
{
    if s.len() == 1 {
        assert(s.drop_last() =~= Seq::<char>::empty());
        assert(s.drop_first() =~= Seq::<char>::empty());
        assert(escape(s.drop_last()) =~= Seq::<char>::empty());
        assert(escape(s.drop_first()) =~= Seq::<char>::empty());
        assert(escape(s) == escape(s.drop_last()) + escape_char(s.last()));
        assert(escape(s) =~= escape_char(s[0]));
    } else {
        lemma_escape_front(s.drop_last());
        assert(s.drop_last().drop_first() =~= s.drop_first().drop_last());
        assert(s.drop_last()[0] == s[0]);
        assert(s.drop_first().last() == s.last());
        assert(escape(s) =~= escape_char(s[0]) + escape(s.drop_first()));
    }
}

/// A hexadecimal digit reads back as its value.
proof fn lemma_hex_value(d: int)
    requires
        0 <= d < 16,
    ensures
        hex_value(hex_digit(d)) == d,
        hex_digit(d) != '}',
{
    let c = hex_digit(d);
    assert(0 <= d < 16 && hex_digit(d) == c);
    let e = hex_value(c);
    assert(0 <= e < 16 && hex_digit(e) == c);
}

/// One character's escape reads back as that character.
proof fn lemma_unescape_char(c: char, rest: Seq<char>)
    ensures
        unescape(escape_char(c) + rest) == seq![c] + unescape(rest),
{
    let t = escape_char(c) + rest;
    if c == '"' || c == '\\' || c == '\n' || c == '\r' || c == '\t' || c == '\0' {
        assert(t[0] == '\\');
        assert(t.skip(2) =~= rest);
    } else if is_control(c) {
        let v = c as int;
        assert(0 <= v < 0xa0);
        assert(char_with_code(v) == c) by {
            assert(code_of(c) == v);
            let x = char_with_code(v);
            assert(code_of(x) == v);
        }
        if v < 16 {
            lemma_hex_value(v);
            assert(t[3] == hex_digit(v));
            assert(t[4] == '}');
            assert(t.skip(5) =~= rest);
        } else {
            lemma_hex_value(v / 16);
            lemma_hex_value(v % 16);
            assert(t[3] == hex_digit(v / 16));
            assert(t[4] == hex_digit(v % 16));
            assert(t[5] == '}');
            assert(t.skip(6) =~= rest);
        }
    } else {
        assert(t[0] == c);
        assert(t.drop_first() =~= rest);
    }
}

/// The quoted text of a label reads back as exactly the label: printing
/// loses nothing.
pub proof fn lemma_escape_reads_back(s: Seq<char>)
    ensures
        unescape(escape(s)) == s,
    decreases s.len(),
{
    if s.len() == 0 {
    } else {
        lemma_escape_front(s);
        lemma_unescape_char(s[0], escape(s.drop_first()));
        lemma_escape_reads_back(s.drop_first());
        assert(seq![s[0]] + s.drop_first() =~= s);
    }
}

/// The printed form of a node: `$` for an empty label, else the label
/// quoted, then its children in brackets when it has any.
pub open spec fn node_text(nd: Node, w: Seq<char>) -> Seq<char>
    decreases nd, 0int,
{
    let lab = label(nd, w);
    let head = if lab.len() == 0 {
        seq!['$']
    } else {
        seq!['"'] + escape(lab) + seq!['"']
    };
    if nd.nodes.0@.len() > 0 {
        head + list_text(nd.nodes.0@, w, nd.nodes.0@.len() as int)
    } else {
        head
    }
}

/// The printed forms of the first `k` nodes, separated by `, `.
pub open spec fn list_items(l: Seq<Node>, w: Seq<char>, k: int) -> Seq<char>
    decreases l, k,
    when 0 <= k <= l.len()
{
    if k <= 0 {
        Seq::empty()
    } else {
        let prev = list_items(l, w, k - 1);
        (if k > 1 {
            prev + seq![',', ' ']
        } else {
            prev
        }) + node_text(l[k - 1], w)
    }
}

/// The printed form of a list of nodes, in brackets.
pub open spec fn list_text(l: Seq<Node>, w: Seq<char>, k: int) -> Seq<char>
    decreases l, k + 1,
    when 0 <= k <= l.len()
{
    seq!['('] + list_items(l, w, k) + seq![')']
}

/// A naive suffix tree of a string: each suffix is put in by walking down
/// from the root.
#[derive(Debug)]
pub struct SuffixTree<'a> {
    src: &'a str,
    chars: Vec<char>,
    root: Nodes,
}

impl<'a> SuffixTree<'a> {
    /// The string the tree was built from.
    pub closed spec fn spec_src(&self) -> &'a str {
        self.src
    }

    /// The nodes below the root.
    pub closed spec fn roots(&self) -> Seq<Node> {
        self.root.0@
    }

    /// The strings spelled from the root to each leaf, in the tree's order.
    pub closed spec fn paths(&self) -> Seq<Seq<char>> {
        list_paths(self.root.0@, self.src@)
    }

    /// The tree holds every suffix of the string once, as a path from the
    /// root to a leaf.
    pub closed spec fn wf(&self) -> bool {
        &&& self.chars@ == self.src@
        &&& list_ok(self.root.0@, self.src@)
        &&& list_paths(self.root.0@, self.src@).len() == self.src@.len() + 1
        &&& self.src@.len() <= isize::MAX
        &&& forall|p: Seq<char>|
            #[trigger] num_prefixed(list_paths(self.root.0@, self.src@), p) == occurrences(self.src@, p)
    }

    /// Builds the tree of `src` by putting in its suffixes, longest first.
    pub fn new(src: &'a str) -> (r: Self)
        requires
            src@.len() <= isize::MAX,
        ensures
            r.spec_src() == src,
            r.wf(),
            r.paths().len() == src@.len() + 1,
            forall|p: Seq<char>| #[trigger] num_prefixed(r.paths(), p) == occurrences(src@, p),
    {
        let w = src.symbols();
        let n = w.len();
        let mut root = Nodes::empty();
        let mut offset: usize = 0;
        proof {
            assert(list_paths(root.0@, w@) =~= Seq::<Seq<char>>::empty());
            assert forall|p: Seq<char>| #[trigger] num_prefixed(list_paths(root.0@, w@), p) == num_prefixed(suffixes(w@, 0), p) by {
                assert(suffixes(w@, 0) =~= Seq::<Seq<char>>::empty());
            }
        }
        while offset <= n
            invariant
                n == w@.len(),
                w@ == src@,
                n <= isize::MAX,
                offset <= n + 1,
                list_ok(root.0@, w@),
                list_paths(root.0@, w@).len() == offset,
                forall|p: Seq<char>|
                    #[trigger] num_prefixed(list_paths(root.0@, w@), p) == num_prefixed(suffixes(w@, offset as int), p),
                forall|i: int|
                    0 <= i < list_paths(root.0@, w@).len() ==> #[trigger] list_paths(root.0@, w@)[i].len() > n - offset,
            decreases n + 1 - offset,
        {
            let ghost before = root.0@;
            root.add_suffix(w.as_slice(), offset);
            proof {
                assert(suffixes(w@, offset + 1) =~= suffixes(w@, offset as int).push(w@.subrange(offset as int, n as int)));
                assert forall|p: Seq<char>|
                    #[trigger] num_prefixed(list_paths(root.0@, w@), p) == num_prefixed(suffixes(w@, offset + 1), p) by {
                    lemma_num_push(suffixes(w@, offset as int), w@.subrange(offset as int, n as int), p);
                    assert(num_prefixed(list_paths(root.0@, w@), p) == num_prefixed(list_paths(before, w@), p)
                        + one_if_prefix(p, w@.subrange(offset as int, n as int)));
                }
            }
            offset += 1;
        }
        SuffixTree { src, chars: w, root }
    }

    /// The string the tree was built from.
    pub fn src(&self) -> (r: &str)
        ensures
            r == self.spec_src(),
    {
        self.src
    }

    /// How many times `substring` occurs in the string; for the empty
    /// string, the number of leaves below the first node under the root.
    pub fn substring_count(&self, substring: &str) -> (r: usize)
        requires
            self.wf(),
        ensures
            substring@.len() > 0 ==> r == occurrences(self.spec_src()@, substring@),
            substring@.len() == 0 ==> r == leaf_count(self.roots()[0]),
    {
        let p = substring.symbols();
        proof {
            lemma_list_counts(self.root.0@, self.src@);
        }
        self.root.substring_count(self.chars.as_slice(), p.as_slice())
    }

    /// Whether `substring` occurs in the string (the empty string does).
    pub fn contains(&self, substring: &str) -> (r: bool)
        requires
            self.wf(),
        ensures
            r == (substring@.len() == 0 || occurrences(self.spec_src()@, substring@) > 0),
    {
        let p = substring.symbols();
        let found = self.root.find_node(self.chars.as_slice(), p.as_slice());
        proof {
            if self.root.0@.len() == 0 {
                assert(list_paths(self.root.0@, self.src@).len() == 0);
            }
            match found {
                Some(nd) => {
                    lemma_counts(*nd, self.src@);
                    crate::naive::node::lemma_node_paths_len(*nd, self.src@);
                },
                None => {},
            }
        }
        found.is_some()
    }

    /// The printed form of the tree: the nodes below the root, each as its
    /// quoted label (or `$` for the empty one) followed by its children, in
    /// brackets and separated by `, `.
    pub fn to_string(&self) -> (r: String)
        requires
            self.wf(),
        ensures
            r@ == list_text(self.roots(), self.spec_src()@, self.roots().len() as int),
    {
        let mut out = String::new();
        fmt_inners(&self.root.0, self.chars.as_slice(), &mut out);
        assert(out@ =~= Seq::<char>::empty() + list_text(self.roots(), self.spec_src()@, self.roots().len() as int));
        out
    }
}

/// Appends one character written as inside a quoted string.
fn push_escaped(out: &mut String, c: char)
    ensures
        final(out)@ == old(out)@ + escape_char(c),
{
    let ghost start = out@;
    if c == '"' {
        push_char(out, '\\');
        push_char(out, '"');
    } else if c == '\\' {
        push_char(out, '\\');
        push_char(out, '\\');
    } else if c == '\n' {
        push_char(out, '\\');
        push_char(out, 'n');
    } else if c == '\r' {
        push_char(out, '\\');
        push_char(out, 'r');
    } else if c == '\t' {
        push_char(out, '\\');
        push_char(out, 't');
    } else if c == '\0' {
        push_char(out, '\\');
        push_char(out, '0');
    } else if c < ' ' || ('\u{7f}' <= c && c <= '\u{9f}') {
        let v = c as u32;
        assert(v as int == c as int);
        push_char(out, '\\');
        push_char(out, 'u');
        push_char(out, '{');
        if v < 16 {
            push_char(out, hex_digit_of(v));
        } else {
            push_char(out, hex_digit_of(v / 16));
            push_char(out, hex_digit_of(v % 16));
        }
        push_char(out, '}');
    } else {
        push_char(out, c);
    }
    assert(out@ =~= start + escape_char(c));
}

/// The lowercase hexadecimal digit of `d`.
fn hex_digit_of(d: u32) -> (r: char)
    requires
        d < 16,
    ensures
        r == hex_digit(d as int),
{
    let digits = ['0', '1', '2', '3', '4', '5', '6', '7', '8', '9', 'a', 'b', 'c', 'd', 'e', 'f'];
    assert(digits@ =~= seq!['0', '1', '2', '3', '4', '5', '6', '7', '8', '9', 'a', 'b', 'c', 'd', 'e', 'f']);
    digits[d as usize]
}

/// Appends the printed form of a list of nodes.
fn fmt_inners(nodes: &Vec<Node>, w: &[char], out: &mut String)
    requires
        list_ok(nodes@, w@),
    ensures
        final(out)@ == old(out)@ + list_text(nodes@, w@, nodes@.len() as int),
    decreases nodes@,
{
    let ghost start = out@;
    push_char(out, '(');
    let mut k: usize = 0;
    while k < nodes.len()
        invariant
            list_ok(nodes@, w@),
            k <= nodes@.len(),
            out@ == start + seq!['('] + list_items(nodes@, w@, k as int),
        decreases nodes@.len() - k,
    {
        let ghost before = out@;
        if k > 0 {
            push_char(out, ',');
            push_char(out, ' ');
        }
        let ghost sep = out@;
        let node = &nodes[k];
        proof {
            assert(crate::naive::node::node_ok(nodes@[k as int], w@));
        }
        if node.end - node.start == 0 {
            push_char(out, '$');
        } else {
            push_char(out, '"');
            let mut i = node.start;
            while i < node.end
                invariant
                    node.start <= i <= node.end <= w@.len(),
                    out@ == sep + seq!['"'] + escape(w@.subrange(node.start as int, i as int)),
                decreases node.end - i,
            {
                push_escaped(out, w[i]);
                i += 1;
                proof {
                    let s = w@.subrange(node.start as int, i as int);
                    assert(s.drop_last() =~= w@.subrange(node.start as int, i - 1));
                }
            }
            push_char(out, '"');
        }
        let ghost head = out@;
        proof {
            let lab = label(*node, w@);
            let head_spec = if lab.len() == 0 {
                seq!['$']
            } else {
                seq!['"'] + escape(lab) + seq!['"']
            };
            assert(head =~= sep + head_spec);
            if k > 0 {
                assert(sep =~= before + seq![',', ' ']);
            } else {
                assert(sep == before);
            }
        }
        if node.nodes.0.len() > 0 {
            proof {
                assert(decreases_to!(nodes@ => nodes@[k as int]));
            }
            fmt_inners(&node.nodes.0, w, out);
        }
        proof {
            let nt = node_text(nodes@[k as int], w@);
            assert(*node == nodes@[k as int]);
            assert(out@ =~= sep + nt);
            let prev = list_items(nodes@, w@, k as int);
            assert(list_items(nodes@, w@, k + 1) == (if k + 1 > 1 {
                prev + seq![',', ' ']
            } else {
                prev
            }) + nt);
        }
        k += 1;
        proof {
            assert(out@ =~= start + seq!['('] + list_items(nodes@, w@, k as int));
        }
    }
    push_char(out, ')');
    assert(out@ =~= start + list_text(nodes@, w@, nodes@.len() as int));
}

} // verus!
