use vstd::prelude::*;

verus! {

/// One position of a word: a symbol of its alphabet, or the terminal symbol
/// that stands after its last symbol.  The terminal is smaller than every
/// symbol of the alphabet.
#[derive(Debug, Clone, Copy, PartialEq, Eq, Structural, PartialOrd, Ord, Hash)]
pub enum Symbol<T> {
    Terminal,
    Char(T),
}

/// The order of symbols: the terminal comes first, then characters by code point.
pub open spec fn symbol_lt(a: Symbol<char>, b: Symbol<char>) -> bool {
    match a {
        Symbol::Terminal => b is Char,
        Symbol::Char(x) => match b {
            Symbol::Terminal => false,
            Symbol::Char(y) => (x as int) < (y as int),
        },
    }
}

/// `symbol_lt` is a strict order.
pub proof fn lemma_symbol_lt_strict(a: Symbol<char>, b: Symbol<char>, c: Symbol<char>)
    ensures
        !symbol_lt(a, a),
        symbol_lt(a, b) && symbol_lt(b, c) ==> symbol_lt(a, c),
        symbol_lt(a, b) ==> a != b,
        a != b ==> symbol_lt(a, b) || symbol_lt(b, a),
{
}

/// Compares two symbols by `symbol_lt`.
pub fn symbol_less(a: Symbol<char>, b: Symbol<char>) -> (r: bool)
    ensures
        r == symbol_lt(a, b),
{
    match a {
        Symbol::Terminal => match b {
            Symbol::Terminal => false,
            Symbol::Char(_) => true,
        },
        Symbol::Char(x) => match b {
            Symbol::Terminal => false,
            Symbol::Char(y) => x < y,
        },
    }
}

impl Symbol<char> {
    /// How the symbol is printed: the character itself, or `$` for the terminal.
    pub open spec fn display_char(self) -> char {
        match self {
            Symbol::Char(c) => c,
            Symbol::Terminal => '$',
        }
    }

    /// The printed form of the symbol, as a one-character string.
    pub fn to_string(&self) -> (r: String)
        ensures
            r@ == seq![self.display_char()],
    {
        let mut s = String::new();
        let c = match self {
            Symbol::Char(c) => *c,
            Symbol::Terminal => '$',
        };
        crate::text::push_char(&mut s, c);
        s
    }
}

/// The symbol at `index` of `w`, if there is one.
pub open spec fn spec_try_get(w: Seq<char>, index: int) -> Option<char> {
    if 0 <= index < w.len() {
        Some(w[index])
    } else {
        None
    }
}

/// The symbol at `index` of `w` followed by terminals.
pub open spec fn spec_get(w: Seq<char>, index: int) -> Symbol<char> {
    if 0 <= index < w.len() {
        Symbol::Char(w[index])
    } else {
        Symbol::Terminal
    }
}

/// A word over characters, indexed by symbol position.
pub trait Word {
    /// The symbols of the word.
    spec fn spec_symbols(&self) -> Seq<char>;

    /// The symbols of the word, in order.
    fn symbols(&self) -> (r: Vec<char>)
        ensures
            r@ == self.spec_symbols(),
    ;

    /// The number of positions of the word.
    fn size(&self) -> (r: usize)
        ensures
            r == self.spec_symbols().len(),
    ;

    /// The number of positions that one symbol takes.
    fn size_of(&self, symbol: char) -> (r: usize)
        ensures
            r == 1,
    ;

    /// The number of positions that a symbol, or the terminal, takes.
    fn size_of_symbol(&self, symbol: Symbol<char>) -> (r: usize)
        ensures
            r == 1,
    {
        match symbol {
            Symbol::Char(c) => self.size_of(c),
            Symbol::Terminal => 1,
        }
    }

    /// The symbol at `index`, or `None` past the end.
    fn try_get(&self, index: usize) -> (r: Option<char>)
        ensures
            r == spec_try_get(self.spec_symbols(), index as int),
    ;

    /// The symbol at `index`, or the terminal past the end.
    fn get(&self, index: usize) -> (r: Symbol<char>)
        ensures
            r == spec_get(self.spec_symbols(), index as int),
    {
        match self.try_get(index) {
            Some(c) => Symbol::Char(c),
            None => Symbol::Terminal,
        }
    }
}

impl Word for str {
    open spec fn spec_symbols(&self) -> Seq<char> {
        self@
    }

    fn symbols(&self) -> (r: Vec<char>) {
        let n = self.unicode_len();
        let mut out: Vec<char> = Vec::new();
        let mut i: usize = 0;
        while i < n
            invariant
                n == self@.len(),
                i <= n,
                out@ == self@.subrange(0, i as int),
            decreases n - i,
        {
            out.push(self.get_char(i));
            i += 1;
        }
        out
    }

    fn size(&self) -> (r: usize) {
        self.unicode_len()
    }

    fn size_of(&self, symbol: char) -> (r: usize) {
        1
    }

    fn try_get(&self, index: usize) -> (r: Option<char>) {
        if index < self.unicode_len() {
            Some(self.get_char(index))
        } else {
            None
        }
    }
}

impl Word for [char] {
    open spec fn spec_symbols(&self) -> Seq<char> {
        self@
    }

    fn symbols(&self) -> (r: Vec<char>) {
        let mut out: Vec<char> = Vec::new();
        let mut i: usize = 0;
        while i < self.len()
            invariant
                i <= self@.len(),
                out@ == self@.subrange(0, i as int),
            decreases self@.len() - i,
        {
            out.push(self[i]);
            i += 1;
        }
        out
    }

    fn size(&self) -> (r: usize) {
        self.len()
    }

    fn size_of(&self, symbol: char) -> (r: usize) {
        1
    }

    fn try_get(&self, index: usize) -> (r: Option<char>) {
        if index < self.len() {
            Some(self[index])
        } else {
            None
        }
    }
}

} // verus!
