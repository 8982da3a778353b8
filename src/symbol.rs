use vstd::prelude::*;

verus! {

broadcast use vstd::string::to_string_from_display_ensures_for_str;

/// Mathematical model of a grammar symbol: names are character sequences.
pub enum SymbolView {
    Nonterminal(Seq<char>),
    Terminal(Seq<char>),
    Epsilon,
}

/// A terminal: a named input token, or the distinguished empty string.
#[derive(Debug, Clone, Hash, Eq)]
pub enum Terminal {
    Other(String),
    Epsilon,
}

/// A grammar symbol. Equality is structural on the variant and the name.
#[derive(Debug, Clone, Hash, Eq)]
pub enum Symbol {
    Nonterminal(String),
    Terminal(Terminal),
}

impl View for Symbol {
    type V = SymbolView;

    open spec fn view(&self) -> SymbolView {
        match self {
            Symbol::Nonterminal(s) => SymbolView::Nonterminal(s@),
            Symbol::Terminal(Terminal::Other(s)) => SymbolView::Terminal(s@),
            Symbol::Terminal(Terminal::Epsilon) => SymbolView::Epsilon,
        }
    }
}

impl PartialEq for Terminal {
    fn eq(&self, other: &Terminal) -> (r: bool) {
        match self {
            Terminal::Other(a) => match other {
                Terminal::Other(b) => *a == *b,
                Terminal::Epsilon => false,
            },
            Terminal::Epsilon => match other {
                Terminal::Other(_) => false,
                Terminal::Epsilon => true,
            },
        }
    }
}

impl vstd::std_specs::cmp::PartialEqSpecImpl for Terminal {
    open spec fn obeys_eq_spec() -> bool {
        true
    }

    open spec fn eq_spec(&self, other: &Terminal) -> bool {
        match (self, other) {
            (Terminal::Other(a), Terminal::Other(b)) => a@ == b@,
            (Terminal::Epsilon, Terminal::Epsilon) => true,
            _ => false,
        }
    }
}

impl PartialEq for Symbol {
    fn eq(&self, other: &Symbol) -> (r: bool) {
        match self {
            Symbol::Nonterminal(a) => match other {
                Symbol::Nonterminal(b) => *a == *b,
                Symbol::Terminal(_) => false,
            },
            Symbol::Terminal(a) => match other {
                Symbol::Nonterminal(_) => false,
                Symbol::Terminal(b) => *a == *b,
            },
        }
    }
}

impl vstd::std_specs::cmp::PartialEqSpecImpl for Symbol {
    open spec fn obeys_eq_spec() -> bool {
        true
    }

    open spec fn eq_spec(&self, other: &Symbol) -> bool {
        self@ == other@
    }
}

impl Symbol {
    pub fn new_other_terminal(name: &str) -> (r: Symbol)
        ensures
            r@ == SymbolView::Terminal(name@),
    {
        Symbol::Terminal(Terminal::Other(name.to_string()))
    }

    pub fn new_epsilon() -> (r: Symbol)
        ensures
            r@ == SymbolView::Epsilon,
    {
        Symbol::Terminal(Terminal::Epsilon)
    }

    pub fn new_nonterminal(name: &str) -> (r: Symbol)
        ensures
            r@ == SymbolView::Nonterminal(name@),
    {
        Symbol::Nonterminal(name.to_string())
    }

    pub fn is_epsilon(&self) -> (r: bool)
        ensures
            r == (self@ is Epsilon),
    {
        match self {
            Symbol::Terminal(Terminal::Epsilon) => true,
            _ => false,
        }
    }

    pub fn is_nonterminal(&self) -> (r: bool)
        ensures
            r == (self@ is Nonterminal),
    {
        match self {
            Symbol::Nonterminal(_) => true,
            _ => false,
        }
    }

    /// True for named terminals and for the empty-string terminal.
    pub fn is_terminal(&self) -> (r: bool)
        ensures
            r == !(self@ is Nonterminal),
    {
        match self {
            Symbol::Terminal(_) => true,
            _ => false,
        }
    }

    /// A copy of the symbol, equal to it in every field.
    pub fn copied(&self) -> (r: Symbol)
        ensures
            r == *self,
            r@ == self@,
    {
        match self {
            Symbol::Nonterminal(s) => Symbol::Nonterminal(s.clone()),
            Symbol::Terminal(Terminal::Other(s)) => Symbol::Terminal(Terminal::Other(s.clone())),
            Symbol::Terminal(Terminal::Epsilon) => Symbol::Terminal(Terminal::Epsilon),
        }
    }
}

/// Copies a sequence of symbols element by element.
pub fn copy_symbols(v: &Vec<Symbol>) -> (r: Vec<Symbol>)
    ensures
        r@ == v@,
{
    let mut r: Vec<Symbol> = Vec::new();
    let mut i: usize = 0;
    while i < v.len()
        invariant
            i <= v.len(),
            r@ == v@.subrange(0, i as int),
        decreases v.len() - i,
    {
        r.push(v[i].copied());
        i = i + 1;
        assert(r@ =~= v@.subrange(0, i as int));
    }
    assert(r@ =~= v@);
    r
}

} // verus!
