use vstd::prelude::*;
use crate::symbol::{Symbol, SymbolView};
use crate::grammar::Rule;

verus! {

/// The models of a sequence of symbols.
pub open spec fn views(s: Seq<Symbol>) -> Seq<SymbolView> {
    s.map_values(|x: Symbol| x@)
}

/// `x` occurs in `g`, on the left of a production or in a body.
pub open spec fn occurs(g: Seq<Rule>, x: SymbolView) -> bool {
    exists|p: int| 0 <= p < g.len() && (g[p].lhs == x || g[p].rhs.contains(x))
}

/// The symbols that key the FIRST and FOLLOW tables of `g`: every symbol
/// mentioned in the grammar except the empty-string terminal.
pub open spec fn grammar_symbol(g: Seq<Rule>, x: SymbolView) -> bool {
    !(x is Epsilon) && occurs(g, x)
}

/// `rel` read as a table: each grammar symbol `x` is mapped to the set of all
/// `y` with `(x, y)` in `rel`.
pub open spec fn table_of(g: Seq<Rule>, rel: Set<(SymbolView, SymbolView)>) -> Map<SymbolView, Set<SymbolView>> {
    Map::new(|x: SymbolView| grammar_symbol(g, x), |x: SymbolView| Set::new(|y: SymbolView| rel.contains((x, y))))
}

/// A table from symbols to sets of symbols, such as FIRST or FOLLOW.
/// Symbols that are not keys map to the empty set.
pub struct SymbolSets {
    keys: Vec<Symbol>,
    sets: Vec<Vec<Symbol>>,
    model: Ghost<Map<SymbolView, Set<SymbolView>>>,
}

impl View for SymbolSets {
    type V = Map<SymbolView, Set<SymbolView>>;

    closed spec fn view(&self) -> Map<SymbolView, Set<SymbolView>> {
        self.model@
    }
}

impl SymbolSets {
    pub closed spec fn wf(&self) -> bool {
        &&& self.keys@.len() == self.sets@.len()
        &&& views(self.keys@).no_duplicates()
        &&& forall|x: SymbolView| self.model@.contains_key(x) <==> views(self.keys@).contains(x)
        &&& forall|i: int|
            0 <= i < self.keys@.len() ==> self.model@[#[trigger] self.keys@[i]@] == views(
                self.sets@[i]@,
            ).to_set()
    }

    /// Builds a table from parallel key and set sequences.
    pub(crate) fn from_parts(keys: Vec<Symbol>, sets: Vec<Vec<Symbol>>, Ghost(m): Ghost<Map<SymbolView, Set<SymbolView>>>) -> (r: SymbolSets)
        requires
            keys@.len() == sets@.len(),
            views(keys@).no_duplicates(),
            forall|x: SymbolView| m.contains_key(x) <==> views(keys@).contains(x),
            forall|i: int|
                0 <= i < keys@.len() ==> m[#[trigger] keys@[i]@] == views(sets@[i]@).to_set(),
        ensures
            r.wf(),
            r@ == m,
    {
        SymbolSets { keys, sets, model: Ghost(m) }
    }

    /// True when `x` has an entry in the table.
    pub fn contains_key(&self, x: &Symbol) -> (r: bool)
        requires
            self.wf(),
        ensures
            r == self@.contains_key(x@),
    {
        match find_symbol(&self.keys, x) {
            Some(i) => {
                assert(views(self.keys@)[i as int] == x@);
                true
            },
            None => false,
        }
    }

    /// The members of the set of `x`, each once; empty when `x` has no entry.
    pub fn get(&self, x: &Symbol) -> (r: Vec<Symbol>)
        requires
            self.wf(),
        ensures
            self@.contains_key(x@) ==> views(r@).to_set() == self@[x@],
            !self@.contains_key(x@) ==> r@.len() == 0,
    {
        match find_symbol(&self.keys, x) {
            Some(i) => {
                assert(views(self.keys@)[i as int] == x@);
                crate::symbol::copy_symbols(&self.sets[i])
            },
            None => Vec::new(),
        }
    }

    /// The keys of the table, in the order in which they were first met.
    pub fn keys(&self) -> (r: Vec<Symbol>)
        requires
            self.wf(),
        ensures
            views(r@).to_set() == self@.dom(),
    {
        let r = crate::symbol::copy_symbols(&self.keys);
        assert(views(r@).to_set() =~= self@.dom());
        r
    }
}

/// The position of a symbol equal to `x` in `syms`, if there is one.
pub fn find_symbol(syms: &Vec<Symbol>, x: &Symbol) -> (r: Option<usize>)
    ensures
        match r {
            Some(i) => i < syms@.len() && syms@[i as int]@ == x@,
            None => !views(syms@).contains(x@),
        },
{
    let mut i: usize = 0;
    while i < syms.len()
        invariant
            i <= syms@.len(),
            forall|k: int| 0 <= k < i ==> syms@[k]@ != x@,
        decreases syms@.len() - i,
    {
        if syms[i] == *x {
            return Some(i);
        }
        i = i + 1;
    }
    assert(forall|k: int| 0 <= k < syms@.len() ==> views(syms@)[k] != x@);
    None
}

} // verus!
