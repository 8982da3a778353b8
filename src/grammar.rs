use vstd::prelude::*;
use crate::symbol::{Symbol, SymbolView, copy_symbols};

verus! {

/// Mathematical model of a production: a left-hand symbol and a body.
pub struct Rule {
    pub lhs: SymbolView,
    pub rhs: Seq<SymbolView>,
}

/// A production `start_symbol -> rhs`. A body of exactly `[Epsilon]`
/// expresses an empty derivation.
#[derive(Debug, Clone, Hash, Eq)]
pub struct Production {
    pub start_symbol: Symbol,
    pub rhs: Vec<Symbol>,
}

impl View for Production {
    type V = Rule;

    open spec fn view(&self) -> Rule {
        Rule { lhs: self.start_symbol@, rhs: self.rhs@.map_values(|s: Symbol| s@) }
    }
}

impl PartialEq for Production {
    fn eq(&self, other: &Production) -> (r: bool) {
        let same_lhs = self.start_symbol == other.start_symbol;
        if !same_lhs {
            assert(self@.lhs != other@.lhs);
            return false;
        }
        if self.rhs.len() != other.rhs.len() {
            assert(self@.rhs.len() != other@.rhs.len());
            return false;
        }
        let mut i: usize = 0;
        while i < self.rhs.len()
            invariant
                i <= self.rhs.len() == other.rhs.len(),
                self.start_symbol@ == other.start_symbol@,
                forall|k: int| 0 <= k < i ==> self.rhs@[k]@ == other.rhs@[k]@,
            decreases self.rhs.len() - i,
        {
            if !(self.rhs[i] == other.rhs[i]) {
                assert(self@.rhs[i as int] != other@.rhs[i as int]);
                return false;
            }
            i = i + 1;
        }
        assert(self@.rhs =~= other@.rhs);
        true
    }
}

impl vstd::std_specs::cmp::PartialEqSpecImpl for Production {
    open spec fn obeys_eq_spec() -> bool {
        true
    }

    open spec fn eq_spec(&self, other: &Production) -> bool {
        self@ == other@
    }
}

impl Production {
    /// A copy of the production with the same model.
    pub fn copied(&self) -> (r: Production)
        ensures
            r@ == self@,
    {
        Production { start_symbol: self.start_symbol.copied(), rhs: copy_symbols(&self.rhs) }
    }
}

/// The productions of `g` whose left-hand symbol is `x`, in grammar order.
pub open spec fn prods_for(g: Seq<Rule>, x: SymbolView) -> Seq<Rule>
    decreases g.len(),
{
    if g.len() == 0 {
        Seq::empty()
    } else if g.last().lhs == x {
        prods_for(g.drop_last(), x).push(g.last())
    } else {
        prods_for(g.drop_last(), x)
    }
}

/// An ordered collection of productions, each with a nonterminal on the left.
pub struct Grammar(Vec<Production>);

impl View for Grammar {
    type V = Seq<Rule>;

    closed spec fn view(&self) -> Seq<Rule> {
        self.0@.map_values(|p: Production| p@)
    }
}

impl Grammar {
    /// Every left-hand symbol is a nonterminal.
    pub open spec fn wf(&self) -> bool {
        forall|p: int| 0 <= p < self@.len() ==> (#[trigger] self@[p]).lhs is Nonterminal
    }

    pub fn new(prods: Vec<Production>) -> (r: Grammar)
        requires
            forall|p: int| 0 <= p < prods@.len() ==> (#[trigger] prods@[p]).start_symbol@ is Nonterminal,
        ensures
            r@ == prods@.map_values(|p: Production| p@),
            r.wf(),
    {
        Grammar(prods)
    }

    pub fn productions(&self) -> (r: &Vec<Production>)
        ensures
            r@.map_values(|p: Production| p@) == self@,
    {
        &self.0
    }

    /// The productions whose left-hand symbol is `x`, in grammar order; none
    /// when `x` is a terminal.
    pub fn get_prods(&self, x: &Symbol) -> (r: Vec<&Production>)
        ensures
            x@ is Nonterminal ==> r@.map_values(|p: &Production| p@) == prods_for(self@, x@),
            !(x@ is Nonterminal) ==> r@.len() == 0,
    {
        let mut r: Vec<&Production> = Vec::new();
        if !x.is_nonterminal() {
            return r;
        }
        let mut i: usize = 0;
        while i < self.0.len()
            invariant
                i <= self.0@.len(),
                r@.map_values(|p: &Production| p@) == prods_for(self@.subrange(0, i as int), x@),
            decreases self.0@.len() - i,
        {
            let p = &self.0[i];
            assert(self@.subrange(0, i + 1).drop_last() =~= self@.subrange(0, i as int));
            if p.start_symbol == *x {
                r.push(p);
            }
            assert(r@.map_values(|p: &Production| p@) =~= prods_for(self@.subrange(0, i + 1), x@));
            i = i + 1;
        }
        assert(self@.subrange(0, i as int) =~= self@);
        r
    }
}

} // verus!
