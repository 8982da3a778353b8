use vstd::prelude::*;
use crate::symbol::{Symbol, SymbolView};
use crate::grammar::{Grammar, Production, Rule};

verus! {

fn nt(name: &str) -> (r: Symbol)
    ensures
        r@ == SymbolView::Nonterminal(name@),
{
    Symbol::new_nonterminal(name)
}

fn t(name: &str) -> (r: Symbol)
    ensures
        r@ == SymbolView::Terminal(name@),
{
    Symbol::new_other_terminal(name)
}

fn body1(a: Symbol) -> (r: Vec<Symbol>)
    ensures
        r@.map_values(|s: Symbol| s@) == seq![a@],
{
    let mut r: Vec<Symbol> = Vec::new();
    r.push(a);
    assert(r@.map_values(|s: Symbol| s@) =~= seq![r@[0]@]);
    r
}

fn body2(a: Symbol, b: Symbol) -> (r: Vec<Symbol>)
    ensures
        r@.map_values(|s: Symbol| s@) == seq![a@, b@],
{
    let mut r: Vec<Symbol> = Vec::new();
    r.push(a);
    r.push(b);
    assert(r@.map_values(|s: Symbol| s@) =~= seq![r@[0]@, r@[1]@]);
    r
}

fn body3(a: Symbol, b: Symbol, c: Symbol) -> (r: Vec<Symbol>)
    ensures
        r@.map_values(|s: Symbol| s@) == seq![a@, b@, c@],
{
    let mut r: Vec<Symbol> = Vec::new();
    r.push(a);
    r.push(b);
    r.push(c);
    assert(r@.map_values(|s: Symbol| s@) =~= seq![r@[0]@, r@[1]@, r@[2]@]);
    r
}

/// The model of the nonterminal named `name`.
pub open spec fn nts(name: &str) -> SymbolView {
    SymbolView::Nonterminal(name@)
}

/// The model of the terminal named `name`.
pub open spec fn ts(name: &str) -> SymbolView {
    SymbolView::Terminal(name@)
}

/// The grammar `Z -> d | X Y Z`, `Y -> ε | c`, `X -> Y | a`.
pub fn grammar_3_6() -> (r: Grammar)
    ensures
        r.wf(),
        r@ == seq![
            Rule { lhs: nts("Z"), rhs: seq![ts("d")] },
            Rule { lhs: nts("Z"), rhs: seq![nts("X"), nts("Y"), nts("Z")] },
            Rule { lhs: nts("Y"), rhs: seq![SymbolView::Epsilon] },
            Rule { lhs: nts("Y"), rhs: seq![ts("c")] },
            Rule { lhs: nts("X"), rhs: seq![nts("Y")] },
            Rule { lhs: nts("X"), rhs: seq![ts("a")] },
        ],
{
    let mut prods: Vec<Production> = Vec::new();
    prods.push(Production { start_symbol: nt("Z"), rhs: body1(t("d")) });
    prods.push(Production { start_symbol: nt("Z"), rhs: body3(nt("X"), nt("Y"), nt("Z")) });
    prods.push(Production { start_symbol: nt("Y"), rhs: body1(Symbol::new_epsilon()) });
    prods.push(Production { start_symbol: nt("Y"), rhs: body1(t("c")) });
    prods.push(Production { start_symbol: nt("X"), rhs: body1(nt("Y")) });
    prods.push(Production { start_symbol: nt("X"), rhs: body1(t("a")) });
    let g = Grammar::new(prods);
    assert(g@ =~= seq![
        Rule { lhs: nts("Z"), rhs: seq![ts("d")] },
        Rule { lhs: nts("Z"), rhs: seq![nts("X"), nts("Y"), nts("Z")] },
        Rule { lhs: nts("Y"), rhs: seq![SymbolView::Epsilon] },
        Rule { lhs: nts("Y"), rhs: seq![ts("c")] },
        Rule { lhs: nts("X"), rhs: seq![nts("Y")] },
        Rule { lhs: nts("X"), rhs: seq![ts("a")] },
    ]);
    g
}

/// The grammar `S' -> S`, `S -> V = E | E`, `E -> V`, `V -> x | * E`.
pub fn grammar_3_10() -> (r: Grammar)
    ensures
        r.wf(),
        r@ == seq![
            Rule { lhs: nts("S'"), rhs: seq![nts("S")] },
            Rule { lhs: nts("S"), rhs: seq![nts("V"), ts("="), nts("E")] },
            Rule { lhs: nts("S"), rhs: seq![nts("E")] },
            Rule { lhs: nts("E"), rhs: seq![nts("V")] },
            Rule { lhs: nts("V"), rhs: seq![ts("x")] },
            Rule { lhs: nts("V"), rhs: seq![ts("*"), nts("E")] },
        ],
{
    let mut prods: Vec<Production> = Vec::new();
    prods.push(Production { start_symbol: nt("S'"), rhs: body1(nt("S")) });
    prods.push(Production { start_symbol: nt("S"), rhs: body3(nt("V"), t("="), nt("E")) });
    prods.push(Production { start_symbol: nt("S"), rhs: body1(nt("E")) });
    prods.push(Production { start_symbol: nt("E"), rhs: body1(nt("V")) });
    prods.push(Production { start_symbol: nt("V"), rhs: body1(t("x")) });
    prods.push(Production { start_symbol: nt("V"), rhs: body2(t("*"), nt("E")) });
    let g = Grammar::new(prods);
    assert(g@ =~= seq![
        Rule { lhs: nts("S'"), rhs: seq![nts("S")] },
        Rule { lhs: nts("S"), rhs: seq![nts("V"), ts("="), nts("E")] },
        Rule { lhs: nts("S"), rhs: seq![nts("E")] },
        Rule { lhs: nts("E"), rhs: seq![nts("V")] },
        Rule { lhs: nts("V"), rhs: seq![ts("x")] },
        Rule { lhs: nts("V"), rhs: seq![ts("*"), nts("E")] },
    ]);
    g
}

} // verus!
