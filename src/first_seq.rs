use vstd::prelude::*;
use crate::symbol::{Symbol, SymbolView};
use crate::tables::{SymbolSets, views, find_symbol};
use crate::solver::nullable_sym;

verus! {

/// The set a table gives `x`; empty when `x` has no entry.
pub open spec fn lookup(first: Map<SymbolView, Set<SymbolView>>, x: SymbolView) -> Set<SymbolView> {
    if first.contains_key(x) {
        first[x]
    } else {
        Set::empty()
    }
}

/// FIRST of a sequence: FIRST of each symbol up to and including the first one
/// that is not nullable.
pub open spec fn seq_first(first: Map<SymbolView, Set<SymbolView>>, nullable: Set<SymbolView>, s: Seq<SymbolView>) -> Set<SymbolView>
    decreases s.len(),
{
    if s.len() == 0 {
        Set::empty()
    } else {
        lookup(first, s[0]) + if nullable_sym(nullable, s[0]) {
            seq_first(first, nullable, s.drop_first())
        } else {
            Set::empty()
        }
    }
}

/// Adds to `acc` each member of `other` that it lacks.
pub fn extend_symbols(acc: &mut Vec<Symbol>, other: &Vec<Symbol>)
    ensures
        views(final(acc)@).to_set() == views(old(acc)@).to_set() + views(other@).to_set(),
{
    let ghost start = views(acc@).to_set();
    let mut i: usize = 0;
    while i < other.len()
        invariant
            i <= other@.len(),
            views(acc@).to_set() == start + views(other@.subrange(0, i as int)).to_set(),
        decreases other@.len() - i,
    {
        let ghost before = views(acc@);
        let found = find_symbol(acc, &other[i]);
        if found.is_none() {
            acc.push(other[i].copied());
            assert(views(acc@) =~= before.push(other@[i as int]@));
            assert(views(acc@).to_set() =~= before.to_set().insert(other@[i as int]@)) by {
                assert forall|y: SymbolView| views(acc@).to_set().contains(y) implies before.to_set().insert(other@[i as int]@).contains(y) by {
                    let k = choose|k: int| 0 <= k < views(acc@).len() && views(acc@)[k] == y;
                    if k < before.len() {
                        assert(before[k] == y);
                    }
                }
                assert forall|y: SymbolView| before.to_set().insert(other@[i as int]@).contains(y) implies views(acc@).to_set().contains(y) by {
                    if y == other@[i as int]@ {
                        assert(views(acc@)[before.len() as int] == y);
                    } else {
                        let k = choose|k: int| 0 <= k < before.len() && before[k] == y;
                        assert(views(acc@)[k] == y);
                    }
                }
            }
        } else {
            let k = found.unwrap();
            assert(before[k as int] == other@[i as int]@);
            assert(before.to_set().insert(other@[i as int]@) =~= before.to_set());
        }
        assert(views(other@.subrange(0, i + 1)) =~= views(other@.subrange(0, i as int)).push(other@[i as int]@));
        assert(views(other@.subrange(0, i + 1)).to_set() =~= views(other@.subrange(0, i as int)).to_set().insert(other@[i as int]@)) by {
            let a = views(other@.subrange(0, i + 1));
            let b = views(other@.subrange(0, i as int));
            assert forall|y: SymbolView| a.to_set().contains(y) implies b.to_set().insert(other@[i as int]@).contains(y) by {
                let k = choose|k: int| 0 <= k < a.len() && a[k] == y;
                if k < b.len() {
                    assert(b[k] == y);
                }
            }
            assert forall|y: SymbolView| b.to_set().insert(other@[i as int]@).contains(y) implies a.to_set().contains(y) by {
                if y == other@[i as int]@ {
                    assert(a[b.len() as int] == y);
                } else {
                    let k = choose|k: int| 0 <= k < b.len() && b[k] == y;
                    assert(a[k] == y);
                }
            }
        }
        i = i + 1;
    }
    assert(other@.subrange(0, i as int) =~= other@);
}

/// Whether `x` is nullable according to the nullable nonterminals `nullable`.
pub fn is_nullable(nullable: &Vec<Symbol>, x: &Symbol) -> (r: bool)
    ensures
        r == nullable_sym(views(nullable@).to_set(), x@),
{
    if x.is_epsilon() {
        return true;
    }
    match find_symbol(nullable, x) {
        Some(i) => {
            assert(views(nullable@)[i as int] == x@);
            true
        },
        None => false,
    }
}

/// FIRST of symbol sequences, from a FIRST table and the nullable nonterminals.
pub struct FirstSSetOp<'a> {
    pub first_sets: &'a SymbolSets,
    pub nullable_set: &'a Vec<Symbol>,
}

impl<'a> FirstSSetOp<'a> {
    pub open spec fn first_view(&self) -> Map<SymbolView, Set<SymbolView>> {
        self.first_sets@
    }

    pub open spec fn nullable_view(&self) -> Set<SymbolView> {
        views(self.nullable_set@).to_set()
    }

    pub fn new(first_sets: &'a SymbolSets, nullable_set: &'a Vec<Symbol>) -> (r: Self)
        ensures
            r.first_sets == first_sets,
            r.nullable_set == nullable_set,
    {
        Self { first_sets, nullable_set }
    }

    /// FIRST of `symbols`; empty for the empty sequence.
    pub fn compute(&self, symbols: &Vec<Symbol>) -> (r: Vec<Symbol>)
        requires
            self.first_sets.wf(),
        ensures
            views(r@).to_set() == seq_first(self.first_view(), self.nullable_view(), views(symbols@)),
    {
        let r = self.compute_from(symbols, 0);
        assert(views(symbols@).subrange(0, symbols@.len() as int) =~= views(symbols@));
        r
    }

    /// FIRST of the symbols of `symbols` from position `start` on.
    pub fn compute_from(&self, symbols: &Vec<Symbol>, start: usize) -> (r: Vec<Symbol>)
        requires
            self.first_sets.wf(),
            start <= symbols@.len(),
        ensures
            views(r@).to_set() == seq_first(
                self.first_view(),
                self.nullable_view(),
                views(symbols@).subrange(start as int, symbols@.len() as int),
            ),
    {
        let ghost f = self.first_view();
        let ghost nl = self.nullable_view();
        let ghost s = views(symbols@);
        let ghost len = symbols@.len() as int;
        let mut acc: Vec<Symbol> = Vec::new();
        let mut go_on = true;
        let mut i: usize = start;
        while i < symbols.len() && go_on
            invariant
                start <= i <= symbols@.len(),
                self.first_sets.wf(),
                f == self.first_view(),
                nl == self.nullable_view(),
                s == views(symbols@),
                len == symbols@.len(),
                seq_first(f, nl, s.subrange(start as int, len)) == views(acc@).to_set() + if go_on {
                    seq_first(f, nl, s.subrange(i as int, len))
                } else {
                    Set::empty()
                },
            decreases symbols@.len() - i,
        {
            let row = self.first_sets.get(&symbols[i]);
            let ghost before = views(acc@).to_set();
            extend_symbols(&mut acc, &row);
            assert(s.subrange(i as int, len).drop_first() =~= s.subrange(i + 1, len));
            assert(s.subrange(i as int, len)[0] == symbols@[i as int]@);
            assert(views(row@).to_set() == lookup(f, symbols@[i as int]@)) by {
                if !f.contains_key(symbols@[i as int]@) {
                    assert(views(row@).to_set() =~= Set::empty());
                }
            }
            if !is_nullable(self.nullable_set, &symbols[i]) {
                go_on = false;
            }
            assert(seq_first(f, nl, s.subrange(start as int, len)) =~= views(acc@).to_set() + if go_on {
                seq_first(f, nl, s.subrange(i + 1, len))
            } else {
                Set::empty()
            });
            i = i + 1;
        }
        if go_on {
            assert(s.subrange(i as int, len).len() == 0);
        }
        assert(seq_first(f, nl, s.subrange(start as int, len)) =~= views(acc@).to_set());
        acc
    }
}

} // verus!
