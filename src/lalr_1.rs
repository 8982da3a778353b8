use vstd::prelude::*;
use crate::symbol::{Symbol, SymbolView, copy_symbols};
use crate::grammar::{Grammar, Production, Rule};
use crate::tables::{SymbolSets, views, find_symbol};
use crate::solver::{lemma_cf_bound, lemma_falses_bound, all_nullable, mirrors, mirrors_set, image, add_image, falses, cf, union_row, lemma_row_image, empty_matrix, empty_row, lemma_cf_set};
use crate::first_seq::{FirstSSetOp, seq_first, lookup, extend_symbols, is_nullable};

verus! {

/// An LR(1) item: a production, a dot position in its body, and a lookahead set.
/// Items with the same production and dot share a core.
#[derive(Debug, Clone)]
pub struct Item {
    prod: Production,
    dot_pos: usize,
    lookaheads: Vec<Symbol>,
}

/// The production and dot position of an item.
pub type Core = (Rule, int);

impl Item {
    pub closed spec fn item_core(&self) -> Core {
        (self.prod@, self.dot_pos as int)
    }

    pub closed spec fn la(&self) -> Set<SymbolView> {
        views(self.lookaheads@).to_set()
    }

    /// The dot lies within the body or at its end.
    pub open spec fn wf(&self) -> bool {
        0 <= self.item_core().1 <= self.item_core().0.rhs.len()
    }

    /// The item `prod` with the dot at the start of the body.
    pub fn new(prod: Production, lookaheads: Vec<Symbol>) -> (r: Item)
        ensures
            r.item_core() == (prod@, 0int),
            r.la() == views(lookaheads@).to_set(),
            r.wf(),
    {
        Item { prod, dot_pos: 0, lookaheads }
    }

    pub fn prod(&self) -> (r: &Production)
        ensures
            r@ == self.item_core().0,
    {
        &self.prod
    }

    pub fn dot_pos(&self) -> (r: usize)
        ensures
            r == self.item_core().1,
    {
        self.dot_pos
    }

    pub fn lookaheads(&self) -> (r: &Vec<Symbol>)
        ensures
            views(r@).to_set() == self.la(),
    {
        &self.lookaheads
    }

    /// The symbol after the dot, or `None` when the dot is at the end.
    pub fn peek(&self) -> (r: Option<&Symbol>)
        requires
            self.wf(),
        ensures
            self.item_core().1 < self.item_core().0.rhs.len() ==> r.is_some() && r.unwrap()@ == self.item_core().0.rhs[self.item_core().1],
            self.item_core().1 == self.item_core().0.rhs.len() ==> r.is_none(),
    {
        if self.dot_pos < self.prod.rhs.len() {
            Some(&self.prod.rhs[self.dot_pos])
        } else {
            None
        }
    }

    /// Moves the dot past the next symbol, then returns the symbol after the
    /// new dot position, or `None` when the dot has reached the end.
    pub fn next(&mut self) -> (r: Option<&Symbol>)
        requires
            old(self).wf(),
            old(self).item_core().1 < old(self).item_core().0.rhs.len(),
        ensures
            final(self).item_core() == (old(self).item_core().0, old(self).item_core().1 + 1),
            final(self).la() == old(self).la(),
            final(self).wf(),
            final(self).item_core().1 < final(self).item_core().0.rhs.len() ==> r.is_some()
                && r.unwrap()@ == final(self).item_core().0.rhs[final(self).item_core().1],
            final(self).item_core().1 == final(self).item_core().0.rhs.len() ==> r.is_none(),
    {
        let len = self.prod.rhs.len();
        assert(self.prod@.rhs.len() == len);
        self.dot_pos = self.dot_pos + 1;
        if self.dot_pos < self.prod.rhs.len() {
            Some(&self.prod.rhs[self.dot_pos])
        } else {
            None
        }
    }

    /// The remainder of the item: the symbols strictly after the symbol at the
    /// dot (β in `[A -> α·Xβ]`); empty when the dot is at the end or X is last.
    pub fn rest_rhs(&self) -> (r: Vec<Symbol>)
        requires
            self.wf(),
        ensures
            self.item_core().1 < self.item_core().0.rhs.len() ==> views(r@) == self.item_core().0.rhs.subrange(
                self.item_core().1 + 1,
                self.item_core().0.rhs.len() as int,
            ),
            self.item_core().1 == self.item_core().0.rhs.len() ==> r@.len() == 0,
    {
        let mut r: Vec<Symbol> = Vec::new();
        if self.dot_pos >= self.prod.rhs.len() {
            return r;
        }
        let start = self.dot_pos + 1;
        let mut i: usize = start;
        while i < self.prod.rhs.len()
            invariant
                start == self.dot_pos + 1,
                start <= i <= self.prod.rhs@.len(),
                views(r@) == views(self.prod.rhs@).subrange(start as int, i as int),
            decreases self.prod.rhs@.len() - i,
        {
            let ghost before = views(r@);
            r.push(self.prod.rhs[i].copied());
            assert(views(r@) =~= before.push(self.prod.rhs@[i as int]@));
            assert(views(self.prod.rhs@).subrange(start as int, i + 1) =~= views(self.prod.rhs@).subrange(start as int, i as int).push(self.prod.rhs@[i as int]@));
            i = i + 1;
        }
        assert(views(self.prod.rhs@) == self.prod@.rhs);
        r
    }
}

/// An item set as a map from each core present to its lookahead set.
pub open spec fn item_model(items: Seq<Item>) -> Map<Core, Set<SymbolView>> {
    Map::new(
        |c: Core| exists|i: int| 0 <= i < items.len() && items[i].item_core() == c,
        |c: Core| Set::new(|y: SymbolView| exists|i: int| 0 <= i < items.len() && items[i].item_core() == c && items[i].la().contains(y)),
    )
}

/// No two items share a core: same-core items have been merged.
pub open spec fn cores_distinct(items: Seq<Item>) -> bool {
    forall|i: int, j: int| 0 <= i < items.len() && 0 <= j < items.len() && i != j ==> items[i].item_core() != items[j].item_core()
}

/// Every core of `a` is in `b`, with at least the same lookaheads.
pub open spec fn sub_model(a: Map<Core, Set<SymbolView>>, b: Map<Core, Set<SymbolView>>) -> bool {
    forall|c: Core| #[trigger] a.contains_key(c) ==> b.contains_key(c) && a[c].subset_of(b[c])
}

/// The lookaheads that an item of core `c` and lookaheads `la` gives the items
/// it spawns: FIRST of what follows the symbol after the dot, and `la` itself
/// when all of that is nullable.
pub open spec fn spawned_lookahead(first: Map<SymbolView, Set<SymbolView>>, nullable: Set<SymbolView>, c: Core, la: Set<SymbolView>) -> Set<SymbolView> {
    let rest = c.0.rhs.subrange(c.1 + 1, c.0.rhs.len() as int);
    seq_first(first, nullable, rest) + if all_nullable(nullable, rest) {
        la
    } else {
        Set::empty()
    }
}

/// Core `c` has a nonterminal after its dot, and production `q` of `g` expands it.
pub open spec fn expands(g: Seq<Rule>, c: Core, q: int) -> bool {
    0 <= c.1 < c.0.rhs.len() && c.0.rhs[c.1] is Nonterminal && 0 <= q < g.len() && g[q].lhs == c.0.rhs[c.1]
}

/// For each item `[A -> α·Xβ, L]` of `m` and each production `X -> γ`, `m`
/// holds `[X -> ·γ]` with the lookaheads that the item spawns.
pub open spec fn closure_closed(g: Seq<Rule>, first: Map<SymbolView, Set<SymbolView>>, nullable: Set<SymbolView>, m: Map<Core, Set<SymbolView>>) -> bool {
    forall|c: Core, q: int|
        #![trigger m.contains_key(c), expands(g, c, q)]
        m.contains_key(c) && expands(g, c, q) ==> m.contains_key((g[q], 0int)) && spawned_lookahead(first, nullable, c, m[c]).subset_of(m[(g[q], 0int)])
}

/// `m` lies below every closed superset of `m0`.
pub open spec fn closure_forced(g: Seq<Rule>, first: Map<SymbolView, Set<SymbolView>>, nullable: Set<SymbolView>, m0: Map<Core, Set<SymbolView>>, m: Map<Core, Set<SymbolView>>) -> bool {
    forall|m2: Map<Core, Set<SymbolView>>| #[trigger] closure_closed(g, first, nullable, m2) && sub_model(m0, m2) ==> sub_model(m, m2)
}

/// The closure of `m0`: its least closed superset.
pub open spec fn closure_of(g: Seq<Rule>, first: Map<SymbolView, Set<SymbolView>>, nullable: Set<SymbolView>, m0: Map<Core, Set<SymbolView>>) -> Map<Core, Set<SymbolView>> {
    choose|m: Map<Core, Set<SymbolView>>| sub_model(m0, m) && closure_closed(g, first, nullable, m) && closure_forced(g, first, nullable, m0, m)
}

/// Every value of a table, over all keys.
pub open spec fn all_values(first: Map<SymbolView, Set<SymbolView>>) -> Set<SymbolView> {
    Set::new(|y: SymbolView| exists|x: SymbolView| first.contains_key(x) && first[x].contains(y))
}

proof fn lemma_seq_first_values(first: Map<SymbolView, Set<SymbolView>>, nullable: Set<SymbolView>, s: Seq<SymbolView>)
    ensures
        seq_first(first, nullable, s).subset_of(all_values(first)),
    decreases s.len(),
{
    if s.len() > 0 {
        lemma_seq_first_values(first, nullable, s.drop_first());
        assert forall|y: SymbolView| lookup(first, s[0]).contains(y) implies all_values(first).contains(y) by {
            assert(first.contains_key(s[0]) && first[s[0]].contains(y));
        }
    }
}

proof fn lemma_closure_unique(g: Seq<Rule>, first: Map<SymbolView, Set<SymbolView>>, nullable: Set<SymbolView>, m0: Map<Core, Set<SymbolView>>, m: Map<Core, Set<SymbolView>>)
    requires
        sub_model(m0, m),
        closure_closed(g, first, nullable, m),
        closure_forced(g, first, nullable, m0, m),
    ensures
        closure_of(g, first, nullable, m0) == m,
{
    let r = closure_of(g, first, nullable, m0);
    assert(sub_model(r, m));
    assert(sub_model(m, r));
    assert(r.dom() =~= m.dom());
    assert forall|c: Core| r.contains_key(c) implies r[c] == m[c] by {
        assert(r[c] =~= m[c]);
    }
    assert(r =~= m);
}

/// In a closed set, an item `[A -> α·Xβ, L]` with `X` a nonterminal has, for
/// each production `X -> γ`, an item `[X -> ·γ]` whose lookaheads hold FIRST(β),
/// and `L` too when β is nullable.
pub proof fn lemma_closure_complete(g: Seq<Rule>, first: Map<SymbolView, Set<SymbolView>>, nullable: Set<SymbolView>, m: Map<Core, Set<SymbolView>>, c: Core, q: int)
    requires
        closure_closed(g, first, nullable, m),
        m.contains_key(c),
        expands(g, c, q),
    ensures
        m.contains_key((g[q], 0int)),
        seq_first(first, nullable, c.0.rhs.subrange(c.1 + 1, c.0.rhs.len() as int)).subset_of(m[(g[q], 0int)]),
        all_nullable(nullable, c.0.rhs.subrange(c.1 + 1, c.0.rhs.len() as int)) ==> m[c].subset_of(m[(g[q], 0int)]),
{
}

/// Closing a set that is already closed gives it back unchanged.
pub proof fn lemma_closure_of_closed(g: Seq<Rule>, first: Map<SymbolView, Set<SymbolView>>, nullable: Set<SymbolView>, m0: Map<Core, Set<SymbolView>>)
    requires
        closure_closed(g, first, nullable, m0),
    ensures
        closure_of(g, first, nullable, m0) == m0,
{
    assert(sub_model(m0, m0));
    assert forall|m2: Map<Core, Set<SymbolView>>| #[trigger] closure_closed(g, first, nullable, m2) && sub_model(m0, m2) implies sub_model(m0, m2) by {}
    lemma_closure_unique(g, first, nullable, m0, m0);
}

/// A core as an executable key.
struct CoreKey {
    prod: Production,
    dot: usize,
}

spec fn core_views(cores: Seq<CoreKey>) -> Seq<Core> {
    cores.map_values(|k: CoreKey| (k.prod@, k.dot as int))
}

/// The position of the core (`prod`, `dot`) in `cores`, if it is there.
fn find_core(cores: &Vec<CoreKey>, prod: &Production, dot: usize) -> (r: Option<usize>)
    ensures
        match r {
            Some(i) => i < cores@.len() && core_views(cores@)[i as int] == (prod@, dot as int),
            None => !core_views(cores@).contains((prod@, dot as int)),
        },
{
    let mut i: usize = 0;
    while i < cores.len()
        invariant
            i <= cores@.len(),
            forall|k: int| 0 <= k < i ==> core_views(cores@)[k] != (prod@, dot as int),
        decreases cores@.len() - i,
    {
        if cores[i].dot == dot && cores[i].prod == *prod {
            return Some(i);
        }
        i = i + 1;
    }
    None
}

/// Appends the core (`prod`, `dot`) unless it is already there.
fn add_core(cores: &mut Vec<CoreKey>, prod: &Production, dot: usize)
    requires
        core_views(old(cores)@).no_duplicates(),
    ensures
        core_views(final(cores)@).no_duplicates(),
        forall|c: Core| #[trigger] core_views(final(cores)@).contains(c) <==> (core_views(old(cores)@).contains(c) || c == (prod@, dot as int)),
{
    match find_core(cores, prod, dot) {
        Some(i) => {
            assert(core_views(cores@)[i as int] == (prod@, dot as int));
        },
        None => {
            let ghost before = core_views(cores@);
            cores.push(CoreKey { prod: prod.copied(), dot });
            assert(core_views(cores@) =~= before.push((prod@, dot as int)));
            assert forall|c: Core| #[trigger] core_views(cores@).contains(c) <==> (before.contains(c) || c == (prod@, dot as int)) by {
                if core_views(cores@).contains(c) {
                    let k = choose|k: int| 0 <= k < core_views(cores@).len() && core_views(cores@)[k] == c;
                    if k < before.len() {
                        assert(before[k] == c);
                    }
                }
                if before.contains(c) {
                    let k = choose|k: int| 0 <= k < before.len() && before[k] == c;
                    assert(core_views(cores@)[k] == c);
                }
                if c == (prod@, dot as int) {
                    assert(core_views(cores@)[before.len() as int] == c);
                }
            }
        },
    }
}

/// The cores of `items`, then each production of `g` with the dot at the start,
/// each once.
fn core_universe(g: &Grammar, items: &Vec<Item>) -> (cores: Vec<CoreKey>)
    requires
        forall|i: int| 0 <= i < items@.len() ==> (#[trigger] items@[i]).wf(),
    ensures
        core_views(cores@).no_duplicates(),
        forall|i: int| 0 <= i < items@.len() ==> core_views(cores@).contains(#[trigger] items@[i].item_core()),
        forall|q: int| 0 <= q < g@.len() ==> core_views(cores@).contains((#[trigger] g@[q], 0int)),
        forall|k: int| 0 <= k < cores@.len() ==> 0 <= (#[trigger] core_views(cores@)[k]).1 <= core_views(cores@)[k].0.rhs.len(),
{
    let mut cores: Vec<CoreKey> = Vec::new();
    let mut i: usize = 0;
    while i < items.len()
        invariant
            i <= items@.len(),
            forall|i: int| 0 <= i < items@.len() ==> (#[trigger] items@[i]).wf(),
            core_views(cores@).no_duplicates(),
            forall|ii: int| 0 <= ii < i ==> core_views(cores@).contains(#[trigger] items@[ii].item_core()),
            forall|k: int| 0 <= k < cores@.len() ==> 0 <= (#[trigger] core_views(cores@)[k]).1 <= core_views(cores@)[k].0.rhs.len(),
        decreases items@.len() - i,
    {
        let ghost before = core_views(cores@);
        add_core(&mut cores, &items[i].prod, items[i].dot_pos);
        proof {
            assert forall|k: int| 0 <= k < cores@.len() implies 0 <= (#[trigger] core_views(cores@)[k]).1 <= core_views(cores@)[k].0.rhs.len() by {
                assert(core_views(cores@).contains(core_views(cores@)[k]));
                if !before.contains(core_views(cores@)[k]) {
                    assert(items@[i as int].wf());
                } else {
                    let kk = choose|kk: int| 0 <= kk < before.len() && before[kk] == core_views(cores@)[k];
                }
            }
            assert forall|ii: int| 0 <= ii < i + 1 implies core_views(cores@).contains(#[trigger] items@[ii].item_core()) by {
                if ii < i {
                    assert(before.contains(items@[ii].item_core()));
                }
            }
        }
        i = i + 1;
    }
    let prods = g.productions();
    let mut q: usize = 0;
    while q < prods.len()
        invariant
            q <= prods@.len(),
            g@ == prods@.map_values(|p: Production| p@),
            core_views(cores@).no_duplicates(),
            forall|ii: int| 0 <= ii < items@.len() ==> core_views(cores@).contains(#[trigger] items@[ii].item_core()),
            forall|qq: int| 0 <= qq < q ==> core_views(cores@).contains((#[trigger] g@[qq], 0int)),
            forall|k: int| 0 <= k < cores@.len() ==> 0 <= (#[trigger] core_views(cores@)[k]).1 <= core_views(cores@)[k].0.rhs.len(),
        decreases prods@.len() - q,
    {
        let ghost before = core_views(cores@);
        add_core(&mut cores, &prods[q], 0);
        proof {
            assert forall|k: int| 0 <= k < cores@.len() implies 0 <= (#[trigger] core_views(cores@)[k]).1 <= core_views(cores@)[k].0.rhs.len() by {
                assert(core_views(cores@).contains(core_views(cores@)[k]));
                if before.contains(core_views(cores@)[k]) {
                    let kk = choose|kk: int| 0 <= kk < before.len() && before[kk] == core_views(cores@)[k];
                }
            }
            assert forall|ii: int| 0 <= ii < items@.len() implies core_views(cores@).contains(#[trigger] items@[ii].item_core()) by {
                assert(before.contains(items@[ii].item_core()));
            }
            assert forall|qq: int| 0 <= qq < q + 1 implies core_views(cores@).contains((#[trigger] g@[qq], 0int)) by {
                if qq < q {
                    assert(before.contains((g@[qq], 0int)));
                }
            }
        }
        q = q + 1;
    }
    cores
}

/// Every lookahead that the closure can produce: the members of every FIRST
/// set and the lookaheads of `items`.
fn lookahead_universe(first: &SymbolSets, items: &Vec<Item>) -> (las: Vec<Symbol>)
    requires
        first.wf(),
    ensures
        all_values(first@).subset_of(views(las@).to_set()),
        forall|i: int| 0 <= i < items@.len() ==> (#[trigger] items@[i]).la().subset_of(views(las@).to_set()),
{
    let keys = first.keys();
    let mut las: Vec<Symbol> = Vec::new();
    let mut k: usize = 0;
    while k < keys.len()
        invariant
            first.wf(),
            k <= keys@.len(),
            views(keys@).to_set() == first@.dom(),
            forall|kk: int| 0 <= kk < k ==> first@[#[trigger] keys@[kk]@].subset_of(views(las@).to_set()),
        decreases keys@.len() - k,
    {
        let row = first.get(&keys[k]);
        let ghost before = views(las@).to_set();
        assert(views(keys@).to_set().contains(keys@[k as int]@)) by {
            assert(views(keys@)[k as int] == keys@[k as int]@);
        }
        extend_symbols(&mut las, &row);
        k = k + 1;
    }
    assert forall|y: SymbolView| all_values(first@).contains(y) implies views(las@).to_set().contains(y) by {
        let x = choose|x: SymbolView| first@.contains_key(x) && first@[x].contains(y);
        assert(views(keys@).to_set().contains(x));
        let kk = choose|kk: int| 0 <= kk < views(keys@).len() && views(keys@)[kk] == x;
        assert(first@[keys@[kk]@].subset_of(views(las@).to_set()));
    }
    let mut i: usize = 0;
    while i < items.len()
        invariant
            i <= items@.len(),
            all_values(first@).subset_of(views(las@).to_set()),
            forall|ii: int| 0 <= ii < i ==> (#[trigger] items@[ii]).la().subset_of(views(las@).to_set()),
        decreases items@.len() - i,
    {
        extend_symbols(&mut las, &items[i].lookaheads);
        i = i + 1;
    }
    las
}

/// Whether the symbols of `rhs` from `start` on are all nullable.
fn rest_nullable(nullable: &Vec<Symbol>, rhs: &Vec<Symbol>, start: usize) -> (r: bool)
    requires
        start <= rhs@.len(),
    ensures
        r == all_nullable(views(nullable@).to_set(), views(rhs@).subrange(start as int, rhs@.len() as int)),
{
    let ghost nl = views(nullable@).to_set();
    let ghost s = views(rhs@).subrange(start as int, rhs@.len() as int);
    let mut k: usize = start;
    while k < rhs.len()
        invariant
            start <= k <= rhs@.len(),
            s == views(rhs@).subrange(start as int, rhs@.len() as int),
            nl == views(nullable@).to_set(),
            forall|kk: int| 0 <= kk < k - start ==> crate::solver::nullable_sym(nl, #[trigger] s[kk]),
        decreases rhs@.len() - k,
    {
        if !is_nullable(nullable, &rhs[k]) {
            assert(s[k - start] == rhs@[k as int]@);
            return false;
        }
        assert(s[k - start] == rhs@[k as int]@);
        k = k + 1;
    }
    true
}

/// The row over `las` of the lookaheads an item spawns: members of `fv`, and
/// the item's own lookaheads `own` when `nul` holds.
fn lookahead_row(las: &Vec<Symbol>, fv: &Vec<Symbol>, nul: bool, own: &Vec<bool>) -> (r: Vec<bool>)
    requires
        own@.len() == las@.len(),
    ensures
        r@.len() == las@.len(),
        forall|j: int| 0 <= j < las@.len() ==> r@[j] == (views(fv@).to_set().contains(las@[j]@) || (nul && own@[j])),
{
    let mut r: Vec<bool> = Vec::new();
    let mut j: usize = 0;
    while j < las.len()
        invariant
            j <= las@.len(),
            own@.len() == las@.len(),
            r@.len() == j,
            forall|jj: int| 0 <= jj < j ==> r@[jj] == (views(fv@).to_set().contains(las@[jj]@) || (nul && own@[jj])),
        decreases las@.len() - j,
    {
        let found = find_symbol(fv, &las[j]);
        proof {
            if let Some(k) = found {
                assert(views(fv@)[k as int] == las@[j as int]@);
            }
        }
        r.push(found.is_some() || (nul && own[j]));
        j = j + 1;
    }
    r
}

/// The row over `las` of the members of `v`.
fn member_row(las: &Vec<Symbol>, v: &Vec<Symbol>) -> (r: Vec<bool>)
    ensures
        r@.len() == las@.len(),
        forall|j: int| 0 <= j < las@.len() ==> r@[j] == views(v@).to_set().contains(las@[j]@),
{
    let own = empty_row(las.len());
    let r = lookahead_row(las, v, false, &own);
    r
}

/// The item set that `dom` and `rel` describe: the cores of `dom`, each with
/// the symbols `rel` relates it to.
spec fn model_of(dom: Set<Core>, rel: Set<(Core, SymbolView)>) -> Map<Core, Set<SymbolView>> {
    Map::new(|c: Core| dom.contains(c), |c: Core| image(rel, c))
}

spec fn cstate_ok(cv: Seq<Core>, lav: Seq<SymbolView>, present: Seq<bool>, la: Seq<Vec<bool>>, dom: Set<Core>, rel: Set<(Core, SymbolView)>) -> bool {
    &&& mirrors_set(cv, present, dom)
    &&& mirrors(cv, lav, la, rel)
    &&& forall|c: Core, y: SymbolView| #[trigger] rel.contains((c, y)) ==> dom.contains(c)
}

spec fn cmeasure(present: Seq<bool>, la: Seq<Vec<bool>>) -> nat {
    cf(present) + falses(la)
}

spec fn spawn_ok(g: Seq<Rule>, first: Map<SymbolView, Set<SymbolView>>, nullable: Set<SymbolView>, m: Map<Core, Set<SymbolView>>, c: Core, q: int) -> bool {
    m.contains_key((g[q], 0int)) && spawned_lookahead(first, nullable, c, m[c]).subset_of(m[(g[q], 0int)])
}

proof fn lemma_closure_step(
    g: Seq<Rule>,
    first: Map<SymbolView, Set<SymbolView>>,
    nullable: Set<SymbolView>,
    m0: Map<Core, Set<SymbolView>>,
    dom: Set<Core>,
    rel: Set<(Core, SymbolView)>,
    c: Core,
    q: int,
    img: Set<SymbolView>,
)
    requires
        closure_forced(g, first, nullable, m0, model_of(dom, rel)),
        forall|c2: Core, y: SymbolView| #[trigger] rel.contains((c2, y)) ==> dom.contains(c2),
        dom.contains(c),
        expands(g, c, q),
        img.subset_of(spawned_lookahead(first, nullable, c, image(rel, c))),
    ensures
        closure_forced(g, first, nullable, m0, model_of(dom.insert((g[q], 0int)), add_image(rel, (g[q], 0int), img))),
{
    let d = (g[q], 0int);
    let m1 = model_of(dom.insert(d), add_image(rel, d, img));
    assert forall|m2: Map<Core, Set<SymbolView>>| #[trigger] closure_closed(g, first, nullable, m2) && sub_model(m0, m2) implies sub_model(m1, m2) by {
        let m = model_of(dom, rel);
        assert(sub_model(m, m2));
        assert(m.contains_key(c));
        assert(m2.contains_key(c) && expands(g, c, q));
        assert(m2.contains_key(d));
        assert(spawned_lookahead(first, nullable, c, m2[c]).subset_of(m2[d]));
        assert(image(rel, c).subset_of(m2[c]));
        assert forall|c2: Core| #[trigger] m1.contains_key(c2) implies m2.contains_key(c2) && m1[c2].subset_of(m2[c2]) by {
            if c2 != d {
                assert(m.contains_key(c2));
                assert forall|y: SymbolView| m1[c2].contains(y) implies m2[c2].contains(y) by {
                    assert(m[c2].contains(y));
                }
            } else {
                assert forall|y: SymbolView| m1[c2].contains(y) implies m2[c2].contains(y) by {
                    if rel.contains((d, y)) {
                        assert(dom.contains(d));
                        assert(m.contains_key(d));
                        assert(m[d].contains(y));
                    } else {
                        assert(img.contains(y));
                        assert(spawned_lookahead(first, nullable, c, m2[c]).contains(y));
                    }
                }
            }
        }
    }
}

/// The closure operation over a grammar and its FIRST and nullable tables.
pub struct ClosureOp<'a> {
    pub grammar: &'a Grammar,
    pub first_s_set_op: &'a FirstSSetOp<'a>,
}

impl<'a> ClosureOp<'a> {
    pub open spec fn wf(&self) -> bool {
        self.grammar.wf() && self.first_s_set_op.first_sets.wf()
    }

    pub open spec fn first_view(&self) -> Map<SymbolView, Set<SymbolView>> {
        self.first_s_set_op.first_view()
    }

    pub open spec fn nullable_view(&self) -> Set<SymbolView> {
        self.first_s_set_op.nullable_view()
    }

    pub fn new(grammar: &'a Grammar, first_s_set_op: &'a FirstSSetOp<'a>) -> (r: Self)
        ensures
            r.grammar == grammar,
            r.first_s_set_op == first_s_set_op,
    {
        Self { grammar, first_s_set_op }
    }

    /// One pass over the cores present: each one with a nonterminal after
    /// the dot adds the items it spawns. Additions are forced, and a pass
    /// that changes nothing finds the set closed.
    #[verifier::rlimit(60)]
    fn closure_pass(
        &self,
        cores: &Vec<CoreKey>,
        las: &Vec<Symbol>,
        present: &mut Vec<bool>,
        la: &mut Vec<Vec<bool>>,
        Ghost(m0): Ghost<Map<Core, Set<SymbolView>>>,
        Ghost(dom0): Ghost<Set<Core>>,
        Ghost(rel0): Ghost<Set<(Core, SymbolView)>>,
    ) -> (r: (bool, Ghost<Set<Core>>, Ghost<Set<(Core, SymbolView)>>))
        requires
            self.wf(),
            core_views(cores@).no_duplicates(),
            forall|q: int| 0 <= q < self.grammar@.len() ==> core_views(cores@).contains((#[trigger] self.grammar@[q], 0int)),
            all_values(self.first_view()).subset_of(views(las@).to_set()),
            cstate_ok(core_views(cores@), views(las@), old(present)@, old(la)@, dom0, rel0),
            closure_forced(self.grammar@, self.first_view(), self.nullable_view(), m0, model_of(dom0, rel0)),
        ensures
            cstate_ok(core_views(cores@), views(las@), final(present)@, final(la)@, r.1@, r.2@),
            closure_forced(self.grammar@, self.first_view(), self.nullable_view(), m0, model_of(r.1@, r.2@)),
            dom0.subset_of(r.1@),
            rel0.subset_of(r.2@),
            cmeasure(final(present)@, final(la)@) <= cmeasure(old(present)@, old(la)@),
            r.0 ==> cmeasure(final(present)@, final(la)@) < cmeasure(old(present)@, old(la)@),
            !r.0 ==> r.1@ == dom0 && r.2@ == rel0 && closure_closed(self.grammar@, self.first_view(), self.nullable_view(), model_of(dom0, rel0)),
    {
        let ghost g = self.grammar@;
        let ghost f = self.first_view();
        let ghost nl = self.nullable_view();
        let ghost cv = core_views(cores@);
        let ghost lav = views(las@);
        let ghost cm0 = cmeasure(present@, la@);
        let ghost mut dom = dom0;
        let ghost mut rel = rel0;
        let prods = self.grammar.productions();
        let mut changed = false;
        let mut i: usize = 0;
        while i < cores.len()
            invariant
                self.wf(),
                g == self.grammar@,
                g == prods@.map_values(|p: Production| p@),
                f == self.first_view(),
                nl == self.nullable_view(),
                cv == core_views(cores@),
                lav == views(las@),
                cv.no_duplicates(),
                forall|q: int| 0 <= q < g.len() ==> cv.contains((#[trigger] g[q], 0int)),
                all_values(f).subset_of(lav.to_set()),
                i <= cores@.len(),
                cstate_ok(cv, lav, present@, la@, dom, rel),
                closure_forced(g, f, nl, m0, model_of(dom, rel)),
                dom0.subset_of(dom),
                rel0.subset_of(rel),
                cmeasure(present@, la@) <= cm0,
                changed ==> cmeasure(present@, la@) < cm0,
                !changed ==> dom == dom0 && rel == rel0,
                !changed ==> forall|ii: int, q: int|
                    0 <= ii < i && #[trigger] model_of(dom, rel).contains_key(cv[ii]) && #[trigger] expands(g, cv[ii], q)
                        ==> spawn_ok(g, f, nl, model_of(dom, rel), cv[ii], q),
            decreases cores@.len() - i,
        {
            let ghost c = cv[i as int];
            let dot = cores[i].dot;
            let rhs = &cores[i].prod.rhs;
            assert(c.0.rhs == views(rhs@)) by {
                assert(c.0.rhs =~= views(rhs@));
            }
            if present[i] && dot < rhs.len() && rhs[dot].is_nonterminal() {
                assert(dom.contains(c));
                let fv = self.first_s_set_op.compute_from(rhs, dot + 1);
                let nul = rest_nullable(self.first_s_set_op.nullable_set, rhs, dot + 1);
                let row = lookahead_row(las, &fv, nul, &la[i]);
                let ghost sp = spawned_lookahead(f, nl, c, image(rel, c));
                proof {
                    lemma_seq_first_values(f, nl, c.0.rhs.subrange(c.1 + 1, c.0.rhs.len() as int));
                    lemma_row_image(cv, lav, la@, rel, i as int);
                    assert forall|j: int| 0 <= j < lav.len() implies row@[j] == sp.contains(lav[j]) by {
                        assert(la@[i as int]@[j] == image(rel, c).contains(lav[j]));
                    }
                    assert forall|a: SymbolView| #[trigger] sp.contains(a) implies lav.contains(a) by {
                        if seq_first(f, nl, c.0.rhs.subrange(c.1 + 1, c.0.rhs.len() as int)).contains(a) {
                            assert(lav.to_set().contains(a));
                        } else {
                            assert(image(rel, c).contains(a));
                        }
                    }
                    assert(mirrors_set(lav, row@, sp));
                }
                let x = &rhs[dot];
                let mut q: usize = 0;
                while q < prods.len()
                    invariant
                        self.wf(),
                        g == self.grammar@,
                        g == prods@.map_values(|p: Production| p@),
                        f == self.first_view(),
                        nl == self.nullable_view(),
                        cv == core_views(cores@),
                        lav == views(las@),
                        cv.no_duplicates(),
                        forall|q: int| 0 <= q < g.len() ==> cv.contains((#[trigger] g[q], 0int)),
                        all_values(f).subset_of(lav.to_set()),
                        i < cores@.len(),
                        c == cv[i as int],
                        0 <= c.1 < c.0.rhs.len(),
                        c.0.rhs[c.1] is Nonterminal,
                        x@ == c.0.rhs[c.1],
                        dom.contains(c),
                        mirrors_set(lav, row@, sp),
                        sp.subset_of(spawned_lookahead(f, nl, c, image(rel, c))),
                        !changed ==> sp == spawned_lookahead(f, nl, c, image(rel, c)),
                        q <= prods@.len(),
                        cstate_ok(cv, lav, present@, la@, dom, rel),
                        closure_forced(g, f, nl, m0, model_of(dom, rel)),
                        dom0.subset_of(dom),
                        rel0.subset_of(rel),
                        cmeasure(present@, la@) <= cm0,
                        changed ==> cmeasure(present@, la@) < cm0,
                        !changed ==> dom == dom0 && rel == rel0,
                        !changed ==> forall|ii: int, qq: int|
                            0 <= ii < i && #[trigger] model_of(dom, rel).contains_key(cv[ii]) && #[trigger] expands(g, cv[ii], qq)
                                ==> spawn_ok(g, f, nl, model_of(dom, rel), cv[ii], qq),
                        !changed ==> forall|qq: int| 0 <= qq < q && #[trigger] expands(g, c, qq) ==> spawn_ok(g, f, nl, model_of(dom, rel), c, qq),
                    decreases prods@.len() - q,
                {
                    assert(g[q as int] == prods@[q as int]@);
                    if prods[q].start_symbol == *x {
                        assert(expands(g, c, q as int));
                        assert(cv.contains((g[q as int], 0int)));
                        let ci = match find_core(cores, &prods[q], 0) {
                            Some(ci) => ci,
                            None => {
                                assert(false);
                                0
                            },
                        };
                        let ghost d = cv[ci as int];
                        assert(d == (g[q as int], 0int));
                        let ghost dom_before = dom;
                        if !present[ci] {
                            let ghost before = present@;
                            present.set(ci, true);
                            proof {
                                lemma_cf_set(before, ci as int);
                                dom = dom.insert(d);
                                assert forall|k: int| 0 <= k < cv.len() implies present@[k] == dom.contains(cv[k]) by {
                                    if k != ci {
                                        assert(cv[k] != cv[ci as int]);
                                    }
                                }
                                assert forall|a: Core| #[trigger] dom.contains(a) implies cv.contains(a) by {
                                    if a == d {
                                        assert(cv[ci as int] == a);
                                    }
                                }
                            }
                            changed = true;
                        }
                        let ghost rel_before = rel;
                        let ch = union_row::<Core, SymbolView>(la, ci, &row, Ghost(cv), Ghost(lav), Ghost(rel), Ghost(sp));
                        proof {
                            lemma_closure_step(g, f, nl, m0, dom_before, rel, c, q as int, sp);
                            assert(dom_before.insert(d) =~= dom) by {
                                assert(present@[ci as int]);
                                assert(dom.contains(d));
                            }
                            rel = add_image(rel, d, sp);
                            assert forall|c2: Core, y: SymbolView| #[trigger] rel.contains((c2, y)) implies dom.contains(c2) by {
                                if !rel_before.contains((c2, y)) {
                                    assert(c2 == d);
                                }
                            }
                            assert(image(rel_before, c).subset_of(image(rel, c)));
                        }
                        changed = changed || ch;
                        proof {
                            if !changed {
                                assert(model_of(dom, rel).contains_key(d));
                                assert forall|y: SymbolView| sp.contains(y) implies model_of(dom, rel)[d].contains(y) by {
                                    assert(add_image(rel_before, d, sp).contains((d, y)));
                                }
                                assert(spawn_ok(g, f, nl, model_of(dom, rel), c, q as int));
                            }
                        }
                    } else {
                        assert(!expands(g, c, q as int));
                    }
                    q = q + 1;
                }
                proof {
                    if !changed {
                        assert forall|ii: int, qq: int|
                            0 <= ii < i + 1 && #[trigger] model_of(dom, rel).contains_key(cv[ii]) && #[trigger] expands(g, cv[ii], qq)
                                implies spawn_ok(g, f, nl, model_of(dom, rel), cv[ii], qq) by {
                            if ii == i {
                                assert(expands(g, c, qq));
                            }
                        }
                    }
                }
            } else {
                proof {
                    if !changed {
                        assert forall|ii: int, qq: int|
                            0 <= ii < i + 1 && #[trigger] model_of(dom, rel).contains_key(cv[ii]) && #[trigger] expands(g, cv[ii], qq)
                                implies spawn_ok(g, f, nl, model_of(dom, rel), cv[ii], qq) by {
                            if ii == i {
                                assert(present@[i as int] == dom.contains(c));
                                if dot < rhs.len() {
                                    assert(c.0.rhs[c.1] == rhs@[dot as int]@);
                                }
                            }
                        }
                    }
                }
            }
            i = i + 1;
        }
        proof {
            if !changed {
                let m = model_of(dom, rel);
                assert forall|c: Core, q: int|
                    #![trigger m.contains_key(c), expands(g, c, q)]
                    m.contains_key(c) && expands(g, c, q) implies m.contains_key((g[q], 0int)) && spawned_lookahead(f, nl, c, m[c]).subset_of(m[(g[q], 0int)]) by {
                    assert(cv.contains(c));
                    let ii = choose|ii: int| 0 <= ii < cv.len() && cv[ii] == c;
                    assert(model_of(dom, rel).contains_key(cv[ii]) && expands(g, cv[ii], q));
                    assert(spawn_ok(g, f, nl, m, cv[ii], q));
                }
            }
        }
        (changed, Ghost(dom), Ghost(rel))
    }

    /// The closure of `items`: the least item set that holds every item of
    /// `items` and, for each item with a nonterminal `X` after the dot, an item
    /// `X -> ·γ` for each production of `X` with the lookaheads it spawns.
    /// Items with one core are merged into one item.
    pub fn compute(&self, items: Vec<Item>) -> (r: Vec<Item>)
        requires
            self.wf(),
            forall|i: int| 0 <= i < items@.len() ==> (#[trigger] items@[i]).wf(),
        ensures
            item_model(r@) == closure_of(self.grammar@, self.first_view(), self.nullable_view(), item_model(items@)),
            sub_model(item_model(items@), item_model(r@)),
            closure_closed(self.grammar@, self.first_view(), self.nullable_view(), item_model(r@)),
            closure_forced(self.grammar@, self.first_view(), self.nullable_view(), item_model(items@), item_model(r@)),
            cores_distinct(r@),
            forall|i: int| 0 <= i < r@.len() ==> (#[trigger] r@[i]).wf(),
    {
        let ghost g = self.grammar@;
        let ghost f = self.first_view();
        let ghost nl = self.nullable_view();
        let ghost m0 = item_model(items@);
        let cores = core_universe(self.grammar, &items);
        let las = lookahead_universe(self.first_s_set_op.first_sets, &items);
        let ghost cv = core_views(cores@);
        let ghost lav = views(las@);
        let mut present = empty_row(cores.len());
        let mut la = empty_matrix(cores.len(), las.len());
        let ghost mut dom: Set<Core> = Set::empty();
        let ghost mut rel: Set<(Core, SymbolView)> = Set::empty();
        assert(mirrors(cv, lav, la@, rel));
        let mut k: usize = 0;
        while k < items.len()
            invariant
                cv == core_views(cores@),
                lav == views(las@),
                cv.no_duplicates(),
                forall|i: int| 0 <= i < items@.len() ==> cv.contains(#[trigger] items@[i].item_core()),
                forall|i: int| 0 <= i < items@.len() ==> (#[trigger] items@[i]).la().subset_of(lav.to_set()),
                k <= items@.len(),
                cstate_ok(cv, lav, present@, la@, dom, rel),
                dom == Set::new(|c: Core| exists|i: int| 0 <= i < k && items@[i].item_core() == c),
                rel == Set::new(|p: (Core, SymbolView)| exists|i: int| 0 <= i < k && items@[i].item_core() == p.0 && items@[i].la().contains(p.1)),
            decreases items@.len() - k,
        {
            let ghost c = items@[k as int].item_core();
            assert(cv.contains(c));
            let idx = match find_core(&cores, &items[k].prod, items[k].dot_pos) {
                Some(idx) => idx,
                None => {
                    assert(false);
                    0
                },
            };
            if !present[idx] {
                present.set(idx, true);
            }
            let row = member_row(&las, &items[k].lookaheads);
            proof {
                assert forall|a: SymbolView| #[trigger] items@[k as int].la().contains(a) implies lav.contains(a) by {
                    assert(lav.to_set().contains(a));
                }
            }
            let ghost rel_before = rel;
            let ch = union_row::<Core, SymbolView>(&mut la, idx, &row, Ghost(cv), Ghost(lav), Ghost(rel), Ghost(items@[k as int].la()));
            proof {
                let dom2 = Set::new(|c2: Core| exists|i: int| 0 <= i < k + 1 && items@[i].item_core() == c2);
                assert(dom.insert(c) =~= dom2) by {
                    assert forall|c2: Core| dom2.contains(c2) implies dom.insert(c).contains(c2) by {
                        let i = choose|i: int| 0 <= i < k + 1 && items@[i].item_core() == c2;
                        if i < k {
                            assert(dom.contains(c2));
                        }
                    }
                    assert(dom2.contains(c));
                }
                dom = dom2;
                let rel2 = Set::new(|p: (Core, SymbolView)| exists|i: int| 0 <= i < k + 1 && items@[i].item_core() == p.0 && items@[i].la().contains(p.1));
                assert(add_image(rel, c, items@[k as int].la()) =~= rel2) by {
                    assert forall|p: (Core, SymbolView)| rel2.contains(p) implies add_image(rel, c, items@[k as int].la()).contains(p) by {
                        let i = choose|i: int| 0 <= i < k + 1 && items@[i].item_core() == p.0 && items@[i].la().contains(p.1);
                        if i < k {
                            assert(rel.contains(p));
                        }
                    }
                }
                rel = rel2;
                assert forall|i: int| 0 <= i < cv.len() implies present@[i] == dom.contains(cv[i]) by {
                    if i != idx {
                        assert(cv[i] != cv[idx as int]);
                    }
                }
                assert forall|a: Core| #[trigger] dom.contains(a) implies cv.contains(a) by {
                    let i = choose|i: int| 0 <= i < k + 1 && items@[i].item_core() == a;
                }
                assert forall|c2: Core, y: SymbolView| #[trigger] rel.contains((c2, y)) implies dom.contains(c2) by {
                    let i = choose|i: int| 0 <= i < k + 1 && items@[i].item_core() == c2 && items@[i].la().contains(y);
                }
            }
            k = k + 1;
        }
        proof {
            assert(model_of(dom, rel) =~= m0) by {
                assert forall|c: Core| dom.contains(c) implies model_of(dom, rel)[c] == m0[c] by {
                    assert(image(rel, c) =~= m0[c]);
                }
            }
            assert forall|m2: Map<Core, Set<SymbolView>>| #[trigger] closure_closed(g, f, nl, m2) && sub_model(m0, m2) implies sub_model(model_of(dom, rel), m2) by {}
            assert(sub_model(m0, model_of(dom, rel)));
        }
        let mut changed = true;
        let ghost start = cmeasure(present@, la@);
        let ghost mut passes: int = 0;
        proof {
            lemma_falses_bound(la@, las@.len());
            lemma_cf_bound(present@);
            assert(start <= cores@.len() * las@.len() + cores@.len());
        }
        while changed
            invariant
                passes <= start - cmeasure(present@, la@) + if changed {
                    0int
                } else {
                    1int
                },
                present@.len() == cores@.len(),
                forall|i: int| 0 <= i < la@.len() ==> (#[trigger] la@[i])@.len() == las@.len(),
                la@.len() == cores@.len(),
                self.wf(),
                g == self.grammar@,
                f == self.first_view(),
                nl == self.nullable_view(),
                cv == core_views(cores@),
                lav == views(las@),
                cv.no_duplicates(),
                forall|q: int| 0 <= q < g.len() ==> cv.contains((#[trigger] g[q], 0int)),
                forall|j: int| 0 <= j < cores@.len() ==> 0 <= (#[trigger] cv[j]).1 <= cv[j].0.rhs.len(),
                all_values(f).subset_of(lav.to_set()),
                cstate_ok(cv, lav, present@, la@, dom, rel),
                closure_forced(g, f, nl, m0, model_of(dom, rel)),
                sub_model(m0, model_of(dom, rel)),
                !changed ==> closure_closed(g, f, nl, model_of(dom, rel)),
            decreases cmeasure(present@, la@) + if changed {
                1nat
            } else {
                0nat
            },
        {
            let ghost d0 = dom;
            let ghost r0 = rel;
            let (ch, Ghost(d1), Ghost(r1)) = self.closure_pass(&cores, &las, &mut present, &mut la, Ghost(m0), Ghost(dom), Ghost(rel));
            proof {
                passes = passes + 1;
                dom = d1;
                rel = r1;
                assert forall|c: Core| #[trigger] m0.contains_key(c) implies model_of(dom, rel).contains_key(c) && m0[c].subset_of(model_of(dom, rel)[c]) by {
                    assert(model_of(d0, r0).contains_key(c));
                    assert(m0[c].subset_of(image(r0, c)));
                }
            }
            changed = ch;
        }
        proof {
            lemma_closure_unique(g, f, nl, m0, model_of(dom, rel));
            // Each pass but the last adds a core or a lookahead: the passes are
            // bounded by the number of cores times one more than the lookaheads.
            assert(passes <= cores@.len() * las@.len() + cores@.len() + 1);
        }
        let ghost result = model_of(dom, rel);
        let mut out: Vec<Item> = Vec::new();
        let ghost mut idxs: Seq<int> = Seq::empty();
        let mut i: usize = 0;
        while i < cores.len()
            invariant
                cv == core_views(cores@),
                lav == views(las@),
                cv.no_duplicates(),
                forall|j: int| 0 <= j < cores@.len() ==> 0 <= (#[trigger] cv[j]).1 <= cv[j].0.rhs.len(),
                cstate_ok(cv, lav, present@, la@, dom, rel),
                i <= cores@.len(),
                out@.len() == idxs.len(),
                forall|kk: int| 0 <= kk < idxs.len() ==> 0 <= #[trigger] idxs[kk] < i && present@[idxs[kk]],
                forall|kk: int| 0 <= kk < idxs.len() ==> (#[trigger] out@[kk]).item_core() == cv[idxs[kk]],
                forall|kk: int| 0 <= kk < idxs.len() ==> (#[trigger] out@[kk]).la() == image(rel, cv[idxs[kk]]),
                forall|k1: int, k2: int| 0 <= k1 < k2 < idxs.len() ==> idxs[k1] < idxs[k2],
                forall|j: int| 0 <= j < i && present@[j] ==> exists|kk: int| 0 <= kk < idxs.len() && #[trigger] idxs[kk] == j,
            decreases cores@.len() - i,
        {
            if present[i] {
                proof {
                    lemma_row_image(cv, lav, la@, rel, i as int);
                }
                let lk = crate::solver::select(&las, &la[i], Ghost(image(rel, cv[i as int])));
                let item = Item { prod: cores[i].prod.copied(), dot_pos: cores[i].dot, lookaheads: lk };
                out.push(item);
                proof {
                    let old_idxs = idxs;
                    idxs = idxs.push(i as int);
                    assert forall|j: int| 0 <= j < i + 1 && present@[j] implies exists|kk: int| 0 <= kk < idxs.len() && #[trigger] idxs[kk] == j by {
                        if j < i {
                            let kk = choose|kk: int| 0 <= kk < old_idxs.len() && old_idxs[kk] == j;
                            assert(idxs[kk] == j);
                        } else {
                            assert(idxs[old_idxs.len() as int] == j);
                        }
                    }
                }
            }
            i = i + 1;
        }
        proof {
            let m = model_of(dom, rel);
            assert forall|k1: int, k2: int| 0 <= k1 < out@.len() && 0 <= k2 < out@.len() && k1 != k2 implies out@[k1].item_core() != out@[k2].item_core() by {
                if k1 < k2 {
                    assert(idxs[k1] < idxs[k2]);
                } else {
                    assert(idxs[k2] < idxs[k1]);
                }
            }
            assert forall|c: Core| item_model(out@).contains_key(c) <==> m.contains_key(c) by {
                if m.contains_key(c) {
                    assert(cv.contains(c));
                    let j = choose|j: int| 0 <= j < cv.len() && cv[j] == c;
                    assert(present@[j]);
                    let kk = choose|kk: int| 0 <= kk < idxs.len() && #[trigger] idxs[kk] == j;
                    assert(out@[kk].item_core() == c);
                }
                if item_model(out@).contains_key(c) {
                    let kk = choose|kk: int| 0 <= kk < out@.len() && out@[kk].item_core() == c;
                    assert(present@[idxs[kk]]);
                }
            }
            assert forall|c: Core| #[trigger] item_model(out@).contains_key(c) implies item_model(out@)[c] == m[c] by {
                let kk = choose|kk: int| 0 <= kk < out@.len() && out@[kk].item_core() == c;
                assert forall|y: SymbolView| item_model(out@)[c].contains(y) implies m[c].contains(y) by {
                    let k2 = choose|k2: int| 0 <= k2 < out@.len() && out@[k2].item_core() == c && out@[k2].la().contains(y);
                    assert(out@[k2].la() == image(rel, cv[idxs[k2]]));
                }
                assert forall|y: SymbolView| m[c].contains(y) implies item_model(out@)[c].contains(y) by {
                    assert(out@[kk].la() == image(rel, cv[idxs[kk]]));
                }
                assert(item_model(out@)[c] =~= m[c]);
            }
            assert(item_model(out@) =~= m);
            assert(m == result);
            assert forall|kk: int| 0 <= kk < out@.len() implies (#[trigger] out@[kk]).wf() by {
                assert(0 <= cv[idxs[kk]].1 <= cv[idxs[kk]].0.rhs.len());
            }
        }
        out
    }
}

/// The item has `x` right after its dot.
pub open spec fn moves_on(it: Item, x: SymbolView) -> bool {
    it.item_core().1 < it.item_core().0.rhs.len() && it.item_core().0.rhs[it.item_core().1] == x
}

/// The items of `items` with `x` after the dot, with the dot moved past it.
pub open spec fn goto_kernel(items: Seq<Item>, x: SymbolView) -> Map<Core, Set<SymbolView>> {
    Map::new(
        |c: Core| exists|i: int| 0 <= i < items.len() && moves_on(items[i], x) && (items[i].item_core().0, items[i].item_core().1 + 1) == c,
        |c: Core| Set::new(|y: SymbolView| exists|i: int|
            0 <= i < items.len() && moves_on(items[i], x) && (items[i].item_core().0, items[i].item_core().1 + 1) == c && items[i].la().contains(y)),
    )
}

/// The state reached from `items` on `x`: the closure of the items that have
/// `x` after the dot, each advanced past it. Empty when no item moves on `x`.
pub fn goto(closure_op: &ClosureOp, items: &Vec<Item>, x: &Symbol) -> (r: Vec<Item>)
    requires
        closure_op.wf(),
        forall|i: int| 0 <= i < items@.len() ==> (#[trigger] items@[i]).wf(),
    ensures
        item_model(r@) == closure_of(closure_op.grammar@, closure_op.first_view(), closure_op.nullable_view(), goto_kernel(items@, x@)),
        sub_model(goto_kernel(items@, x@), item_model(r@)),
        closure_closed(closure_op.grammar@, closure_op.first_view(), closure_op.nullable_view(), item_model(r@)),
        closure_forced(closure_op.grammar@, closure_op.first_view(), closure_op.nullable_view(), goto_kernel(items@, x@), item_model(r@)),
        cores_distinct(r@),
        forall|i: int| 0 <= i < r@.len() ==> (#[trigger] r@[i]).wf(),
{
    let mut kernel: Vec<Item> = Vec::new();
    let ghost mut src: Seq<int> = Seq::empty();
    let mut i: usize = 0;
    while i < items.len()
        invariant
            forall|i: int| 0 <= i < items@.len() ==> (#[trigger] items@[i]).wf(),
            i <= items@.len(),
            kernel@.len() == src.len(),
            forall|k: int| 0 <= k < src.len() ==> 0 <= #[trigger] src[k] < i && moves_on(items@[src[k]], x@),
            forall|k: int| 0 <= k < src.len() ==> (#[trigger] kernel@[k]).item_core() == (items@[src[k]].item_core().0, items@[src[k]].item_core().1 + 1),
            forall|k: int| 0 <= k < src.len() ==> (#[trigger] kernel@[k]).la() == items@[src[k]].la(),
            forall|k: int| 0 <= k < src.len() ==> (#[trigger] kernel@[k]).wf(),
            forall|j: int| 0 <= j < i && moves_on(items@[j], x@) ==> exists|k: int| 0 <= k < src.len() && #[trigger] src[k] == j,
        decreases items@.len() - i,
    {
        let it = &items[i];
        let moves = match it.peek() {
            Some(s) => *s == *x,
            None => false,
        };
        if moves {
            let len = it.prod.rhs.len();
            assert(it.prod@.rhs.len() == len);
            let adv = Item { prod: it.prod.copied(), dot_pos: it.dot_pos + 1, lookaheads: copy_symbols(&it.lookaheads) };
            kernel.push(adv);
            proof {
                let old_src = src;
                src = src.push(i as int);
                assert forall|j: int| 0 <= j < i + 1 && moves_on(items@[j], x@) implies exists|k: int| 0 <= k < src.len() && #[trigger] src[k] == j by {
                    if j < i {
                        let k = choose|k: int| 0 <= k < old_src.len() && old_src[k] == j;
                        assert(src[k] == j);
                    } else {
                        assert(src[old_src.len() as int] == j);
                    }
                }
            }
        }
        i = i + 1;
    }
    proof {
        let km = goto_kernel(items@, x@);
        assert forall|c: Core| item_model(kernel@).contains_key(c) <==> km.contains_key(c) by {
            if km.contains_key(c) {
                let j = choose|j: int| 0 <= j < items@.len() && moves_on(items@[j], x@) && (items@[j].item_core().0, items@[j].item_core().1 + 1) == c;
                let k = choose|k: int| 0 <= k < src.len() && #[trigger] src[k] == j;
                assert(kernel@[k].item_core() == c);
            }
            if item_model(kernel@).contains_key(c) {
                let k = choose|k: int| 0 <= k < kernel@.len() && kernel@[k].item_core() == c;
                assert(moves_on(items@[src[k]], x@));
            }
        }
        assert forall|c: Core| #[trigger] item_model(kernel@).contains_key(c) implies item_model(kernel@)[c] == km[c] by {
            assert forall|y: SymbolView| item_model(kernel@)[c].contains(y) implies km[c].contains(y) by {
                let k = choose|k: int| 0 <= k < kernel@.len() && kernel@[k].item_core() == c && kernel@[k].la().contains(y);
                assert(moves_on(items@[src[k]], x@));
                assert(items@[src[k]].la().contains(y));
            }
            assert forall|y: SymbolView| km[c].contains(y) implies item_model(kernel@)[c].contains(y) by {
                let j = choose|j: int| 0 <= j < items@.len() && moves_on(items@[j], x@) && (items@[j].item_core().0, items@[j].item_core().1 + 1) == c && items@[j].la().contains(y);
                let k = choose|k: int| 0 <= k < src.len() && #[trigger] src[k] == j;
                assert(kernel@[k].item_core() == c && kernel@[k].la().contains(y));
            }
            assert(item_model(kernel@)[c] =~= km[c]);
        }
        assert(item_model(kernel@) =~= km);
    }
    closure_op.compute(kernel)
}

/// The goto operation over a closure operation.
pub struct GotoOp<'a> {
    pub closure_op: &'a ClosureOp<'a>,
}

impl<'a> GotoOp<'a> {
    pub fn new(closure_op: &'a ClosureOp<'a>) -> (r: Self)
        ensures
            r.closure_op == closure_op,
    {
        Self { closure_op }
    }

    /// `goto` from `items` on `x`.
    pub fn compute(&self, items: Vec<Item>, x: &Symbol) -> (r: Vec<Item>)
        requires
            self.closure_op.wf(),
            forall|i: int| 0 <= i < items@.len() ==> (#[trigger] items@[i]).wf(),
        ensures
            item_model(r@) == closure_of(self.closure_op.grammar@, self.closure_op.first_view(), self.closure_op.nullable_view(), goto_kernel(items@, x@)),
            sub_model(goto_kernel(items@, x@), item_model(r@)),
            closure_closed(self.closure_op.grammar@, self.closure_op.first_view(), self.closure_op.nullable_view(), item_model(r@)),
            closure_forced(self.closure_op.grammar@, self.closure_op.first_view(), self.closure_op.nullable_view(), goto_kernel(items@, x@), item_model(r@)),
            cores_distinct(r@),
            forall|i: int| 0 <= i < r@.len() ==> (#[trigger] r@[i]).wf(),
    {
        goto(self.closure_op, &items, x)
    }
}

} // verus!
