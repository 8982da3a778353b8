use vstd::prelude::*;
use crate::symbol::{Symbol, SymbolView};
use crate::grammar::{Grammar, Rule};
use crate::tables::{SymbolSets, views, occurs, grammar_symbol, table_of, find_symbol};

verus! {

/// FIRST, FOLLOW and nullability as relations: `(x, t)` in `first` says that
/// `t` is in FIRST(x), likewise for `follow`.
pub struct Tables {
    pub first: Set<(SymbolView, SymbolView)>,
    pub follow: Set<(SymbolView, SymbolView)>,
    pub nullable: Set<SymbolView>,
}

/// `s` derives the empty string according to `nullable`; the empty-string
/// terminal always does.
pub open spec fn nullable_sym(nullable: Set<SymbolView>, s: SymbolView) -> bool {
    s is Epsilon || nullable.contains(s)
}

/// Every symbol of `s` is nullable (true of the empty sequence).
pub open spec fn all_nullable(nullable: Set<SymbolView>, s: Seq<SymbolView>) -> bool {
    forall|k: int| 0 <= k < s.len() ==> nullable_sym(nullable, #[trigger] s[k])
}

/// Each table of `a` is contained in the same table of `b`.
pub open spec fn le(a: Tables, b: Tables) -> bool {
    a.first.subset_of(b.first) && a.follow.subset_of(b.follow) && a.nullable.subset_of(b.nullable)
}

/// FIRST of the body's `i`-th symbol flows into FIRST of the head when the
/// symbols before it are nullable.
pub open spec fn first_ok(g: Seq<Rule>, t: Tables, p: int, i: int) -> bool {
    all_nullable(t.nullable, g[p].rhs.subrange(0, i)) ==> forall|y: SymbolView|
        #[trigger] t.first.contains((g[p].rhs[i], y)) ==> t.first.contains((g[p].lhs, y))
}

/// FIRST of the `j`-th symbol flows into FOLLOW of the `i`-th symbol when the
/// symbols strictly between them are nullable.
pub open spec fn follow_ok(g: Seq<Rule>, t: Tables, p: int, i: int, j: int) -> bool {
    !(g[p].rhs[i] is Epsilon) && all_nullable(t.nullable, g[p].rhs.subrange(i + 1, j)) ==> forall|
        y: SymbolView,
    | #[trigger] t.first.contains((g[p].rhs[j], y)) ==> t.follow.contains((g[p].rhs[i], y))
}

/// FOLLOW of the head flows into FOLLOW of the `i`-th symbol when the rest of
/// the body is nullable.
pub open spec fn end_ok(g: Seq<Rule>, t: Tables, p: int, i: int) -> bool {
    !(g[p].rhs[i] is Epsilon) && all_nullable(t.nullable, g[p].rhs.subrange(i + 1, g[p].rhs.len() as int))
        ==> forall|y: SymbolView| #[trigger] t.follow.contains((g[p].lhs, y)) ==> t.follow.contains((g[p].rhs[i], y))
}

/// The head is nullable when the whole body is.
pub open spec fn nullable_ok(g: Seq<Rule>, t: Tables, p: int) -> bool {
    all_nullable(t.nullable, g[p].rhs) ==> t.nullable.contains(g[p].lhs)
}

/// All the rules that production `p` contributes hold in `t`.
pub open spec fn prod_ok(g: Seq<Rule>, t: Tables, p: int) -> bool {
    &&& forall|i: int| 0 <= i < g[p].rhs.len() ==> #[trigger] first_ok(g, t, p, i)
    &&& forall|i: int| 0 <= i < g[p].rhs.len() ==> #[trigger] end_ok(g, t, p, i)
    &&& forall|i: int, j: int| 0 <= i < j < g[p].rhs.len() ==> #[trigger] follow_ok(g, t, p, i, j)
    &&& nullable_ok(g, t, p)
}

/// Each named terminal in a body is in its own FIRST set.
pub open spec fn seeded(g: Seq<Rule>, t: Tables) -> bool {
    forall|p: int, k: int|
        0 <= p < g.len() && 0 <= k < g[p].rhs.len() && g[p].rhs[k] is Terminal
            ==> #[trigger] t.first.contains((g[p].rhs[k], g[p].rhs[k]))
}

/// `t` is closed under every rule of the FIRST/FOLLOW/nullable equations of `g`:
/// one more pass over the grammar would add nothing.
pub open spec fn closed(g: Seq<Rule>, t: Tables) -> bool {
    seeded(g, t) && forall|p: int| 0 <= p < g.len() ==> #[trigger] prod_ok(g, t, p)
}

/// Everything in `t` is forced by the equations: `t` is below every closed `u`.
pub open spec fn forced(g: Seq<Rule>, t: Tables) -> bool {
    forall|u: Tables| #[trigger] closed(g, u) ==> le(t, u)
}

/// The least solution of the FIRST/FOLLOW/nullable equations of `g`.
pub open spec fn solution(g: Seq<Rule>) -> Tables {
    choose|t: Tables| closed(g, t) && forced(g, t)
}

/// One full pass of the equations of `g` over `t`: `t` together with everything
/// that a single application of each rule derives from it.
pub open spec fn step(g: Seq<Rule>, t: Tables) -> Tables {
    Tables {
        first: t.first + Set::new(|q: (SymbolView, SymbolView)| exists|p: int, k: int|
            0 <= p < g.len() && 0 <= k < g[p].rhs.len() && g[p].rhs[k] is Terminal && q == (g[p].rhs[k], g[p].rhs[k]))
            + Set::new(|q: (SymbolView, SymbolView)| exists|p: int, i: int|
            0 <= p < g.len() && 0 <= i < g[p].rhs.len() && all_nullable(t.nullable, g[p].rhs.subrange(0, i))
                && q.0 == g[p].lhs && #[trigger] t.first.contains((g[p].rhs[i], q.1))),
        follow: t.follow + Set::new(|q: (SymbolView, SymbolView)| exists|p: int, i: int, j: int| #![trigger t.first.contains((g[p].rhs[j], q.1)), g[p].rhs[i]]
            0 <= p < g.len() && 0 <= i < j < g[p].rhs.len() && !(g[p].rhs[i] is Epsilon)
                && all_nullable(t.nullable, g[p].rhs.subrange(i + 1, j)) && q.0 == g[p].rhs[i]
                && t.first.contains((g[p].rhs[j], q.1)))
            + Set::new(|q: (SymbolView, SymbolView)| exists|p: int, i: int| #![trigger t.follow.contains((g[p].lhs, q.1)), g[p].rhs[i]]
            0 <= p < g.len() && 0 <= i < g[p].rhs.len() && !(g[p].rhs[i] is Epsilon)
                && all_nullable(t.nullable, g[p].rhs.subrange(i + 1, g[p].rhs.len() as int)) && q.0 == g[p].rhs[i]
                && t.follow.contains((g[p].lhs, q.1))),
        nullable: t.nullable + Set::new(|x: SymbolView| exists|p: int|
            0 <= p < g.len() && all_nullable(t.nullable, g[p].rhs) && x == #[trigger] g[p].lhs),
    }
}

/// A pass never removes anything: FIRST, FOLLOW and the nullable set only grow.
pub proof fn lemma_step_grows(g: Seq<Rule>, t: Tables)
    ensures
        le(t, step(g, t)),
{
}

/// The tables after `n` passes from `t`.
pub open spec fn passes(g: Seq<Rule>, t: Tables, n: nat) -> Tables
    decreases n,
{
    if n == 0 {
        t
    } else {
        step(g, passes(g, t, (n - 1) as nat))
    }
}

/// Along any sequence of passes the tables only grow: after more passes they
/// hold everything they held after fewer.
pub proof fn lemma_passes_grow(g: Seq<Rule>, t: Tables, m: nat, n: nat)
    requires
        m <= n,
    ensures
        le(passes(g, t, m), passes(g, t, n)),
    decreases n - m,
{
    if m < n {
        lemma_passes_grow(g, t, m, (n - 1) as nat);
        lemma_step_grows(g, passes(g, t, (n - 1) as nat));
    }
}

/// A pass is monotone: larger tables give larger tables.
pub proof fn lemma_step_monotone(g: Seq<Rule>, a: Tables, b: Tables)
    requires
        le(a, b),
    ensures
        le(step(g, a), step(g, b)),
{
    let sa = step(g, a);
    let sb = step(g, b);
    assert forall|q: (SymbolView, SymbolView)| sa.first.contains(q) implies sb.first.contains(q) by {
        if !a.first.contains(q) && !(exists|p: int, k: int|
            0 <= p < g.len() && 0 <= k < g[p].rhs.len() && g[p].rhs[k] is Terminal && q == (g[p].rhs[k], g[p].rhs[k])) {
            let (p, i) = choose|p: int, i: int|
                0 <= p < g.len() && 0 <= i < g[p].rhs.len() && all_nullable(a.nullable, g[p].rhs.subrange(0, i))
                    && q.0 == g[p].lhs && #[trigger] a.first.contains((g[p].rhs[i], q.1));
            lemma_all_nullable_mono(a.nullable, b.nullable, g[p].rhs.subrange(0, i));
            assert(b.first.contains((g[p].rhs[i], q.1)));
        }
    }
    assert forall|q: (SymbolView, SymbolView)| sa.follow.contains(q) implies sb.follow.contains(q) by {
        if !a.follow.contains(q) {
            if exists|p: int, i: int, j: int| #![trigger a.first.contains((g[p].rhs[j], q.1)), g[p].rhs[i]]
                0 <= p < g.len() && 0 <= i < j < g[p].rhs.len() && !(g[p].rhs[i] is Epsilon)
                    && all_nullable(a.nullable, g[p].rhs.subrange(i + 1, j)) && q.0 == g[p].rhs[i]
                    && a.first.contains((g[p].rhs[j], q.1)) {
                let (p, i, j) = choose|p: int, i: int, j: int| #![trigger a.first.contains((g[p].rhs[j], q.1)), g[p].rhs[i]]
                    0 <= p < g.len() && 0 <= i < j < g[p].rhs.len() && !(g[p].rhs[i] is Epsilon)
                        && all_nullable(a.nullable, g[p].rhs.subrange(i + 1, j)) && q.0 == g[p].rhs[i]
                        && a.first.contains((g[p].rhs[j], q.1));
                lemma_all_nullable_mono(a.nullable, b.nullable, g[p].rhs.subrange(i + 1, j));
                assert(b.first.contains((g[p].rhs[j], q.1)));
            } else {
                let (p, i) = choose|p: int, i: int| #![trigger a.follow.contains((g[p].lhs, q.1)), g[p].rhs[i]]
                    0 <= p < g.len() && 0 <= i < g[p].rhs.len() && !(g[p].rhs[i] is Epsilon)
                        && all_nullable(a.nullable, g[p].rhs.subrange(i + 1, g[p].rhs.len() as int)) && q.0 == g[p].rhs[i]
                        && a.follow.contains((g[p].lhs, q.1));
                lemma_all_nullable_mono(a.nullable, b.nullable, g[p].rhs.subrange(i + 1, g[p].rhs.len() as int));
                assert(b.follow.contains((g[p].lhs, q.1)));
            }
        }
    }
    assert forall|x: SymbolView| sa.nullable.contains(x) implies sb.nullable.contains(x) by {
        if !a.nullable.contains(x) {
            let p = choose|p: int| 0 <= p < g.len() && all_nullable(a.nullable, g[p].rhs) && x == #[trigger] g[p].lhs;
            lemma_all_nullable_mono(a.nullable, b.nullable, g[p].rhs);
        }
    }
}

/// Tables are closed exactly when one more pass leaves them as they are; in
/// particular a pass over the solution adds nothing.
pub proof fn lemma_closed_iff_stable(g: Seq<Rule>, t: Tables)
    ensures
        closed(g, t) <==> step(g, t) == t,
{
    let s = step(g, t);
    if closed(g, t) {
        assert forall|q: (SymbolView, SymbolView)| s.first.contains(q) implies t.first.contains(q) by {
            if !t.first.contains(q) {
                if exists|p: int, k: int|
                    0 <= p < g.len() && 0 <= k < g[p].rhs.len() && g[p].rhs[k] is Terminal && q == (g[p].rhs[k], g[p].rhs[k]) {
                    let (p, k) = choose|p: int, k: int|
                        0 <= p < g.len() && 0 <= k < g[p].rhs.len() && g[p].rhs[k] is Terminal && q == (g[p].rhs[k], g[p].rhs[k]);
                    assert(t.first.contains((g[p].rhs[k], g[p].rhs[k])));
                } else {
                    let (p, i) = choose|p: int, i: int|
                        0 <= p < g.len() && 0 <= i < g[p].rhs.len() && all_nullable(t.nullable, g[p].rhs.subrange(0, i))
                            && q.0 == g[p].lhs && #[trigger] t.first.contains((g[p].rhs[i], q.1));
                    assert(prod_ok(g, t, p));
                    assert(first_ok(g, t, p, i));
                }
            }
        }
        assert forall|q: (SymbolView, SymbolView)| s.follow.contains(q) implies t.follow.contains(q) by {
            if !t.follow.contains(q) {
                if exists|p: int, i: int, j: int| #![trigger t.first.contains((g[p].rhs[j], q.1)), g[p].rhs[i]]
                    0 <= p < g.len() && 0 <= i < j < g[p].rhs.len() && !(g[p].rhs[i] is Epsilon)
                        && all_nullable(t.nullable, g[p].rhs.subrange(i + 1, j)) && q.0 == g[p].rhs[i]
                        && t.first.contains((g[p].rhs[j], q.1)) {
                    let (p, i, j) = choose|p: int, i: int, j: int| #![trigger t.first.contains((g[p].rhs[j], q.1)), g[p].rhs[i]]
                        0 <= p < g.len() && 0 <= i < j < g[p].rhs.len() && !(g[p].rhs[i] is Epsilon)
                            && all_nullable(t.nullable, g[p].rhs.subrange(i + 1, j)) && q.0 == g[p].rhs[i]
                            && t.first.contains((g[p].rhs[j], q.1));
                    assert(prod_ok(g, t, p));
                    assert(follow_ok(g, t, p, i, j));
                } else {
                    let (p, i) = choose|p: int, i: int| #![trigger t.follow.contains((g[p].lhs, q.1)), g[p].rhs[i]]
                        0 <= p < g.len() && 0 <= i < g[p].rhs.len() && !(g[p].rhs[i] is Epsilon)
                            && all_nullable(t.nullable, g[p].rhs.subrange(i + 1, g[p].rhs.len() as int)) && q.0 == g[p].rhs[i]
                            && t.follow.contains((g[p].lhs, q.1));
                    assert(prod_ok(g, t, p));
                    assert(end_ok(g, t, p, i));
                }
            }
        }
        assert forall|x: SymbolView| s.nullable.contains(x) implies t.nullable.contains(x) by {
            if !t.nullable.contains(x) {
                let p = choose|p: int| 0 <= p < g.len() && all_nullable(t.nullable, g[p].rhs) && x == #[trigger] g[p].lhs;
                assert(prod_ok(g, t, p));
            }
        }
        assert(s.first =~= t.first);
        assert(s.follow =~= t.follow);
        assert(s.nullable =~= t.nullable);
    }
    if s == t {
        assert forall|p: int, k: int|
            0 <= p < g.len() && 0 <= k < g[p].rhs.len() && g[p].rhs[k] is Terminal
                implies #[trigger] t.first.contains((g[p].rhs[k], g[p].rhs[k])) by {
            assert(s.first.contains((g[p].rhs[k], g[p].rhs[k])));
        }
        assert forall|p: int| 0 <= p < g.len() implies #[trigger] prod_ok(g, t, p) by {
            assert forall|i: int| 0 <= i < g[p].rhs.len() implies #[trigger] first_ok(g, t, p, i) by {
                if all_nullable(t.nullable, g[p].rhs.subrange(0, i)) {
                    assert forall|y: SymbolView| #[trigger] t.first.contains((g[p].rhs[i], y)) implies t.first.contains((g[p].lhs, y)) by {
                        let q = (g[p].lhs, y);
                        assert(t.first.contains((g[p].rhs[i], q.1)));
                        assert(s.first.contains(q));
                    }
                }
            }
            assert forall|i: int| 0 <= i < g[p].rhs.len() implies #[trigger] end_ok(g, t, p, i) by {
                if !(g[p].rhs[i] is Epsilon) && all_nullable(t.nullable, g[p].rhs.subrange(i + 1, g[p].rhs.len() as int)) {
                    assert forall|y: SymbolView| #[trigger] t.follow.contains((g[p].lhs, y)) implies t.follow.contains((g[p].rhs[i], y)) by {
                        let q = (g[p].rhs[i], y);
                        assert(t.follow.contains((g[p].lhs, q.1)));
                        assert(s.follow.contains(q));
                    }
                }
            }
            assert forall|i: int, j: int| 0 <= i < j < g[p].rhs.len() implies #[trigger] follow_ok(g, t, p, i, j) by {
                if !(g[p].rhs[i] is Epsilon) && all_nullable(t.nullable, g[p].rhs.subrange(i + 1, j)) {
                    assert forall|y: SymbolView| #[trigger] t.first.contains((g[p].rhs[j], y)) implies t.follow.contains((g[p].rhs[i], y)) by {
                        let q = (g[p].rhs[i], y);
                        assert(t.first.contains((g[p].rhs[j], q.1)));
                        assert(s.follow.contains(q));
                    }
                }
            }
            if all_nullable(t.nullable, g[p].rhs) {
                assert(s.nullable.contains(g[p].lhs));
            }
        }
    }
}

/// Nullability only grows with the nullable set.
pub proof fn lemma_all_nullable_mono(a: Set<SymbolView>, b: Set<SymbolView>, s: Seq<SymbolView>)
    requires
        a.subset_of(b),
        all_nullable(a, s),
    ensures
        all_nullable(b, s),
{
}

/// A closed and forced table is the least solution.
pub proof fn lemma_solution_unique(g: Seq<Rule>, t: Tables)
    requires
        closed(g, t),
        forced(g, t),
    ensures
        solution(g) == t,
{
    let s = solution(g);
    assert(closed(g, s) && forced(g, s));
    assert(le(t, s));
    assert(le(s, t));
    assert(s.first =~= t.first);
    assert(s.follow =~= t.follow);
    assert(s.nullable =~= t.nullable);
}

/// The number of `false` entries of a row.
pub open spec fn cf(s: Seq<bool>) -> nat
    decreases s.len(),
{
    if s.len() == 0 {
        0
    } else {
        cf(s.drop_last()) + if s.last() {
            0nat
        } else {
            1nat
        }
    }
}

/// The number of `false` entries of a matrix.
pub open spec fn falses(m: Seq<Vec<bool>>) -> nat
    decreases m.len(),
{
    if m.len() == 0 {
        0
    } else {
        falses(m.drop_last()) + cf(m.last()@)
    }
}

pub(crate) proof fn lemma_cf_set(s: Seq<bool>, j: int)
    requires
        0 <= j < s.len(),
        !s[j],
    ensures
        cf(s.update(j, true)) + 1 == cf(s),
    decreases s.len(),
{
    if j < s.len() - 1 {
        assert(s.update(j, true).drop_last() =~= s.drop_last().update(j, true));
        lemma_cf_set(s.drop_last(), j);
    } else {
        assert(s.update(j, true).drop_last() =~= s.drop_last());
    }
}

proof fn lemma_falses_update(m: Seq<Vec<bool>>, d: int, r: Vec<bool>)
    requires
        0 <= d < m.len(),
    ensures
        falses(m.update(d, r)) + cf(m[d]@) == falses(m) + cf(r@),
    decreases m.len(),
{
    if d < m.len() - 1 {
        assert(m.update(d, r).drop_last() =~= m.drop_last().update(d, r));
        lemma_falses_update(m.drop_last(), d, r);
    } else {
        assert(m.update(d, r).drop_last() =~= m.drop_last());
    }
}

pub(crate) proof fn lemma_cf_bound(s: Seq<bool>)
    ensures
        cf(s) <= s.len(),
    decreases s.len(),
{
    if s.len() > 0 {
        lemma_cf_bound(s.drop_last());
    }
}

/// A matrix with `m.len()` rows of `c` entries has at most `m.len() * c` false entries.
pub(crate) proof fn lemma_falses_bound(m: Seq<Vec<bool>>, c: nat)
    requires
        forall|i: int| 0 <= i < m.len() ==> (#[trigger] m[i])@.len() == c,
    ensures
        falses(m) <= m.len() * c,
    decreases m.len(),
{
    if m.len() > 0 {
        lemma_falses_bound(m.drop_last(), c);
        lemma_cf_bound(m.last()@);
        assert(falses(m) <= (m.len() - 1) * c + c);
        assert((m.len() - 1) * c + c == m.len() * c) by (nonlinear_arith);
    }
}

/// `m` has a row for each element of `rs` and a column for each element of
/// `cs`; entry `(i, j)` says whether `(rs[i], cs[j])` is in `rel`, which holds
/// no other pairs.
pub open spec fn mirrors<A, B>(rs: Seq<A>, cs: Seq<B>, m: Seq<Vec<bool>>, rel: Set<(A, B)>) -> bool {
    &&& m.len() == rs.len()
    &&& forall|i: int| 0 <= i < m.len() ==> (#[trigger] m[i])@.len() == cs.len()
    &&& forall|i: int, j: int|
        0 <= i < rs.len() && 0 <= j < cs.len() ==> m[i]@[j] == rel.contains((rs[i], cs[j]))
    &&& forall|a: A, b: B| #[trigger] rel.contains((a, b)) ==> rs.contains(a) && cs.contains(b)
}

/// `v` says for each `cs[i]` whether it is in `s`; `s` holds nothing else.
pub open spec fn mirrors_set<B>(cs: Seq<B>, v: Seq<bool>, s: Set<B>) -> bool {
    &&& v.len() == cs.len()
    &&& forall|i: int| 0 <= i < cs.len() ==> v[i] == s.contains(cs[i])
    &&& forall|a: B| #[trigger] s.contains(a) ==> cs.contains(a)
}

/// The elements that `a` is related to.
pub open spec fn image<A, B>(rel: Set<(A, B)>, a: A) -> Set<B> {
    Set::new(|b: B| rel.contains((a, b)))
}

/// `rel` with `a` related to every member of `img` besides.
pub open spec fn add_image<A, B>(rel: Set<(A, B)>, a: A, img: Set<B>) -> Set<(A, B)> {
    rel + Set::new(|q: (A, B)| q.0 == a && img.contains(q.1))
}

/// Row `d` of `m` becomes its union with `src`, whose entries mirror `img`.
pub(crate) fn union_row<A, B>(m: &mut Vec<Vec<bool>>, d: usize, src: &Vec<bool>, Ghost(rs): Ghost<Seq<A>>, Ghost(sv): Ghost<Seq<B>>, Ghost(rel): Ghost<Set<(A, B)>>, Ghost(img): Ghost<Set<B>>) -> (changed: bool)
    requires
        rs.no_duplicates(),
        mirrors(rs, sv, old(m)@, rel),
        d < rs.len(),
        mirrors_set(sv, src@, img),
    ensures
        mirrors(rs, sv, final(m)@, add_image(rel, rs[d as int], img)),
        falses(final(m)@) <= falses(old(m)@),
        changed ==> falses(final(m)@) < falses(old(m)@),
        !changed ==> final(m)@ == old(m)@ && add_image(rel, rs[d as int], img) == rel,
        add_image(rel, rs[d as int], img) == rel ==> !changed,
{
    let n = src.len();
    let ghost m0 = m@;
    let mut changed = false;
    let mut j: usize = 0;
    while j < n
        invariant
            n == sv.len(),
            m@.len() == rs.len(),
            rs.no_duplicates(),
            mirrors(rs, sv, m0, rel),
            mirrors_set(sv, src@, img),
            j <= n,
            d < rs.len(),
            forall|i: int| 0 <= i < m@.len() && i != d ==> m@[i] == m0[i],
            m@[d as int]@.len() == n,
            forall|k: int| 0 <= k < j ==> #[trigger] m@[d as int]@[k] == (m0[d as int]@[k] || src@[k]),
            forall|k: int| j <= k < n ==> m@[d as int]@[k] == m0[d as int]@[k],
            falses(m@) <= falses(m0),
            changed ==> falses(m@) < falses(m0),
            !changed ==> m@ == m0,
            changed ==> exists|k: int| 0 <= k < n && src@[k] && !m0[d as int]@[k],
        decreases n - j,
    {
        let ghost before = m@;
        if src[j] && !m[d][j] {
            m[d].set(j, true);
            proof {
                lemma_cf_set(before[d as int]@, j as int);
                lemma_falses_update(before, d as int, m@[d as int]);
            }
            assert(m@ =~= before.update(d as int, m@[d as int]));
            assert(m@[d as int]@ == before[d as int]@.update(j as int, true));
            assert(src@[j as int] && !m0[d as int]@[j as int]);
            changed = true;
        }
        assert(m@[d as int]@[j as int] == (m0[d as int]@[j as int] || src@[j as int]));
        assert forall|k: int| 0 <= k < j + 1 implies m@[d as int]@[k] == (m0[d as int]@[k] || src@[k]) by {
            if k < j {
                assert(m@[d as int]@[k] == before[d as int]@[k]);
                assert(before[d as int]@[k] == (m0[d as int]@[k] || src@[k]));
            }
        }
        j = j + 1;
    }
    let ghost rel2 = add_image(rel, rs[d as int], img);
    assert forall|i: int, k: int| 0 <= i < rs.len() && 0 <= k < sv.len() implies m@[i]@[k] == rel2.contains((rs[i], sv[k])) by {
        assert(m0[i]@[k] == rel.contains((rs[i], sv[k])));
        assert(src@[k] == img.contains(sv[k]));
        if i != d {
            assert(rs[i] != rs[d as int]);
            assert(m@[i] == m0[i]);
        }
    }
    assert forall|i: int| 0 <= i < m@.len() implies (#[trigger] m@[i])@.len() == sv.len() by {
        if i != d {
            assert(m@[i] == m0[i]);
        }
    }
    proof {
        if changed {
            let k = choose|k: int| 0 <= k < n && src@[k] && !m0[d as int]@[k];
            assert(img.contains(sv[k]));
            assert(!rel.contains((rs[d as int], sv[k])));
            assert(rel2.contains((rs[d as int], sv[k])));
        }
    }
    if !changed {
        assert forall|q: (A, B)| rel2.contains(q) implies rel.contains(q) by {
            if !rel.contains(q) {
                assert(img.contains(q.1));
                assert(sv.contains(q.1));
                let k = choose|k: int| 0 <= k < sv.len() && sv[k] == q.1;
                assert(src@[k]);
                assert(m@[d as int]@[k]);
                assert(m0[d as int]@[k] == rel.contains((rs[d as int], sv[k])));
            }
        }
        assert(rel2 =~= rel);
    }
    changed
}

/// A production with each symbol replaced by its position in a symbol list;
/// the empty-string terminal is coded by the list's length.
struct Coded {
    lhs: usize,
    rhs: Vec<usize>,
}

spec fn code_ok(sv: Seq<SymbolView>, c: usize, x: SymbolView) -> bool {
    (c < sv.len() && sv[c as int] == x) || (c == sv.len() && x is Epsilon)
}

spec fn coded_ok(sv: Seq<SymbolView>, r: Rule, c: Coded) -> bool {
    &&& c.lhs < sv.len()
    &&& sv[c.lhs as int] == r.lhs
    &&& c.rhs@.len() == r.rhs.len()
    &&& forall|k: int| 0 <= k < r.rhs.len() ==> code_ok(sv, #[trigger] c.rhs@[k], r.rhs[k])
}

spec fn encodes(sv: Seq<SymbolView>, g: Seq<Rule>, ig: Seq<Coded>) -> bool {
    ig.len() == g.len() && forall|p: int| 0 <= p < g.len() ==> coded_ok(sv, g[p], #[trigger] ig[p])
}

/// `sv` lists each symbol of `g` once, the empty-string terminal excepted.
spec fn symbols_ok(g: Seq<Rule>, sv: Seq<SymbolView>) -> bool {
    sv.no_duplicates() && forall|x: SymbolView| #[trigger] sv.contains(x) <==> grammar_symbol(g, x)
}

spec fn occurs_before(g: Seq<Rule>, p: int, x: SymbolView) -> bool {
    exists|q: int| 0 <= q < p && (g[q].lhs == x || g[q].rhs.contains(x))
}

/// Appends `x` to `syms` unless it is the empty-string terminal or already there.
fn add_symbol(syms: &mut Vec<Symbol>, x: &Symbol)
    requires
        views(old(syms)@).no_duplicates(),
    ensures
        views(final(syms)@).no_duplicates(),
        forall|y: SymbolView|
            #[trigger] views(final(syms)@).contains(y) <==> (views(old(syms)@).contains(y) || (
            y == x@ && !(y is Epsilon))),
{
    if x.is_epsilon() {
        return;
    }
    match find_symbol(syms, x) {
        Some(i) => {
            assert(views(syms@)[i as int] == x@);
        },
        None => {
            let ghost before = views(syms@);
            syms.push(x.copied());
            assert(views(syms@) =~= before.push(x@));
            assert forall|y: SymbolView| #[trigger] views(syms@).contains(y) <==> (before.contains(y) || y == x@) by {
                if views(syms@).contains(y) {
                    let k = choose|k: int| 0 <= k < views(syms@).len() && views(syms@)[k] == y;
                    if k < before.len() {
                        assert(before[k] == y);
                    }
                }
                if before.contains(y) {
                    let k = choose|k: int| 0 <= k < before.len() && before[k] == y;
                    assert(views(syms@)[k] == y);
                }
                if y == x@ {
                    assert(views(syms@)[before.len() as int] == y);
                }
            }
        },
    }
}

/// The symbols of `g`, each once, in order of first occurrence.
fn collect_symbols(g: &Grammar) -> (syms: Vec<Symbol>)
    ensures
        symbols_ok(g@, views(syms@)),
{
    let prods = g.productions();
    let mut syms: Vec<Symbol> = Vec::new();
    let mut p: usize = 0;
    while p < prods.len()
        invariant
            p <= prods@.len(),
            g@ == prods@.map_values(|p: crate::grammar::Production| p@),
            views(syms@).no_duplicates(),
            forall|x: SymbolView| #[trigger] views(syms@).contains(x) ==> grammar_symbol(g@, x),
            forall|x: SymbolView| occurs_before(g@, p as int, x) && !(x is Epsilon) ==> #[trigger] views(syms@).contains(x),
        decreases prods@.len() - p,
    {
        let prod = &prods[p];
        assert(g@[p as int] == prod@);
        add_symbol(&mut syms, &prod.start_symbol);
        let mut k: usize = 0;
        while k < prod.rhs.len()
            invariant
                p < prods@.len(),
                k <= prod.rhs@.len(),
                prod == prods@[p as int],
                g@ == prods@.map_values(|p: crate::grammar::Production| p@),
                g@[p as int] == prod@,
                views(syms@).no_duplicates(),
                forall|x: SymbolView| #[trigger] views(syms@).contains(x) ==> grammar_symbol(g@, x),
                forall|x: SymbolView| occurs_before(g@, p as int, x) && !(x is Epsilon) ==> #[trigger] views(syms@).contains(x),
                !(prod@.lhs is Epsilon) ==> views(syms@).contains(prod@.lhs),
                forall|kk: int| 0 <= kk < k && !(prod@.rhs[kk] is Epsilon) ==> views(syms@).contains(#[trigger] prod@.rhs[kk]),
            decreases prod.rhs@.len() - k,
        {
            proof {
                assert(prod@.rhs[k as int] == prod.rhs@[k as int]@);
                assert(g@[p as int].rhs.contains(prod@.rhs[k as int]));
            }
            add_symbol(&mut syms, &prod.rhs[k]);
            k = k + 1;
        }
        assert forall|x: SymbolView| occurs_before(g@, p + 1, x) && !(x is Epsilon) implies #[trigger] views(syms@).contains(x) by {
            let q = choose|q: int| 0 <= q < p + 1 && (g@[q].lhs == x || g@[q].rhs.contains(x));
            if q < p {
                assert(occurs_before(g@, p as int, x));
            } else if g@[q].rhs.contains(x) {
                let kk = choose|kk: int| 0 <= kk < g@[q].rhs.len() && g@[q].rhs[kk] == x;
                assert(prod@.rhs[kk] == x);
            }
        }
        p = p + 1;
    }
    assert forall|x: SymbolView| #[trigger] views(syms@).contains(x) <==> grammar_symbol(g@, x) by {
        if grammar_symbol(g@, x) {
            assert(occurs_before(g@, p as int, x));
        }
    }
    syms
}

/// The code of `x`: its position in `syms`, or the length of `syms` for the
/// empty-string terminal.
fn code_of(syms: &Vec<Symbol>, x: &Symbol) -> (c: usize)
    requires
        x@ is Epsilon || views(syms@).contains(x@),
    ensures
        code_ok(views(syms@), c, x@),
{
    if x.is_epsilon() {
        return syms.len();
    }
    match find_symbol(syms, x) {
        Some(i) => i,
        None => {
            assert(false);
            syms.len()
        },
    }
}

/// The productions of `g` with their symbols coded by position in `syms`.
fn encode(g: &Grammar, syms: &Vec<Symbol>) -> (ig: Vec<Coded>)
    requires
        g.wf(),
        symbols_ok(g@, views(syms@)),
    ensures
        encodes(views(syms@), g@, ig@),
{
    let prods = g.productions();
    let ghost sv = views(syms@);
    let mut ig: Vec<Coded> = Vec::new();
    let mut p: usize = 0;
    while p < prods.len()
        invariant
            p <= prods@.len(),
            g.wf(),
            sv == views(syms@),
            symbols_ok(g@, sv),
            g@ == prods@.map_values(|p: crate::grammar::Production| p@),
            ig@.len() == p,
            forall|q: int| 0 <= q < p ==> coded_ok(sv, g@[q], #[trigger] ig@[q]),
        decreases prods@.len() - p,
    {
        let prod = &prods[p];
        assert(g@[p as int] == prod@);
        assert(prod@.lhs is Nonterminal);
        assert(grammar_symbol(g@, prod@.lhs));
        let lhs = code_of(syms, &prod.start_symbol);
        let mut rhs: Vec<usize> = Vec::new();
        let mut k: usize = 0;
        while k < prod.rhs.len()
            invariant
                p < prods@.len(),
                k <= prod.rhs@.len(),
                prod == prods@[p as int],
                sv == views(syms@),
                symbols_ok(g@, sv),
                g@ == prods@.map_values(|p: crate::grammar::Production| p@),
                g@[p as int] == prod@,
                rhs@.len() == k,
                forall|kk: int| 0 <= kk < k ==> code_ok(sv, #[trigger] rhs@[kk], prod@.rhs[kk]),
            decreases prod.rhs@.len() - k,
        {
            proof {
                assert(prod@.rhs[k as int] == prod.rhs@[k as int]@);
                assert(g@[p as int].rhs.contains(prod@.rhs[k as int]));
                assert(occurs(g@, prod@.rhs[k as int]));
            }
            let c = code_of(syms, &prod.rhs[k]);
            rhs.push(c);
            k = k + 1;
        }
        ig.push(Coded { lhs, rhs });
        p = p + 1;
    }
    ig
}

proof fn lemma_forced_first(g: Seq<Rule>, t: Tables, p: int, i: int)
    requires
        forced(g, t),
        0 <= p < g.len(),
        0 <= i < g[p].rhs.len(),
        all_nullable(t.nullable, g[p].rhs.subrange(0, i)),
    ensures
        forced(g, Tables { first: add_image(t.first, g[p].lhs, image(t.first, g[p].rhs[i])), ..t }),
{
    let t2 = Tables { first: add_image(t.first, g[p].lhs, image(t.first, g[p].rhs[i])), ..t };
    assert forall|u: Tables| #[trigger] closed(g, u) implies le(t2, u) by {
        assert(le(t, u));
        assert(prod_ok(g, u, p));
        assert(first_ok(g, u, p, i));
        lemma_all_nullable_mono(t.nullable, u.nullable, g[p].rhs.subrange(0, i));
        assert forall|q: (SymbolView, SymbolView)| t2.first.contains(q) implies u.first.contains(q) by {
            if !t.first.contains(q) {
                assert(u.first.contains((g[p].rhs[i], q.1)));
            }
        }
    }
}

proof fn lemma_forced_follow(g: Seq<Rule>, t: Tables, p: int, i: int, j: int)
    requires
        forced(g, t),
        0 <= p < g.len(),
        0 <= i < j < g[p].rhs.len(),
        !(g[p].rhs[i] is Epsilon),
        all_nullable(t.nullable, g[p].rhs.subrange(i + 1, j)),
    ensures
        forced(g, Tables { follow: add_image(t.follow, g[p].rhs[i], image(t.first, g[p].rhs[j])), ..t }),
{
    let t2 = Tables { follow: add_image(t.follow, g[p].rhs[i], image(t.first, g[p].rhs[j])), ..t };
    assert forall|u: Tables| #[trigger] closed(g, u) implies le(t2, u) by {
        assert(le(t, u));
        assert(prod_ok(g, u, p));
        assert(follow_ok(g, u, p, i, j));
        lemma_all_nullable_mono(t.nullable, u.nullable, g[p].rhs.subrange(i + 1, j));
        assert forall|q: (SymbolView, SymbolView)| t2.follow.contains(q) implies u.follow.contains(q) by {
            if !t.follow.contains(q) {
                assert(u.first.contains((g[p].rhs[j], q.1)));
            }
        }
    }
}

proof fn lemma_forced_end(g: Seq<Rule>, t: Tables, p: int, i: int)
    requires
        forced(g, t),
        0 <= p < g.len(),
        0 <= i < g[p].rhs.len(),
        !(g[p].rhs[i] is Epsilon),
        all_nullable(t.nullable, g[p].rhs.subrange(i + 1, g[p].rhs.len() as int)),
    ensures
        forced(g, Tables { follow: add_image(t.follow, g[p].rhs[i], image(t.follow, g[p].lhs)), ..t }),
{
    let t2 = Tables { follow: add_image(t.follow, g[p].rhs[i], image(t.follow, g[p].lhs)), ..t };
    assert forall|u: Tables| #[trigger] closed(g, u) implies le(t2, u) by {
        assert(le(t, u));
        assert(prod_ok(g, u, p));
        assert(end_ok(g, u, p, i));
        lemma_all_nullable_mono(t.nullable, u.nullable, g[p].rhs.subrange(i + 1, g[p].rhs.len() as int));
        assert forall|q: (SymbolView, SymbolView)| t2.follow.contains(q) implies u.follow.contains(q) by {
            if !t.follow.contains(q) {
                assert(u.follow.contains((g[p].lhs, q.1)));
            }
        }
    }
}

proof fn lemma_forced_nullable(g: Seq<Rule>, t: Tables, p: int)
    requires
        forced(g, t),
        0 <= p < g.len(),
        all_nullable(t.nullable, g[p].rhs),
    ensures
        forced(g, Tables { nullable: t.nullable.insert(g[p].lhs), ..t }),
{
    let t2 = Tables { nullable: t.nullable.insert(g[p].lhs), ..t };
    assert forall|u: Tables| #[trigger] closed(g, u) implies le(t2, u) by {
        assert(le(t, u));
        assert(prod_ok(g, u, p));
        lemma_all_nullable_mono(t.nullable, u.nullable, g[p].rhs);
    }
}

pub(crate) proof fn lemma_row_image<A, B>(rs: Seq<A>, cs: Seq<B>, m: Seq<Vec<bool>>, rel: Set<(A, B)>, s: int)
    requires
        mirrors(rs, cs, m, rel),
        0 <= s < rs.len(),
    ensures
        mirrors_set(cs, m[s]@, image(rel, rs[s])),
{
    assert(m[s]@.len() == cs.len());
    assert forall|a: B| #[trigger] image(rel, rs[s]).contains(a) implies cs.contains(a) by {
        assert(rel.contains((rs[s], a)));
    }
}

fn copy_row(v: &Vec<bool>) -> (r: Vec<bool>)
    ensures
        r@ == v@,
{
    let mut r: Vec<bool> = Vec::new();
    let mut i: usize = 0;
    while i < v.len()
        invariant
            i <= v@.len(),
            r@ == v@.subrange(0, i as int),
        decreases v@.len() - i,
    {
        r.push(v[i]);
        i = i + 1;
        assert(r@ =~= v@.subrange(0, i as int));
    }
    assert(r@ =~= v@);
    r
}

spec fn state_ok(sv: Seq<SymbolView>, fm: Seq<Vec<bool>>, flm: Seq<Vec<bool>>, nv: Seq<bool>, t: Tables) -> bool {
    mirrors(sv, sv, fm, t.first) && mirrors(sv, sv, flm, t.follow) && mirrors_set(sv, nv, t.nullable)
}

spec fn measure(fm: Seq<Vec<bool>>, flm: Seq<Vec<bool>>, nv: Seq<bool>) -> nat {
    falses(fm) + falses(flm) + cf(nv)
}

/// Whether the symbol coded `c` is nullable.
fn nullable_code(nv: &Vec<bool>, c: usize) -> (r: bool)
    requires
        c <= nv@.len(),
    ensures
        r == (c == nv@.len() || nv@[c as int]),
{
    c == nv.len() || nv[c]
}

/// One pass over all productions, applying every rule once. The tables only
/// grow, every addition is forced by the equations, and a pass that changes
/// nothing finds the tables closed.
#[verifier::rlimit(50)]
fn solver_pass(ig: &Vec<Coded>, fm: &mut Vec<Vec<bool>>, flm: &mut Vec<Vec<bool>>, nv: &mut Vec<bool>, Ghost(g): Ghost<Seq<Rule>>, Ghost(sv): Ghost<Seq<SymbolView>>, Ghost(t0): Ghost<Tables>) -> (r: (bool, Ghost<Tables>))
    requires
        symbols_ok(g, sv),
        encodes(sv, g, ig@),
        state_ok(sv, old(fm)@, old(flm)@, old(nv)@, t0),
        forced(g, t0),
    ensures
        state_ok(sv, final(fm)@, final(flm)@, final(nv)@, r.1@),
        forced(g, r.1@),
        le(t0, r.1@),
        measure(final(fm)@, final(flm)@, final(nv)@) <= measure(old(fm)@, old(flm)@, old(nv)@),
        r.0 ==> measure(final(fm)@, final(flm)@, final(nv)@) < measure(old(fm)@, old(flm)@, old(nv)@),
        !r.0 ==> r.1@ == t0 && forall|q: int| 0 <= q < g.len() ==> #[trigger] prod_ok(g, t0, q),
        closed(g, t0) ==> !r.0,
{
    let n = nv.len();
    let ghost m0 = measure(fm@, flm@, nv@);
    let ghost mut t = t0;
    let mut changed = false;
    let mut p: usize = 0;
    while p < ig.len()
        invariant
            n == sv.len(),
            symbols_ok(g, sv),
            encodes(sv, g, ig@),
            p <= ig@.len(),
            state_ok(sv, fm@, flm@, nv@, t),
            forced(g, t),
            le(t0, t),
            measure(fm@, flm@, nv@) <= m0,
            changed ==> measure(fm@, flm@, nv@) < m0,
            !changed ==> t == t0 && forall|q: int| 0 <= q < p ==> #[trigger] prod_ok(g, t, q),
            closed(g, t0) ==> !changed,
        decreases ig@.len() - p,
    {
        let x = ig[p].lhs;
        let k = ig[p].rhs.len();
        assert(coded_ok(sv, g[p as int], ig@[p as int]));
        let ghost tn = t.nullable;
        let mut i_nullable = true;
        let mut i: usize = 0;
        while i < k
            invariant
                n == sv.len(),
                symbols_ok(g, sv),
                encodes(sv, g, ig@),
                p < ig@.len(),
                coded_ok(sv, g[p as int], ig@[p as int]),
                x == ig@[p as int].lhs,
                k == ig@[p as int].rhs@.len(),
                i <= k,
                state_ok(sv, fm@, flm@, nv@, t),
                forced(g, t),
                le(t0, t),
                t.nullable == tn,
                i_nullable == all_nullable(t.nullable, g[p as int].rhs.subrange(0, i as int)),
                measure(fm@, flm@, nv@) <= m0,
                changed ==> measure(fm@, flm@, nv@) < m0,
                !changed ==> t == t0 && (forall|q: int| 0 <= q < p ==> #[trigger] prod_ok(g, t, q)),
                closed(g, t0) ==> !changed,
                !changed ==> forall|ii: int| 0 <= ii < i ==> #[trigger] first_ok(g, t, p as int, ii),
                !changed ==> forall|ii: int| 0 <= ii < i ==> #[trigger] end_ok(g, t, p as int, ii),
                !changed ==> forall|ii: int, jj: int| 0 <= ii < i && ii < jj < k ==> #[trigger] follow_ok(g, t, p as int, ii, jj),
            decreases k - i,
        {
            let yi = ig[p].rhs[i];
            assert(code_ok(sv, ig@[p as int].rhs@[i as int], g[p as int].rhs[i as int]));
            if i_nullable && yi < n {
                let src = copy_row(&fm[yi]);
                proof {
                    lemma_row_image(sv, sv, fm@, t.first, yi as int);
                    if closed(g, t0) {
                        assert(prod_ok(g, t, p as int));
                        assert(first_ok(g, t, p as int, i as int));
                        assert(add_image(t.first, sv[x as int], image(t.first, sv[yi as int])) =~= t.first);
                    }
                }
                let ch = union_row::<SymbolView, SymbolView>(fm, x, &src, Ghost(sv), Ghost(sv), Ghost(t.first), Ghost(image(t.first, sv[yi as int])));
                proof {
                    lemma_forced_first(g, t, p as int, i as int);
                    t = Tables { first: add_image(t.first, sv[x as int], image(t.first, sv[yi as int])), ..t };
                }
                changed = changed || ch;
            }
            proof {
                if !changed {
                    if yi == n {
                        assert forall|y: SymbolView| #[trigger] t.first.contains((g[p as int].rhs[i as int], y)) implies t.first.contains((g[p as int].lhs, y)) by {
                            assert(sv.contains(g[p as int].rhs[i as int]));
                        }
                    }
                    if i_nullable && yi < n {
                        assert forall|y: SymbolView| #[trigger] t.first.contains((g[p as int].rhs[i as int], y)) implies t.first.contains((g[p as int].lhs, y)) by {
                            assert(add_image(t.first, sv[x as int], image(t.first, sv[yi as int])).contains((sv[x as int], y)));
                        }
                    }
                    assert(first_ok(g, t, p as int, i as int));
                }
            }
            let ghost prefix_nullable = i_nullable;
            if i_nullable && !nullable_code(nv, yi) {
                i_nullable = false;
            }
            proof {
                if yi < n {
                    assert(sv.contains(sv[yi as int]));
                    assert(nv@[yi as int] == t.nullable.contains(sv[yi as int]));
                }
                assert(nullable_sym(t.nullable, g[p as int].rhs[i as int]) == (yi == n || nv@[yi as int]));
                assert(g[p as int].rhs.subrange(0, i as int + 1).drop_last() =~= g[p as int].rhs.subrange(0, i as int));
                if prefix_nullable && !i_nullable {
                    assert(!nullable_sym(t.nullable, g[p as int].rhs.subrange(0, i as int + 1)[i as int]));
                }
                if !prefix_nullable {
                    let kk = choose|kk: int| 0 <= kk < i && !nullable_sym(t.nullable, #[trigger] g[p as int].rhs.subrange(0, i as int)[kk]);
                    assert(g[p as int].rhs.subrange(0, i as int + 1)[kk] == g[p as int].rhs.subrange(0, i as int)[kk]);
                }
            }
            if yi < n {
                assert(sv.contains(sv[yi as int]));
                let mut j_nullable = true;
                let mut j: usize = i + 1;
                while j < k && j_nullable
                    invariant
                        n == sv.len(),
                        symbols_ok(g, sv),
                        encodes(sv, g, ig@),
                        p < ig@.len(),
                        coded_ok(sv, g[p as int], ig@[p as int]),
                        x == ig@[p as int].lhs,
                        k == ig@[p as int].rhs@.len(),
                        i < k,
                        yi == ig@[p as int].rhs@[i as int],
                        yi < n,
                        sv[yi as int] == g[p as int].rhs[i as int],
                        !(g[p as int].rhs[i as int] is Epsilon),
                        i + 1 <= j <= k,
                        state_ok(sv, fm@, flm@, nv@, t),
                        forced(g, t),
                        le(t0, t),
                        t.nullable == tn,
                        j_nullable == all_nullable(t.nullable, g[p as int].rhs.subrange(i + 1, j as int)),
                        measure(fm@, flm@, nv@) <= m0,
                        changed ==> measure(fm@, flm@, nv@) < m0,
                        !changed ==> t == t0 && (forall|q: int| 0 <= q < p ==> #[trigger] prod_ok(g, t, q)),
                        closed(g, t0) ==> !changed,
                        !changed ==> forall|ii: int| 0 <= ii <= i ==> #[trigger] first_ok(g, t, p as int, ii),
                        !changed ==> forall|ii: int| 0 <= ii < i ==> #[trigger] end_ok(g, t, p as int, ii),
                        !changed ==> forall|ii: int, jj: int| 0 <= ii < i && ii < jj < k ==> #[trigger] follow_ok(g, t, p as int, ii, jj),
                        !changed ==> forall|jj: int| i < jj < j ==> #[trigger] follow_ok(g, t, p as int, i as int, jj),
                    decreases k - j,
                {
                    let yj = ig[p].rhs[j];
                    assert(code_ok(sv, ig@[p as int].rhs@[j as int], g[p as int].rhs[j as int]));
                    if yj < n {
                        proof {
                            lemma_row_image(sv, sv, fm@, t.first, yj as int);
                            if closed(g, t0) {
                                assert(prod_ok(g, t, p as int));
                                assert(follow_ok(g, t, p as int, i as int, j as int));
                                assert(add_image(t.follow, sv[yi as int], image(t.first, sv[yj as int])) =~= t.follow);
                            }
                        }
                        let ch = union_row::<SymbolView, SymbolView>(flm, yi, &fm[yj], Ghost(sv), Ghost(sv), Ghost(t.follow), Ghost(image(t.first, sv[yj as int])));
                        proof {
                            lemma_forced_follow(g, t, p as int, i as int, j as int);
                            t = Tables { follow: add_image(t.follow, sv[yi as int], image(t.first, sv[yj as int])), ..t };
                        }
                        changed = changed || ch;
                    }
                    proof {
                        if !changed {
                            if yj == n {
                                assert forall|y: SymbolView| #[trigger] t.first.contains((g[p as int].rhs[j as int], y)) implies t.follow.contains((g[p as int].rhs[i as int], y)) by {
                                    assert(sv.contains(g[p as int].rhs[j as int]));
                                }
                            } else {
                                assert forall|y: SymbolView| #[trigger] t.first.contains((g[p as int].rhs[j as int], y)) implies t.follow.contains((g[p as int].rhs[i as int], y)) by {
                                    assert(add_image(t.follow, sv[yi as int], image(t.first, sv[yj as int])).contains((sv[yi as int], y)));
                                }
                            }
                            assert(follow_ok(g, t, p as int, i as int, j as int));
                        }
                    }
                    if !nullable_code(nv, yj) {
                        j_nullable = false;
                    }
                    proof {
                        if yj < n {
                            assert(sv.contains(sv[yj as int]));
                            assert(nv@[yj as int] == t.nullable.contains(sv[yj as int]));
                        }
                        assert(nullable_sym(t.nullable, g[p as int].rhs[j as int]) == (yj == n || nv@[yj as int]));
                        assert(g[p as int].rhs.subrange(i + 1, j as int + 1).drop_last() =~= g[p as int].rhs.subrange(i + 1, j as int));
                        if !j_nullable {
                            assert(!nullable_sym(t.nullable, g[p as int].rhs.subrange(i + 1, j as int + 1)[j - i - 1]));
                        }
                    }
                    j = j + 1;
                }
                proof {
                    if !j_nullable {
                        let kk = choose|kk: int| 0 <= kk < j - (i + 1) && !nullable_sym(t.nullable, #[trigger] g[p as int].rhs.subrange(i + 1, j as int)[kk]);
                        assert forall|jj: int| j <= jj <= k implies !all_nullable(t.nullable, #[trigger] g[p as int].rhs.subrange(i + 1, jj)) by {
                            assert(g[p as int].rhs.subrange(i + 1, jj)[kk] == g[p as int].rhs.subrange(i + 1, j as int)[kk]);
                        }
                    }
                    if !changed {
                        assert forall|jj: int| i < jj < k implies #[trigger] follow_ok(g, t, p as int, i as int, jj) by {
                            if jj >= j {
                                assert(!all_nullable(t.nullable, g[p as int].rhs.subrange(i + 1, jj)));
                            }
                        }
                    }
                }
                if j_nullable {
                    let src = copy_row(&flm[x]);
                    proof {
                        lemma_row_image(sv, sv, flm@, t.follow, x as int);
                        if closed(g, t0) {
                            assert(j == k);
                            assert(prod_ok(g, t, p as int));
                            assert(end_ok(g, t, p as int, i as int));
                            assert(add_image(t.follow, sv[yi as int], image(t.follow, sv[x as int])) =~= t.follow);
                        }
                    }
                    let ch = union_row::<SymbolView, SymbolView>(flm, yi, &src, Ghost(sv), Ghost(sv), Ghost(t.follow), Ghost(image(t.follow, sv[x as int])));
                    proof {
                        lemma_forced_end(g, t, p as int, i as int);
                        t = Tables { follow: add_image(t.follow, sv[yi as int], image(t.follow, sv[x as int])), ..t };
                    }
                    changed = changed || ch;
                    proof {
                        if !changed {
                            assert forall|y: SymbolView| #[trigger] t.follow.contains((g[p as int].lhs, y)) implies t.follow.contains((g[p as int].rhs[i as int], y)) by {
                                assert(add_image(t.follow, sv[yi as int], image(t.follow, sv[x as int])).contains((sv[yi as int], y)));
                            }
                        }
                    }
                }
                proof {
                    if !changed {
                        assert(end_ok(g, t, p as int, i as int));
                    }
                }
            } else {
                proof {
                    if !changed {
                        assert(end_ok(g, t, p as int, i as int));
                        assert forall|jj: int| i < jj < k implies #[trigger] follow_ok(g, t, p as int, i as int, jj) by {}
                    }
                }
            }
            i = i + 1;
        }
        assert(g[p as int].rhs.subrange(0, k as int) =~= g[p as int].rhs);
        proof {
            if closed(g, t0) && i_nullable {
                assert(prod_ok(g, t, p as int));
                assert(nv@[x as int] == t.nullable.contains(sv[x as int]));
            }
        }
        if i_nullable && !nv[x] {
            let ghost before = nv@;
            nv.set(x, true);
            proof {
                lemma_cf_set(before, x as int);
                lemma_forced_nullable(g, t, p as int);
                t = Tables { nullable: t.nullable.insert(sv[x as int]), ..t };
                assert forall|a: SymbolView| #[trigger] t.nullable.contains(a) implies sv.contains(a) by {
                    if a == sv[x as int] {
                        assert(sv[x as int] == sv[x as int]);
                    }
                }
                assert forall|ii: int| 0 <= ii < sv.len() implies nv@[ii] == t.nullable.contains(sv[ii]) by {
                    if ii != x {
                        assert(sv[ii] != sv[x as int]);
                    }
                }
            }
            changed = true;
        }
        proof {
            if !changed {
                assert(nullable_ok(g, t, p as int));
                assert(prod_ok(g, t, p as int));
            }
        }
        p = p + 1;
    }
    (changed, Ghost(t))
}

/// The symbols of `syms` whose flag is set, in order.
pub(crate) fn select(syms: &Vec<Symbol>, flags: &Vec<bool>, Ghost(s): Ghost<Set<SymbolView>>) -> (r: Vec<Symbol>)
    requires
        mirrors_set(views(syms@), flags@, s),
    ensures
        views(r@).to_set() == s,
{
    let ghost sv = views(syms@);
    let mut r: Vec<Symbol> = Vec::new();
    let mut j: usize = 0;
    while j < flags.len()
        invariant
            sv == views(syms@),
            mirrors_set(sv, flags@, s),
            j <= flags@.len(),
            forall|y: SymbolView| #[trigger] views(r@).contains(y) ==> s.contains(y),
            forall|jj: int| 0 <= jj < j && flags@[jj] ==> views(r@).contains(#[trigger] sv[jj]),
        decreases flags@.len() - j,
    {
        if flags[j] {
            let ghost before = views(r@);
            r.push(syms[j].copied());
            proof {
                assert(views(r@) =~= before.push(sv[j as int]));
                assert forall|y: SymbolView| #[trigger] views(r@).contains(y) implies s.contains(y) by {
                    let k = choose|k: int| 0 <= k < views(r@).len() && views(r@)[k] == y;
                    if k < before.len() {
                        assert(before[k] == y);
                        assert(before.contains(y));
                    } else {
                        assert(flags@[j as int] == s.contains(sv[j as int]));
                    }
                }
                assert forall|jj: int| 0 <= jj < j + 1 && flags@[jj] implies views(r@).contains(#[trigger] sv[jj]) by {
                    if jj < j {
                        let k = choose|k: int| 0 <= k < before.len() && before[k] == sv[jj];
                        assert(views(r@)[k] == sv[jj]);
                    } else {
                        assert(views(r@)[before.len() as int] == sv[jj]);
                    }
                }
            }
        }
        j = j + 1;
    }
    assert forall|y: SymbolView| s.contains(y) implies #[trigger] views(r@).contains(y) by {
        let jj = choose|jj: int| 0 <= jj < sv.len() && sv[jj] == y;
        assert(flags@[jj]);
    }
    assert(views(r@).to_set() =~= s);
    r
}

/// The rows of `m` as sets of symbols.
fn table_rows(syms: &Vec<Symbol>, m: &Vec<Vec<bool>>, Ghost(rel): Ghost<Set<(SymbolView, SymbolView)>>) -> (sets: Vec<Vec<Symbol>>)
    requires
        mirrors(views(syms@), views(syms@), m@, rel),
    ensures
        sets@.len() == syms@.len(),
        forall|i: int| 0 <= i < syms@.len() ==> views(sets@[i]@).to_set() == #[trigger] image(rel, syms@[i]@),
{
    let ghost sv = views(syms@);
    let mut sets: Vec<Vec<Symbol>> = Vec::new();
    let mut i: usize = 0;
    while i < m.len()
        invariant
            sv == views(syms@),
            mirrors(sv, sv, m@, rel),
            i <= m@.len(),
            sets@.len() == i,
            forall|ii: int| 0 <= ii < i ==> views(sets@[ii]@).to_set() == #[trigger] image(rel, syms@[ii]@),
        decreases m@.len() - i,
    {
        proof {
            lemma_row_image(sv, sv, m@, rel, i as int);
        }
        let row = select(syms, &m[i], Ghost(image(rel, sv[i as int])));
        sets.push(row);
        i = i + 1;
    }
    sets
}

spec fn seed_rel(sv: Seq<SymbolView>) -> Set<(SymbolView, SymbolView)> {
    Set::new(|q: (SymbolView, SymbolView)| q.0 == q.1 && q.0 is Terminal && sv.contains(q.0))
}

/// The starting FIRST matrix: each named terminal is in its own set.
fn seed_matrix(syms: &Vec<Symbol>) -> (m: Vec<Vec<bool>>)
    requires
        views(syms@).no_duplicates(),
    ensures
        mirrors(views(syms@), views(syms@), m@, seed_rel(views(syms@))),
{
    let ghost sv = views(syms@);
    let n = syms.len();
    let mut m: Vec<Vec<bool>> = Vec::new();
    let mut i: usize = 0;
    while i < n
        invariant
            n == sv.len(),
            sv == views(syms@),
            sv.no_duplicates(),
            i <= n,
            m@.len() == i,
            forall|ii: int| 0 <= ii < i ==> (#[trigger] m@[ii])@.len() == n,
            forall|ii: int, jj: int| 0 <= ii < i && 0 <= jj < n ==> m@[ii]@[jj] == (ii == jj && sv[ii] is Terminal),
        decreases n - i,
    {
        let term = syms[i].is_terminal() && !syms[i].is_epsilon();
        let mut row: Vec<bool> = Vec::new();
        let mut j: usize = 0;
        while j < n
            invariant
                n == sv.len(),
                sv == views(syms@),
                i < n,
                j <= n,
                term == (sv[i as int] is Terminal),
                row@.len() == j,
                forall|jj: int| 0 <= jj < j ==> row@[jj] == (i == jj && sv[i as int] is Terminal),
            decreases n - j,
        {
            row.push(i == j && term);
            j = j + 1;
        }
        m.push(row);
        i = i + 1;
    }
    let ghost rel = seed_rel(sv);
    assert forall|ii: int, jj: int| 0 <= ii < sv.len() && 0 <= jj < sv.len() implies m@[ii]@[jj] == rel.contains((sv[ii], sv[jj])) by {
        if ii != jj {
            assert(sv[ii] != sv[jj]);
        }
    }
    m
}

/// A matrix of `rows` by `cols` entries `false`.
pub(crate) fn empty_matrix(rows: usize, cols: usize) -> (m: Vec<Vec<bool>>)
    ensures
        m@.len() == rows,
        forall|i: int| 0 <= i < rows ==> (#[trigger] m@[i])@.len() == cols,
        forall|i: int, j: int| 0 <= i < rows && 0 <= j < cols ==> !m@[i]@[j],
{
    let mut m: Vec<Vec<bool>> = Vec::new();
    let mut i: usize = 0;
    while i < rows
        invariant
            i <= rows,
            m@.len() == i,
            forall|ii: int| 0 <= ii < i ==> (#[trigger] m@[ii])@.len() == cols,
            forall|ii: int, jj: int| 0 <= ii < i && 0 <= jj < cols ==> !m@[ii]@[jj],
        decreases rows - i,
    {
        m.push(empty_row(cols));
        i = i + 1;
    }
    m
}

/// A row of `n` entries `false`.
pub(crate) fn empty_row(n: usize) -> (r: Vec<bool>)
    ensures
        r@.len() == n,
        forall|j: int| 0 <= j < n ==> !r@[j],
{
    let mut r: Vec<bool> = Vec::new();
    let mut j: usize = 0;
    while j < n
        invariant
            j <= n,
            r@.len() == j,
            forall|jj: int| 0 <= jj < j ==> !r@[jj],
        decreases n - j,
    {
        r.push(false);
        j = j + 1;
    }
    r
}

/// Computes FIRST, FOLLOW and the nullable nonterminals of `grammar`: the least
/// tables closed under the equations (see `closed`). Both tables have an entry
/// for every symbol of the grammar but the empty-string terminal.
pub fn compute_first_follow_nullable_sets(grammar: &Grammar) -> (r: (SymbolSets, SymbolSets, Vec<Symbol>))
    requires
        grammar.wf(),
    ensures
        r.0.wf(),
        r.1.wf(),
        r.0@ == table_of(grammar@, solution(grammar@).first),
        r.1@ == table_of(grammar@, solution(grammar@).follow),
        views(r.2@).to_set() == solution(grammar@).nullable,
        closed(grammar@, solution(grammar@)),
        forced(grammar@, solution(grammar@)),
{
    let ghost g = grammar@;
    let syms = collect_symbols(grammar);
    let ghost sv = views(syms@);
    let n = syms.len();
    let ig = encode(grammar, &syms);
    let mut fm = seed_matrix(&syms);
    let mut flm = empty_matrix(n, n);
    let mut nv = empty_row(n);
    let ghost t0 = Tables { first: seed_rel(sv), follow: Set::empty(), nullable: Set::empty() };
    proof {
        assert forall|u: Tables| #[trigger] closed(g, u) implies le(t0, u) by {
            assert forall|q: (SymbolView, SymbolView)| t0.first.contains(q) implies u.first.contains(q) by {
                assert(grammar_symbol(g, q.0));
                let p = choose|p: int| 0 <= p < g.len() && (g[p].lhs == q.0 || g[p].rhs.contains(q.0));
                assert(g[p].lhs is Nonterminal);
                let k = choose|k: int| 0 <= k < g[p].rhs.len() && g[p].rhs[k] == q.0;
                assert(u.first.contains((g[p].rhs[k], g[p].rhs[k])));
            }
        }
        assert forall|i: int, j: int| 0 <= i < sv.len() && 0 <= j < sv.len() implies flm@[i]@[j] == t0.follow.contains((sv[i], sv[j])) by {}
    }
    let mut changed = true;
    let ghost mut t = t0;
    let ghost start = measure(fm@, flm@, nv@);
    let ghost mut passes: int = 0;
    proof {
        lemma_falses_bound(fm@, n as nat);
        lemma_falses_bound(flm@, n as nat);
        lemma_cf_bound(nv@);
        assert(start <= 2 * (n * n) + n);
    }
    while changed
        invariant
            passes <= start - measure(fm@, flm@, nv@) + if changed {
                0int
            } else {
                1int
            },
            n == sv.len(),
            symbols_ok(g, sv),
            encodes(sv, g, ig@),
            state_ok(sv, fm@, flm@, nv@, t),
            forced(g, t),
            le(t0, t),
            !changed ==> forall|q: int| 0 <= q < g.len() ==> #[trigger] prod_ok(g, t, q),
        decreases measure(fm@, flm@, nv@) + if changed {
            1nat
        } else {
            0nat
        },
    {
        let (ch, Ghost(t2)) = solver_pass(&ig, &mut fm, &mut flm, &mut nv, Ghost(g), Ghost(sv), Ghost(t));
        proof {
            t = t2;
            passes = passes + 1;
        }
        changed = ch;
    }
    proof {
        // Each pass but the last sets an entry: the passes are bounded by the
        // number of entries of the three tables, plus one.
        assert(passes <= 2 * (n * n) + n + 1);
    }
    proof {
        assert forall|p: int, k: int|
            0 <= p < g.len() && 0 <= k < g[p].rhs.len() && g[p].rhs[k] is Terminal
                implies #[trigger] t.first.contains((g[p].rhs[k], g[p].rhs[k])) by {
            assert(g[p].rhs.contains(g[p].rhs[k]));
            assert(grammar_symbol(g, g[p].rhs[k]));
            assert(t0.first.contains((g[p].rhs[k], g[p].rhs[k])));
        }
        assert(closed(g, t));
        lemma_solution_unique(g, t);
    }
    let first_rows = table_rows(&syms, &fm, Ghost(t.first));
    let follow_rows = table_rows(&syms, &flm, Ghost(t.follow));
    let nullable = select(&syms, &nv, Ghost(t.nullable));
    proof {
        assert forall|i: int| 0 <= i < syms@.len() implies table_of(g, t.first)[#[trigger] syms@[i]@] == views(first_rows@[i]@).to_set() by {
            assert(sv.contains(sv[i]));
            assert(image(t.first, syms@[i]@) =~= table_of(g, t.first)[syms@[i]@]);
        }
        assert forall|i: int| 0 <= i < syms@.len() implies table_of(g, t.follow)[#[trigger] syms@[i]@] == views(follow_rows@[i]@).to_set() by {
            assert(sv.contains(sv[i]));
            assert(image(t.follow, syms@[i]@) =~= table_of(g, t.follow)[syms@[i]@]);
        }
    }
    let first = SymbolSets::from_parts(crate::symbol::copy_symbols(&syms), first_rows, Ghost(table_of(g, t.first)));
    let follow = SymbolSets::from_parts(crate::symbol::copy_symbols(&syms), follow_rows, Ghost(table_of(g, t.follow)));
    (first, follow, nullable)
}

} // verus!
