use chap3::first_seq::FirstSSetOp;
use chap3::grammar::{Grammar, Production};
use chap3::lalr_1::{goto, ClosureOp, GotoOp, Item};
use chap3::samples::grammar_3_10;
use chap3::solver::compute_first_follow_nullable_sets;
use chap3::symbol::Symbol;
use std::collections::HashSet;

fn nt(s: &str) -> Symbol {
    Symbol::new_nonterminal(s)
}

fn t(s: &str) -> Symbol {
    Symbol::new_other_terminal(s)
}

fn prod(lhs: &str, rhs: Vec<Symbol>) -> Production {
    Production { start_symbol: nt(lhs), rhs }
}

fn key(item: &Item) -> (Production, usize) {
    (item.prod().clone(), item.dot_pos())
}

fn las(item: &Item) -> HashSet<Symbol> {
    item.lookaheads().iter().cloned().collect()
}

fn find<'a>(items: &'a [Item], p: &Production, dot: usize) -> &'a Item {
    let found: Vec<&Item> = items.iter().filter(|i| key(i) == (p.clone(), dot)).collect();
    assert_eq!(found.len(), 1);
    found[0]
}

#[test]
fn test_closure() {
    let grammar_3_10 = grammar_3_10();
    let (first_sets, _, nullable_set) = compute_first_follow_nullable_sets(&grammar_3_10);
    let first_s_set_op = FirstSSetOp::new(&first_sets, &nullable_set);
    let closure_op = ClosureOp::new(&grammar_3_10, &first_s_set_op);
    let init_items = vec![Item::new(grammar_3_10.productions()[0].clone(), Vec::new())];
    let closure = closure_op.compute(init_items);
    for item in closure.iter() {
        println!("{:?}", item);
    }
    let prods = grammar_3_10.productions();
    assert_eq!(closure.len(), 6);
    assert_eq!(las(find(&closure, &prods[0], 0)), HashSet::new());
    assert_eq!(las(find(&closure, &prods[1], 0)), HashSet::new());
    assert_eq!(las(find(&closure, &prods[2], 0)), HashSet::new());
    assert_eq!(las(find(&closure, &prods[3], 0)), HashSet::new());
    assert_eq!(las(find(&closure, &prods[4], 0)), vec![t("=")].into_iter().collect());
    assert_eq!(las(find(&closure, &prods[5], 0)), vec![t("=")].into_iter().collect());
}

#[test]
fn closure_with_end_marker_merges_lookaheads() {
    let g = grammar_3_10();
    let (first, _, nullable) = compute_first_follow_nullable_sets(&g);
    let op = FirstSSetOp::new(&first, &nullable);
    let closure_op = ClosureOp::new(&g, &op);
    let closure = closure_op.compute(vec![Item::new(g.productions()[0].clone(), vec![t("$")])]);
    let prods = g.productions();
    let dollar: HashSet<Symbol> = vec![t("$")].into_iter().collect();
    let both: HashSet<Symbol> = vec![t("$"), t("=")].into_iter().collect();
    assert_eq!(closure.len(), 6);
    assert_eq!(las(find(&closure, &prods[1], 0)), dollar);
    assert_eq!(las(find(&closure, &prods[2], 0)), dollar);
    assert_eq!(las(find(&closure, &prods[3], 0)), dollar);
    assert_eq!(las(find(&closure, &prods[4], 0)), both);
    assert_eq!(las(find(&closure, &prods[5], 0)), both);
}

#[test]
fn closure_unions_own_lookahead_when_tail_is_nullable() {
    // S' -> S, S -> A B, A -> a, B -> ε, B -> b
    let g = Grammar::new(vec![
        prod("S'", vec![nt("S")]),
        prod("S", vec![nt("A"), nt("B")]),
        prod("A", vec![t("a")]),
        prod("B", vec![Symbol::new_epsilon()]),
        prod("B", vec![t("b")]),
    ]);
    let (first, _, nullable) = compute_first_follow_nullable_sets(&g);
    let op = FirstSSetOp::new(&first, &nullable);
    let closure_op = ClosureOp::new(&g, &op);
    let closure = closure_op.compute(vec![Item::new(g.productions()[0].clone(), vec![t("$")])]);
    let prods = g.productions();
    assert_eq!(closure.len(), 3);
    assert_eq!(las(find(&closure, &prods[1], 0)), vec![t("$")].into_iter().collect());
    assert_eq!(las(find(&closure, &prods[2], 0)), vec![t("b"), t("$")].into_iter().collect());
}

#[test]
fn closure_merges_input_items_with_one_core() {
    let g = grammar_3_10();
    let (first, _, nullable) = compute_first_follow_nullable_sets(&g);
    let op = FirstSSetOp::new(&first, &nullable);
    let closure_op = ClosureOp::new(&g, &op);
    let p4 = g.productions()[4].clone();
    let closure = closure_op.compute(vec![Item::new(p4.clone(), vec![t("a")]), Item::new(p4.clone(), vec![t("b")])]);
    assert_eq!(closure.len(), 1);
    assert_eq!(las(&closure[0]), vec![t("a"), t("b")].into_iter().collect());
    assert_eq!(closure_op.compute(Vec::new()).len(), 0);
}

#[test]
fn goto_advances_and_closes() {
    let g = grammar_3_10();
    let (first, _, nullable) = compute_first_follow_nullable_sets(&g);
    let op = FirstSSetOp::new(&first, &nullable);
    let closure_op = ClosureOp::new(&g, &op);
    let state0 = closure_op.compute(vec![Item::new(g.productions()[0].clone(), vec![t("$")])]);
    let prods = g.productions();

    let on_v = goto(&closure_op, &state0, &nt("V"));
    assert_eq!(on_v.len(), 2);
    assert_eq!(las(find(&on_v, &prods[1], 1)), vec![t("$")].into_iter().collect());
    assert_eq!(las(find(&on_v, &prods[3], 1)), vec![t("$")].into_iter().collect());

    let on_star = GotoOp::new(&closure_op).compute(state0.clone(), &t("*"));
    let both: HashSet<Symbol> = vec![t("$"), t("=")].into_iter().collect();
    assert_eq!(on_star.len(), 4);
    assert_eq!(las(find(&on_star, &prods[5], 1)), both);
    assert_eq!(las(find(&on_star, &prods[3], 0)), both);
    assert_eq!(las(find(&on_star, &prods[4], 0)), both);
    assert_eq!(las(find(&on_star, &prods[5], 0)), both);

    assert_eq!(goto(&closure_op, &state0, &t("=")).len(), 0);
}

#[test]
fn item_moves_its_dot() {
    let p = prod("S", vec![nt("V"), t("="), nt("E")]);
    let mut item = Item::new(p.clone(), vec![t("$")]);
    assert_eq!(item.dot_pos(), 0);
    assert_eq!(item.peek(), Some(&nt("V")));
    assert_eq!(item.rest_rhs(), vec![t("="), nt("E")]);
    assert_eq!(item.next(), Some(&t("=")));
    assert_eq!(item.rest_rhs(), vec![nt("E")]);
    assert_eq!(item.next(), Some(&nt("E")));
    assert_eq!(item.rest_rhs(), Vec::<Symbol>::new());
    assert_eq!(item.next(), None);
    assert_eq!(item.peek(), None);
    assert_eq!(item.dot_pos(), 3);
    assert_eq!(item.rest_rhs(), Vec::<Symbol>::new());
    assert_eq!(las(&item), vec![t("$")].into_iter().collect());
}
