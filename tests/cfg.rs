use chap3::first_seq::FirstSSetOp;
use chap3::grammar::{Grammar, Production};
use chap3::samples::grammar_3_6;
use chap3::solver::compute_first_follow_nullable_sets;
use chap3::symbol::Symbol;
use chap3::tables::SymbolSets;
use std::collections::HashSet;

fn nt(s: &str) -> Symbol {
    Symbol::new_nonterminal(s)
}

fn t(s: &str) -> Symbol {
    Symbol::new_other_terminal(s)
}

fn set(v: Vec<Symbol>) -> HashSet<Symbol> {
    v.into_iter().collect()
}

fn entry(table: &SymbolSets, x: &Symbol) -> HashSet<Symbol> {
    assert!(table.contains_key(x));
    set(table.get(x))
}

#[test]
fn test_compute_first_follow_nullable_sets() {
    let grammar = grammar_3_6();
    let (first, follow, nullable) = compute_first_follow_nullable_sets(&grammar);
    assert_eq!(entry(&first, &nt("X")), set(vec![t("a"), t("c")]));
    assert_eq!(entry(&first, &nt("Y")), set(vec![t("c")]));
    assert_eq!(entry(&first, &nt("Z")), set(vec![t("a"), t("c"), t("d")]));
    assert_eq!(entry(&follow, &nt("X")), set(vec![t("a"), t("c"), t("d")]));
    assert_eq!(entry(&follow, &nt("Y")), set(vec![t("a"), t("c"), t("d")]));
    assert_eq!(entry(&follow, &nt("Z")), HashSet::new());
    assert_eq!(set(nullable), set(vec![nt("X"), nt("Y")]));
}

#[test]
fn test_compute_first_s_set() {
    let cases = vec![
        (grammar_3_6(), vec![nt("X"), nt("Y"), nt("Z")], vec![t("a"), t("c")]),
        (grammar_3_6(), vec![t("c")], vec![t("c")]),
    ];
    for (grammar, symbols, expected) in cases {
        let (first, _, nullable) = compute_first_follow_nullable_sets(&grammar);
        let op = FirstSSetOp::new(&first, &nullable);
        let actual = set(op.compute(&symbols));
        assert!(set(expected).difference(&actual).count() == 0);
    }
}

#[test]
fn first_of_sequence_goes_past_nullable_symbols() {
    let grammar = grammar_3_6();
    let (first, _, nullable) = compute_first_follow_nullable_sets(&grammar);
    let op = FirstSSetOp::new(&first, &nullable);
    assert_eq!(set(op.compute(&vec![nt("X"), nt("Y"), nt("Z")])), set(vec![t("a"), t("c"), t("d")]));
    assert_eq!(set(op.compute(&vec![t("c")])), set(vec![t("c")]));
    assert_eq!(set(op.compute(&vec![nt("Y")])), set(vec![t("c")]));
    assert_eq!(set(op.compute(&vec![nt("Y"), t("d")])), set(vec![t("c"), t("d")]));
    assert_eq!(set(op.compute(&vec![t("d"), nt("Y")])), set(vec![t("d")]));
    assert_eq!(op.compute(&vec![]).len(), 0);
    assert_eq!(set(op.compute(&vec![t("unseen")])), HashSet::new());
    assert_eq!(set(op.compute(&vec![Symbol::new_epsilon(), t("a")])), set(vec![t("a")]));
}

#[test]
fn tables_cover_every_symbol_but_epsilon() {
    let grammar = grammar_3_6();
    let (first, follow, _) = compute_first_follow_nullable_sets(&grammar);
    let expected = set(vec![nt("X"), nt("Y"), nt("Z"), t("a"), t("c"), t("d")]);
    assert_eq!(set(first.keys()), expected);
    assert_eq!(set(follow.keys()), expected);
    assert!(!first.contains_key(&Symbol::new_epsilon()));
    assert_eq!(first.get(&Symbol::new_epsilon()).len(), 0);
    assert_eq!(entry(&first, &t("a")), set(vec![t("a")]));
    assert_eq!(entry(&follow, &t("c")), set(vec![t("a"), t("c"), t("d")]));
    assert_eq!(entry(&follow, &t("d")), HashSet::new());
}

#[test]
fn undefined_nonterminal_gets_empty_first() {
    // A -> B c, with B never defined.
    let prods = vec![Production { start_symbol: nt("A"), rhs: vec![nt("B"), t("c")] }];
    let grammar = Grammar::new(prods);
    let (first, follow, nullable) = compute_first_follow_nullable_sets(&grammar);
    assert_eq!(entry(&first, &nt("A")), HashSet::new());
    assert_eq!(entry(&first, &nt("B")), HashSet::new());
    assert_eq!(entry(&follow, &nt("B")), set(vec![t("c")]));
    assert!(nullable.is_empty());
}

#[test]
fn follow_flows_from_head_through_nullable_tail() {
    // S -> A B, A -> a, B -> ε, B -> b, T -> S x
    let prods = vec![
        Production { start_symbol: nt("S"), rhs: vec![nt("A"), nt("B")] },
        Production { start_symbol: nt("A"), rhs: vec![t("a")] },
        Production { start_symbol: nt("B"), rhs: vec![Symbol::new_epsilon()] },
        Production { start_symbol: nt("B"), rhs: vec![t("b")] },
        Production { start_symbol: nt("T"), rhs: vec![nt("S"), t("x")] },
    ];
    let grammar = Grammar::new(prods);
    let (first, follow, nullable) = compute_first_follow_nullable_sets(&grammar);
    assert_eq!(entry(&first, &nt("S")), set(vec![t("a")]));
    assert_eq!(entry(&first, &nt("B")), set(vec![t("b")]));
    assert_eq!(entry(&follow, &nt("S")), set(vec![t("x")]));
    assert_eq!(entry(&follow, &nt("B")), set(vec![t("x")]));
    assert_eq!(entry(&follow, &nt("A")), set(vec![t("b"), t("x")]));
    assert_eq!(set(nullable), set(vec![nt("B")]));
}

#[test]
fn mutual_recursion_reaches_fixed_point() {
    // P -> Q p, Q -> P q, Q -> ε
    let prods = vec![
        Production { start_symbol: nt("P"), rhs: vec![nt("Q"), t("p")] },
        Production { start_symbol: nt("Q"), rhs: vec![nt("P"), t("q")] },
        Production { start_symbol: nt("Q"), rhs: vec![Symbol::new_epsilon()] },
    ];
    let grammar = Grammar::new(prods);
    let (first, follow, nullable) = compute_first_follow_nullable_sets(&grammar);
    assert_eq!(entry(&first, &nt("P")), set(vec![t("p")]));
    assert_eq!(entry(&first, &nt("Q")), set(vec![t("p")]));
    assert_eq!(entry(&follow, &nt("P")), set(vec![t("q")]));
    assert_eq!(entry(&follow, &nt("Q")), set(vec![t("p")]));
    assert_eq!(set(nullable), set(vec![nt("Q")]));
}

#[test]
fn second_run_gives_same_tables() {
    let grammar = grammar_3_6();
    let (f1, fo1, n1) = compute_first_follow_nullable_sets(&grammar);
    let (f2, fo2, n2) = compute_first_follow_nullable_sets(&grammar);
    for k in f1.keys() {
        assert_eq!(set(f1.get(&k)), set(f2.get(&k)));
        assert_eq!(set(fo1.get(&k)), set(fo2.get(&k)));
    }
    assert_eq!(set(n1), set(n2));
}

#[test]
fn get_prods_keeps_grammar_order() {
    let grammar = grammar_3_6();
    let z = grammar.get_prods(&nt("Z"));
    assert_eq!(z.len(), 2);
    assert_eq!(z[0].rhs, vec![t("d")]);
    assert_eq!(z[1].rhs, vec![nt("X"), nt("Y"), nt("Z")]);
    assert_eq!(grammar.get_prods(&t("d")).len(), 0);
    assert_eq!(grammar.get_prods(&nt("W")).len(), 0);
}

#[test]
fn symbol_kinds() {
    assert!(Symbol::new_epsilon().is_epsilon());
    assert!(Symbol::new_epsilon().is_terminal());
    assert!(t("a").is_terminal());
    assert!(!t("a").is_epsilon());
    assert!(nt("a").is_nonterminal());
    assert!(!nt("a").is_terminal());
    assert!(nt("a") != t("a"));
    assert!(nt("a") == nt("a"));
    assert!(nt("a") != nt("b"));
}
