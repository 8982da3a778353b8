use chap3::grammar::Production;
use chap3::samples::{grammar_3_10, grammar_3_6};
use chap3::symbol::Symbol;

#[test]
fn test() {
    for p in grammar_3_10().productions().iter() {
        println!("{:?}", p);
    }
}

#[test]
fn sample_grammars_have_six_productions() {
    let g = grammar_3_6();
    assert_eq!(g.productions().len(), 6);
    assert_eq!(
        g.productions()[1],
        Production {
            start_symbol: Symbol::new_nonterminal("Z"),
            rhs: vec![Symbol::new_nonterminal("X"), Symbol::new_nonterminal("Y"), Symbol::new_nonterminal("Z")],
        }
    );
    assert_eq!(g.productions()[2].rhs, vec![Symbol::new_epsilon()]);
    let h = grammar_3_10();
    assert_eq!(h.productions().len(), 6);
    assert_eq!(h.productions()[0].start_symbol, Symbol::new_nonterminal("S'"));
}
