use ll_grammar::collections::sorted_once;
use ll_grammar::grammar::{FreeProduction, Grammar, Production, Token};
use ll_grammar::listing::numerals_text;
use ll_grammar::ll1::first;
use std::collections::{HashMap, HashSet};

#[test]
fn sorting_orders_and_drops_repeats() {
    assert_eq!(sorted_once(&vec![5, 1, 9, 1, 3, 5, 0]), vec![0, 1, 3, 5, 9]);
    assert_eq!(sorted_once(&vec![]), Vec::<usize>::new());
    assert_eq!(sorted_once(&vec![usize::MAX, 0]), vec![0, usize::MAX]);
}

#[test]
fn numerals_are_decimal() {
    assert_eq!(numerals_text(&vec![0, 7, 10, 305]), "0710305");
    assert_eq!(numerals_text(&vec![]), "");
    assert_eq!(
        numerals_text(&vec![18446744073709551615]),
        "18446744073709551615"
    );
}

#[test]
fn productions_as_text() {
    assert_eq!(Production::new(0, vec![1, 20], vec![3, 4]).to_text(), "120 -> 34");
    assert_eq!(Production::new(0, vec![1], vec![]).to_text(), "1 -> ");
    assert_eq!(FreeProduction::new(0, 12, vec![3, 40]).to_text(), "12 -> 340");
    assert_eq!(FreeProduction::new(0, 0, vec![]).to_text(), "0 -> ");
}

#[test]
fn grammar_listing_is_ordered_by_id() {
    let mut g: Grammar<FreeProduction> = Grammar::new();
    g.add_non_terminal(Token::new_non_terminal(1, "S")).unwrap();
    g.add_terminal(Token::new_terminal(2, "a")).unwrap();
    g.add_production_strict(FreeProduction::new(100, 1, vec![])).unwrap();
    g.add_production_strict(FreeProduction::new(20, 1, vec![2, 1])).unwrap();
    assert_eq!(g.to_text(), "P20: S -> aS\nP100: S -> \u{3b5}\n");
    g.set_start_symbol(1).unwrap();
    g.productions.insert(30, FreeProduction::new(30, 9, vec![8]));
    assert_eq!(
        g.to_text(),
        "Starting symbol: S\nP20: S -> aS\nP30: Err -> Err\nP100: S -> \u{3b5}\n"
    );
    g.start_symbol = Some(77);
    assert_eq!(g.to_text(), "P20: S -> aS\nP30: Err -> Err\nP100: S -> \u{3b5}\n");
}

#[test]
fn empty_grammar_has_an_empty_listing() {
    let g: Grammar<Production> = Grammar::new();
    assert_eq!(g.to_text(), "");
    assert_eq!(g.first_listing(&HashMap::new()), Vec::<String>::new());
}

#[test]
fn first_listing_shows_each_set() {
    let mut g: Grammar<FreeProduction> = Grammar::new();
    g.add_non_terminal(Token::new_non_terminal(1, "S")).unwrap();
    g.add_non_terminal(Token::new_non_terminal(2, "B")).unwrap();
    g.add_non_terminal(Token::new_non_terminal(3, "C")).unwrap();
    g.add_terminal(Token::new_terminal(12, "d")).unwrap();
    g.add_terminal(Token::new_terminal(10, "b")).unwrap();
    g.add_terminal(Token::new_terminal(11, "c")).unwrap();
    g.add_production_strict(FreeProduction::new(0, 1, vec![2, 3, 12])).unwrap();
    g.add_production_strict(FreeProduction::new(1, 2, vec![10])).unwrap();
    g.add_production_strict(FreeProduction::new(2, 2, vec![])).unwrap();
    g.add_production_strict(FreeProduction::new(3, 3, vec![])).unwrap();
    g.add_production_strict(FreeProduction::new(4, 3, vec![11])).unwrap();
    let table = first(&g).unwrap();
    assert_eq!(
        g.first_listing(&table),
        vec!["First(S) = {b, c, d}", "First(B) = {b}", "First(C) = {c}"]
    );
    let mut odd: HashMap<usize, HashSet<usize>> = HashMap::new();
    odd.insert(40, [12, 41].into_iter().collect());
    odd.insert(3, HashSet::new());
    assert_eq!(g.first_listing(&odd), vec!["First(C) = {}", "First(Err) = {d, Err}"]);
}
