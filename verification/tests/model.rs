use ll_grammar::collections::{copy_set, key_list, member_list, union_into};
use ll_grammar::grammar::{
    FreeProduction, Grammar, GrammarError, GrammarProduction, Production, Token, TokenType,
};
use ll_grammar::grammar_parser::{
    construct_grammar, FreeProductionToml, FromToml, ProductionToml,
};
use std::collections::{HashMap, HashSet};

#[test]
fn token_constructors_set_the_kind() {
    let t = Token::new_terminal(3, "x");
    assert_eq!((t.id, t.content.as_str(), t.token_type), (3, "x", TokenType::Terminal));
    let n = Token::new_non_terminal(4, "X");
    assert_eq!((n.id, n.content.as_str(), n.token_type), (4, "X", TokenType::NonTerminal));
    let m = Token::new(5, "y");
    assert_eq!((m.id, m.content.as_str(), m.token_type), (5, "y", TokenType::NonTerminal));
}

#[test]
fn productions_give_normalized_views() {
    let p = Production::new(7, vec![1, 2], vec![3]);
    assert_eq!(p.id(), 7);
    assert_eq!(p.normalized_driver(), &vec![1, 2]);
    assert_eq!(p.normalized_body(), &vec![3]);
    let f = FreeProduction::new(8, 1, vec![2, 3]);
    assert_eq!(f.id(), 8);
    assert_eq!(f.normalized_driver(), &vec![1]);
    assert_eq!(f.normalized_body(), &vec![2, 3]);
    assert_eq!(f.driver, 1);
}

#[test]
fn new_grammar_is_empty() {
    let g: Grammar<Production> = Grammar::new();
    assert!(g.tokens.is_empty());
    assert!(g.productions.is_empty());
    assert_eq!(g.start_symbol, None);
}

#[test]
fn duplicate_symbol_is_refused() {
    let mut g: Grammar<FreeProduction> = Grammar::new();
    assert_eq!(g.add_terminal(Token::new_terminal(1, "a")), Ok(()));
    assert_eq!(
        g.add_terminal(Token::new_terminal(1, "b")),
        Err(GrammarError::DuplicateId(1))
    );
    assert_eq!(
        g.add_non_terminal(Token::new_non_terminal(1, "B")),
        Err(GrammarError::DuplicateId(1))
    );
    assert_eq!(g.get_token(&1).unwrap().content, "a");
    assert_eq!(g.add_non_terminal(Token::new_non_terminal(2, "B")), Ok(()));
    assert_eq!(g.get_token(&2).unwrap().token_type, TokenType::NonTerminal);
    assert!(g.get_token(&3).is_none());
}

#[test]
fn start_symbol_must_be_known() {
    let mut g: Grammar<FreeProduction> = Grammar::new();
    g.add_non_terminal(Token::new_non_terminal(1, "S")).unwrap();
    assert_eq!(g.set_start_symbol(2), Err(GrammarError::UnknownSymbol(2)));
    assert_eq!(g.start_symbol, None);
    assert_eq!(g.set_start_symbol(1), Ok(()));
    assert_eq!(g.start_symbol, Some(1));
    assert_eq!(g.set_start_symbol(5), Err(GrammarError::UnknownSymbol(5)));
    assert_eq!(g.start_symbol, Some(1));
}

#[test]
fn strict_insertion_names_the_first_unknown_id() {
    let mut g: Grammar<Production> = Grammar::new();
    g.add_non_terminal(Token::new_non_terminal(1, "A")).unwrap();
    g.add_terminal(Token::new_terminal(2, "a")).unwrap();
    assert_eq!(
        g.add_production_strict(Production::new(0, vec![1, 8], vec![9, 2])),
        Err(GrammarError::UnknownSymbol(8))
    );
    assert_eq!(
        g.add_production_strict(Production::new(0, vec![1], vec![2, 9, 7])),
        Err(GrammarError::UnknownSymbol(9))
    );
    assert!(g.productions.is_empty());
    assert_eq!(g.add_production_strict(Production::new(0, vec![1], vec![2])), Ok(()));
    assert_eq!(g.add_production_strict(Production::new(0, vec![1], vec![2, 2])), Ok(()));
    assert_eq!(g.productions.len(), 1);
    assert_eq!(g.productions[&0].body, vec![2, 2]);
}

#[test]
fn permissive_insertion_makes_placeholders() {
    let mut g: Grammar<FreeProduction> = Grammar::new();
    g.add_terminal(Token::new_terminal(2, "a")).unwrap();
    g.add_production(FreeProduction::new(0, 7, vec![2, 7, 12]));
    assert_eq!(g.tokens.len(), 3);
    let driver = g.get_token(&7).unwrap();
    assert_eq!(
        (driver.id, driver.content.as_str(), driver.token_type),
        (7, "NT7", TokenType::NonTerminal)
    );
    let body = g.get_token(&12).unwrap();
    assert_eq!(
        (body.id, body.content.as_str(), body.token_type),
        (12, "NT12", TokenType::Terminal)
    );
    assert_eq!(g.get_token(&2).unwrap().content, "a");
    assert_eq!(g.productions[&0].body, vec![2, 7, 12]);
}

#[test]
fn rendering_runs_the_texts_together() {
    let mut g: Grammar<Production> = Grammar::new();
    g.add_non_terminal(Token::new_non_terminal(1, "Expr")).unwrap();
    g.add_non_terminal(Token::new_non_terminal(2, "T")).unwrap();
    g.add_terminal(Token::new_terminal(3, "+")).unwrap();
    g.add_production_strict(Production::new(0, vec![1, 2], vec![1, 3, 2])).unwrap();
    g.add_production_strict(Production::new(1, vec![2], vec![])).unwrap();
    assert_eq!(g.get_production_driver(&0), Some("ExprT".to_string()));
    assert_eq!(g.get_production_body(&0), Some("Expr+T".to_string()));
    assert_eq!(g.get_production_driver(&1), Some("T".to_string()));
    assert_eq!(g.get_production_body(&1), Some("\u{3b5}".to_string()));
    assert_eq!(g.get_production_driver(&5), None);
    assert_eq!(g.get_production_body(&5), None);
}

#[test]
fn rendering_fails_on_a_missing_symbol() {
    let mut g: Grammar<Production> = Grammar::new();
    g.add_non_terminal(Token::new_non_terminal(1, "A")).unwrap();
    g.productions.insert(0, Production::new(0, vec![1], vec![1, 9]));
    g.productions.insert(1, Production::new(1, vec![9], vec![1]));
    assert_eq!(g.get_production_driver(&0), Some("A".to_string()));
    assert_eq!(g.get_production_body(&0), None);
    assert_eq!(g.get_production_driver(&1), None);
    assert_eq!(g.get_production_body(&1), Some("A".to_string()));
}

#[test]
fn descriptions_become_productions() {
    let p = Production::from_toml(3, ProductionToml { lhs: vec![1], rhs: vec![2, 3] });
    assert_eq!((p.id, p.driver, p.body), (3, vec![1], vec![2, 3]));
    let f = FreeProduction::from_toml(4, FreeProductionToml { lhs: 1, rhs: vec![2] });
    assert_eq!((f.id, f.driver, f.body.clone()), (4, 1, vec![2]));
    assert_eq!(f.normalized_driver(), &vec![1]);
}

#[test]
fn construction_builds_the_grammar() {
    let symbols = vec![Token::new_terminal(2, "a"), Token::new_non_terminal(1, "S")];
    let productions = vec![
        FreeProduction::new(0, 1, vec![2]),
        FreeProduction::new(1, 1, vec![]),
        FreeProduction::new(0, 1, vec![2, 2]),
    ];
    let g = construct_grammar(symbols, productions, 1).unwrap();
    assert_eq!(g.start_symbol, Some(1));
    assert_eq!(g.tokens.len(), 2);
    assert_eq!(g.tokens[&2].token_type, TokenType::Terminal);
    assert_eq!(g.tokens[&1].content, "S");
    assert_eq!(g.productions.len(), 2);
    assert_eq!(g.productions[&0].body, vec![2, 2]);
}

#[test]
fn construction_reports_the_first_problem() {
    let dup = construct_grammar(
        vec![
            Token::new_terminal(2, "a"),
            Token::new_non_terminal(1, "S"),
            Token::new_non_terminal(2, "T"),
            Token::new_non_terminal(1, "U"),
        ],
        vec![FreeProduction::new(0, 9, vec![])],
        7,
    );
    assert_eq!(dup.err(), Some(GrammarError::DuplicateId(2)));
    let unknown = construct_grammar(
        vec![Token::new_terminal(2, "a"), Token::new_non_terminal(1, "S")],
        vec![
            FreeProduction::new(0, 1, vec![2]),
            FreeProduction::new(1, 1, vec![2, 5, 6]),
            FreeProduction::new(2, 8, vec![]),
        ],
        7,
    );
    assert_eq!(unknown.err(), Some(GrammarError::UnknownSymbol(5)));
    let start = construct_grammar(
        vec![Token::new_terminal(2, "a"), Token::new_non_terminal(1, "S")],
        vec![FreeProduction::new(0, 1, vec![2])],
        7,
    );
    assert_eq!(start.err(), Some(GrammarError::UnknownSymbol(7)));
}

#[test]
fn key_and_member_lists_hold_each_item_once() {
    let mut m: HashMap<usize, &str> = HashMap::new();
    m.insert(3, "c");
    m.insert(1, "a");
    m.insert(2, "b");
    let mut keys = key_list(&m);
    keys.sort();
    assert_eq!(keys, vec![1, 2, 3]);
    let s: HashSet<usize> = [5, 6].into_iter().collect();
    let mut members = member_list(&s);
    members.sort();
    assert_eq!(members, vec![5, 6]);
}

#[test]
fn union_and_copy_of_sets() {
    let mut a: HashSet<usize> = [1, 2].into_iter().collect();
    let b: HashSet<usize> = [2, 3].into_iter().collect();
    union_into(&mut a, &b);
    assert_eq!(a, [1, 2, 3].into_iter().collect::<HashSet<usize>>());
    assert_eq!(copy_set(&b), b);
}
