use ll_grammar::grammar::{FreeProduction, Grammar, GrammarError, Token};
use ll_grammar::ll1::first_sets::{collect_first_sets, propagate, resolve_component};
use ll_grammar::ll1::nullable::{body_in_set, is_well_formed, nullable_closure};
use ll_grammar::ll1::{first, nullabes};
use std::collections::{HashMap, HashSet};

fn grammar(
    terminals: &[(usize, &str)],
    non_terminals: &[(usize, &str)],
    productions: &[(usize, usize, &[usize])],
) -> Grammar<FreeProduction> {
    let mut g: Grammar<FreeProduction> = Grammar::new();
    for (id, text) in terminals {
        g.add_terminal(Token::new_terminal(*id, text)).unwrap();
    }
    for (id, text) in non_terminals {
        g.add_non_terminal(Token::new_non_terminal(*id, text)).unwrap();
    }
    for (id, driver, body) in productions {
        g.add_production_strict(FreeProduction::new(*id, *driver, body.to_vec())).unwrap();
    }
    g
}

fn set(items: &[usize]) -> HashSet<usize> {
    items.iter().copied().collect()
}

fn table(entries: &[(usize, &[usize])]) -> HashMap<usize, HashSet<usize>> {
    entries.iter().map(|(k, v)| (*k, set(v))).collect()
}

#[test]
fn scenario_optional_terminal() {
    // S -> a | epsilon
    let g = grammar(&[(2, "a")], &[(1, "S")], &[(0, 1, &[2]), (1, 1, &[])]);
    assert_eq!(nullabes(&g), Ok(set(&[1])));
    assert_eq!(first(&g), Ok(table(&[(1, &[2])])));
}

#[test]
fn scenario_nullable_prefix() {
    // A -> B c, B -> epsilon
    let g = grammar(&[(3, "c")], &[(1, "A"), (2, "B")], &[(0, 1, &[2, 3]), (1, 2, &[])]);
    assert_eq!(nullabes(&g), Ok(set(&[2])));
    assert_eq!(first(&g), Ok(table(&[(1, &[3]), (2, &[])])));
}

#[test]
fn scenario_mutual_recursion() {
    // A -> B, B -> A a, B -> b
    let g = grammar(
        &[(3, "a"), (4, "b")],
        &[(1, "A"), (2, "B")],
        &[(0, 1, &[2]), (1, 2, &[1, 3]), (2, 2, &[4])],
    );
    assert_eq!(nullabes(&g), Ok(set(&[])));
    assert_eq!(first(&g), Ok(table(&[(1, &[4]), (2, &[4])])));
}

#[test]
fn scenario_expression_grammar() {
    // E -> E + T | T, T -> T * F | F, F -> id
    let g = grammar(
        &[(10, "+"), (11, "*"), (12, "id")],
        &[(1, "E"), (2, "T"), (3, "F")],
        &[
            (0, 1, &[1, 10, 2]),
            (1, 1, &[2]),
            (2, 2, &[2, 11, 3]),
            (3, 2, &[3]),
            (4, 3, &[12]),
        ],
    );
    assert_eq!(nullabes(&g), Ok(set(&[])));
    assert_eq!(first(&g), Ok(table(&[(1, &[12]), (2, &[12]), (3, &[12])])));
}

#[test]
fn nullable_needs_several_passes() {
    // A -> B C, C -> B B, B -> epsilon, D -> A d
    let g = grammar(
        &[(9, "d")],
        &[(1, "A"), (2, "B"), (3, "C"), (4, "D")],
        &[(0, 1, &[2, 3]), (1, 3, &[2, 2]), (2, 2, &[]), (3, 4, &[1, 9])],
    );
    assert_eq!(nullabes(&g), Ok(set(&[1, 2, 3])));
}

#[test]
fn nullable_is_a_fixed_point() {
    let g = grammar(
        &[(9, "d")],
        &[(1, "A"), (2, "B"), (3, "C"), (4, "D"), (5, "E")],
        &[(0, 1, &[2, 3]), (1, 3, &[2, 2]), (2, 2, &[]), (3, 4, &[1, 9]), (4, 4, &[5])],
    );
    let n = nullabes(&g).unwrap();
    for a in [1usize, 2, 3, 4, 5] {
        let some_body_nullable = g
            .productions
            .values()
            .any(|p| p.driver == a && p.body.iter().all(|x| n.contains(x)));
        assert_eq!(n.contains(&a), some_body_nullable);
    }
}

#[test]
fn non_terminal_without_productions_is_not_nullable() {
    let g = grammar(&[], &[(1, "A"), (2, "B")], &[(0, 1, &[2])]);
    assert_eq!(nullabes(&g), Ok(set(&[])));
    assert_eq!(first(&g), Ok(table(&[(1, &[]), (2, &[])])));
}

#[test]
fn first_passes_over_nullable_symbols() {
    // S -> B C d, B -> b | epsilon, C -> c | epsilon
    let g = grammar(
        &[(10, "b"), (11, "c"), (12, "d")],
        &[(1, "S"), (2, "B"), (3, "C")],
        &[
            (0, 1, &[2, 3, 12]),
            (1, 2, &[10]),
            (2, 2, &[]),
            (3, 3, &[11]),
            (4, 3, &[]),
        ],
    );
    assert_eq!(nullabes(&g), Ok(set(&[2, 3])));
    assert_eq!(
        first(&g),
        Ok(table(&[(1, &[10, 11, 12]), (2, &[10]), (3, &[11])]))
    );
}

#[test]
fn first_stops_at_a_terminal() {
    // S -> a B, B -> b
    let g = grammar(
        &[(10, "a"), (11, "b")],
        &[(1, "S"), (2, "B")],
        &[(0, 1, &[10, 2]), (1, 2, &[11])],
    );
    assert_eq!(first(&g), Ok(table(&[(1, &[10]), (2, &[11])])));
}

#[test]
fn first_stops_at_a_non_nullable_non_terminal() {
    // S -> B c, B -> b
    let g = grammar(
        &[(10, "b"), (11, "c")],
        &[(1, "S"), (2, "B")],
        &[(0, 1, &[2, 11]), (1, 2, &[10])],
    );
    assert_eq!(first(&g), Ok(table(&[(1, &[10]), (2, &[10])])));
}

#[test]
fn first_propagates_across_layers() {
    // D -> A | d, A -> B | C, B -> b, C -> c, X -> x
    let g = grammar(
        &[(10, "b"), (11, "c"), (12, "d"), (13, "x")],
        &[(1, "D"), (2, "A"), (3, "B"), (4, "C"), (5, "X")],
        &[
            (0, 1, &[2]),
            (1, 1, &[12]),
            (2, 2, &[3]),
            (3, 2, &[4]),
            (4, 3, &[10]),
            (5, 4, &[11]),
            (6, 5, &[13]),
        ],
    );
    assert_eq!(
        first(&g),
        Ok(table(&[
            (1, &[10, 11, 12]),
            (2, &[10, 11]),
            (3, &[10]),
            (4, &[11]),
            (5, &[13]),
        ]))
    );
}

#[test]
fn first_with_two_cycles_in_a_chain() {
    // A -> B | a, B -> A | C, C -> D | c, D -> C | d
    let g = grammar(
        &[(10, "a"), (11, "c"), (12, "d")],
        &[(1, "A"), (2, "B"), (3, "C"), (4, "D")],
        &[
            (0, 1, &[2]),
            (1, 1, &[10]),
            (2, 2, &[1]),
            (3, 2, &[3]),
            (4, 3, &[4]),
            (5, 3, &[11]),
            (6, 4, &[3]),
            (7, 4, &[12]),
        ],
    );
    assert_eq!(
        first(&g),
        Ok(table(&[
            (1, &[10, 11, 12]),
            (2, &[10, 11, 12]),
            (3, &[11, 12]),
            (4, &[11, 12]),
        ]))
    );
}

#[test]
fn first_is_sound_for_each_production() {
    let g = grammar(
        &[(10, "b"), (11, "c"), (12, "d")],
        &[(1, "S"), (2, "B"), (3, "C")],
        &[
            (0, 1, &[2, 3, 12]),
            (1, 2, &[10]),
            (2, 2, &[]),
            (3, 3, &[11]),
            (4, 3, &[2, 1]),
        ],
    );
    let n = nullabes(&g).unwrap();
    let f = first(&g).unwrap();
    for p in g.productions.values() {
        for x in &p.body {
            match f.get(x) {
                Some(fx) => assert!(fx.is_subset(&f[&p.driver])),
                None => assert!(f[&p.driver].contains(x)),
            }
            if !n.contains(x) {
                break;
            }
        }
    }
}

#[test]
fn analyses_are_deterministic_and_leave_the_grammar_alone() {
    let g = grammar(
        &[(10, "+"), (11, "*"), (12, "id")],
        &[(1, "E"), (2, "T"), (3, "F")],
        &[
            (0, 1, &[1, 10, 2]),
            (1, 1, &[2]),
            (2, 2, &[2, 11, 3]),
            (3, 2, &[3]),
            (4, 3, &[12]),
            (5, 3, &[]),
        ],
    );
    let n1 = nullabes(&g);
    let f1 = first(&g);
    let n2 = nullabes(&g);
    let f2 = first(&g);
    assert_eq!(n1, n2);
    assert_eq!(f1, f2);
    assert_eq!(g.productions.len(), 6);
    assert_eq!(g.tokens.len(), 6);
    assert_eq!(g.productions[&0].body, vec![1, 10, 2]);
}

#[test]
fn empty_grammar_has_empty_results() {
    let g: Grammar<FreeProduction> = Grammar::new();
    assert_eq!(nullabes(&g), Ok(HashSet::new()));
    assert_eq!(first(&g), Ok(HashMap::new()));
}

#[test]
fn dangling_body_symbol_is_reported() {
    let mut g = grammar(&[], &[(1, "A")], &[]);
    g.productions.insert(0, FreeProduction::new(0, 1, vec![7]));
    assert_eq!(nullabes(&g), Err(GrammarError::PreconditionViolated));
    assert_eq!(first(&g), Err(GrammarError::PreconditionViolated));
}

#[test]
fn dangling_driver_is_reported() {
    let mut g = grammar(&[(2, "a")], &[], &[]);
    g.productions.insert(0, FreeProduction::new(0, 1, vec![2]));
    assert_eq!(nullabes(&g), Err(GrammarError::PreconditionViolated));
    assert_eq!(first(&g), Err(GrammarError::PreconditionViolated));
}

#[test]
fn terminal_driver_is_reported() {
    let mut g = grammar(&[(2, "a")], &[(1, "A")], &[]);
    g.productions.insert(0, FreeProduction::new(0, 2, vec![]));
    assert_eq!(nullabes(&g), Err(GrammarError::PreconditionViolated));
    assert_eq!(first(&g), Err(GrammarError::PreconditionViolated));
}

#[test]
fn dangling_start_symbol_is_reported() {
    let mut g = grammar(&[(2, "a")], &[(1, "A")], &[(0, 1, &[2])]);
    g.start_symbol = Some(9);
    assert_eq!(nullabes(&g), Err(GrammarError::PreconditionViolated));
    assert_eq!(first(&g), Err(GrammarError::PreconditionViolated));
}

#[test]
fn well_formedness_is_decided() {
    let mut g = grammar(&[(2, "a")], &[(1, "A")], &[(0, 1, &[2, 1])]);
    assert!(is_well_formed(&g));
    g.set_start_symbol(1).unwrap();
    assert!(is_well_formed(&g));
    g.productions.insert(5, FreeProduction::new(5, 1, vec![2, 3]));
    assert!(!is_well_formed(&g));
}

#[test]
fn body_membership_is_decided() {
    assert!(body_in_set(&vec![], &set(&[])));
    assert!(body_in_set(&vec![1, 2, 1], &set(&[1, 2, 3])));
    assert!(!body_in_set(&vec![1, 4], &set(&[1, 2, 3])));
}

#[test]
fn closure_works_without_a_vocabulary() {
    let mut g: Grammar<FreeProduction> = Grammar::new();
    g.productions.insert(0, FreeProduction::new(0, 1, vec![2, 2]));
    g.productions.insert(1, FreeProduction::new(1, 2, vec![]));
    g.productions.insert(2, FreeProduction::new(2, 3, vec![1, 4]));
    assert_eq!(nullable_closure(&g), set(&[1, 2]));
}

#[test]
fn propagation_follows_the_given_components() {
    // D -> A | d, A -> B | a, B -> A | b: components {D} and {A, B}.
    let g = grammar(
        &[(10, "a"), (11, "b"), (12, "d")],
        &[(1, "D"), (2, "A"), (3, "B")],
        &[
            (0, 1, &[2]),
            (1, 1, &[12]),
            (2, 2, &[3]),
            (3, 2, &[10]),
            (4, 3, &[2]),
            (5, 3, &[11]),
        ],
    );
    let exposures = vec![(1, 2), (1, 12), (2, 3), (2, 10), (3, 2), (3, 11)];
    let comp_of: HashMap<usize, usize> = [(1, 1), (2, 0), (3, 0)].into_iter().collect();
    let order = vec![1, 0];
    let inner = resolve_component(&g, &exposures, &comp_of, &order, &vec![set(&[]), set(&[])], 0);
    assert_eq!(inner, set(&[10, 11]));
    let sets = propagate(&g, &exposures, &comp_of, &order);
    assert_eq!(sets, vec![set(&[10, 11]), set(&[10, 11, 12])]);
    let collected = collect_first_sets(&g, &vec![1, 2, 3], &comp_of, &sets);
    assert_eq!(
        collected,
        table(&[(1, &[10, 11, 12]), (2, &[10, 11]), (3, &[10, 11])])
    );
    assert_eq!(first(&g), Ok(collected));
}
