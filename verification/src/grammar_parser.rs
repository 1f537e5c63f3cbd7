//! Building a grammar from the plain description that a loader hands over.

use crate::grammar::{
    all_known, first_unknown_at, FreeProduction, Grammar, GrammarError, GrammarProduction,
    Production, Token, TokenType,
};
use vstd::prelude::*;
use vstd::std_specs::hash::*;

verus! {

broadcast use group_hash_axioms;

/// A general production as a description gives it: left and right hand side.
#[derive(Debug)]
pub struct ProductionToml {
    pub lhs: Vec<usize>,
    pub rhs: Vec<usize>,
}

/// A context-free production as a description gives it.
#[derive(Debug)]
pub struct FreeProductionToml {
    pub lhs: usize,
    pub rhs: Vec<usize>,
}

/// A production shape that can be made from its description `D` and an id.
pub trait FromToml<D>: Sized {
    /// `p` is the production with id `id` that `toml` describes.
    spec fn describes(id: usize, toml: D, p: Self) -> bool;

    fn from_toml(id: usize, toml: D) -> (p: Self)
        ensures
            Self::describes(id, toml, p),
    ;
}

impl FromToml<ProductionToml> for Production {
    open spec fn describes(id: usize, toml: ProductionToml, p: Self) -> bool {
        p == (Production { id, driver: toml.lhs, body: toml.rhs })
    }

    fn from_toml(id: usize, toml: ProductionToml) -> (p: Self) {
        Production { id, driver: toml.lhs, body: toml.rhs }
    }
}

impl FromToml<FreeProductionToml> for FreeProduction {
    open spec fn describes(id: usize, toml: FreeProductionToml, p: Self) -> bool {
        &&& p.id == id
        &&& p.driver == toml.lhs
        &&& p.body == toml.rhs
        &&& p.wf()
    }

    fn from_toml(id: usize, toml: FreeProductionToml) -> (p: Self) {
        FreeProduction::new(id, toml.lhs, toml.rhs)
    }
}

/// The vocabulary that holds each symbol of `symbols` under its id.
pub open spec fn vocabulary(symbols: Seq<Token>) -> Map<usize, Token>
    decreases symbols.len(),
{
    if symbols.len() == 0 {
        Map::empty()
    } else {
        vocabulary(symbols.drop_last()).insert(symbols.last().id, symbols.last())
    }
}

/// The id of `symbols[i]` is already taken by a symbol before it.
pub open spec fn duplicate_at(symbols: Seq<Token>, i: int) -> bool {
    0 <= i < symbols.len() && vocabulary(symbols.take(i)).contains_key(symbols[i].id)
}

/// The productions by id; of two with one id the later one stays.
pub open spec fn stored<T: GrammarProduction>(productions: Seq<T>) -> Map<usize, T>
    decreases productions.len(),
{
    if productions.len() == 0 {
        Map::empty()
    } else {
        stored(productions.drop_last()).insert(productions.last().ident(), productions.last())
    }
}

/// The ids that a production refers to: those of its driver, then of its body.
pub open spec fn references<T: GrammarProduction>(p: T) -> Seq<usize> {
    p.driver_ids() + p.body_ids()
}

/// Production `k` refers to an id that the vocabulary lacks.
pub open spec fn unresolved_at<T: GrammarProduction>(
    tokens: Map<usize, Token>,
    productions: Seq<T>,
    k: int,
) -> bool {
    0 <= k < productions.len() && !all_known(tokens, references(productions[k]))
}

/// What `construct_grammar` owes: the first duplicate symbol id is reported,
/// else the first unknown id of the first production that has one, else an
/// unknown start symbol; without any of these, the grammar.
pub open spec fn construction_result<T: GrammarProduction>(
    symbols: Seq<Token>,
    productions: Seq<T>,
    start_symbol: usize,
    r: Result<Grammar<T>, GrammarError>,
) -> bool {
    let tokens = vocabulary(symbols);
    if exists|i: int| duplicate_at(symbols, i) {
        exists|i: int| #[trigger]
            duplicate_at(symbols, i) && (forall|j: int| 0 <= j < i ==> !duplicate_at(symbols, j))
                && r == Err::<Grammar<T>, GrammarError>(GrammarError::DuplicateId(symbols[i].id))
    } else if exists|k: int| unresolved_at(tokens, productions, k) {
        exists|k: int, i: int|
            #![trigger unresolved_at(tokens, productions, k), first_unknown_at(tokens, references(productions[k]), i)]
            unresolved_at(tokens, productions, k) && (forall|j: int|
                0 <= j < k ==> !unresolved_at(tokens, productions, j)) && first_unknown_at(
                tokens,
                references(productions[k]),
                i,
            ) && r == Err::<Grammar<T>, GrammarError>(
                GrammarError::UnknownSymbol(references(productions[k])[i]),
            )
    } else if !tokens.contains_key(start_symbol) {
        r == Err::<Grammar<T>, GrammarError>(GrammarError::UnknownSymbol(start_symbol))
    } else {
        r matches Ok(g) && g.tokens@ == tokens && g.productions@ == stored(productions)
            && g.start_symbol == Some(start_symbol)
    }
}

/// Builds a grammar: the symbols in order, then the productions in order,
/// each checked against the vocabulary, then the start symbol.
pub fn construct_grammar<T: GrammarProduction>(
    symbols: Vec<Token>,
    productions: Vec<T>,
    start_symbol: usize,
) -> (r: Result<Grammar<T>, GrammarError>)
    ensures
        construction_result(symbols@, productions@, start_symbol, r),
        r matches Ok(g) ==> g.wf(),
{
    let ghost all = symbols@;
    let ghost prods = productions@;
    let mut g: Grammar<T> = Grammar::new();
    for token in it: symbols.into_iter()
        invariant
            it.seq() == all,
            g.tokens@ == vocabulary(all.take(it.index())),
            forall|j: int| 0 <= j < it.index() ==> !duplicate_at(all, j),
            g.productions@ == Map::<usize, T>::empty(),
            g.start_symbol is None,
            g.wf(),
    {
        let ghost i = it.index();
        assert(all.take(i + 1).drop_last() =~= all.take(i));
        assert(token == all[i]);
        let added = match token.token_type {
            TokenType::Terminal => g.add_terminal(token),
            TokenType::NonTerminal => g.add_non_terminal(token),
        };
        match added {
            Ok(()) => {},
            Err(e) => {
                assert(duplicate_at(all, i));
                return Err(e);
            },
        }
    }
    assert(all.take(all.len() as int) =~= all);
    let ghost tokens = g.tokens@;
    for production in it: productions.into_iter()
        invariant
            it.seq() == prods,
            all == symbols@,
            g.tokens@ == tokens,
            tokens == vocabulary(all),
            forall|j: int| 0 <= j < all.len() ==> !duplicate_at(all, j),
            forall|j: int| 0 <= j < it.index() ==> !unresolved_at(tokens, prods, j),
            g.productions@ == stored(prods.take(it.index())),
            g.start_symbol is None,
            g.wf(),
    {
        let ghost k = it.index();
        assert(prods.take(k + 1).drop_last() =~= prods.take(k));
        assert(production == prods[k]);
        match g.add_production_strict(production) {
            Ok(()) => {},
            Err(e) => {
                proof {
                    let refs = references(prods[k]);
                    assert(!all_known(tokens, refs));
                    let i = choose|i: int|
                        first_unknown_at(tokens, refs, i) && e == GrammarError::UnknownSymbol(
                            refs[i],
                        );
                    assert(unresolved_at(tokens, prods, k) && first_unknown_at(
                        tokens,
                        references(prods[k]),
                        i,
                    ));
                    assert(!exists|j: int| duplicate_at(all, j));
                }
                return Err(e);
            },
        }
    }
    assert(prods.take(prods.len() as int) =~= prods);
    match g.set_start_symbol(start_symbol) {
        Ok(()) => Ok(g),
        Err(e) => Err(e),
    }
}

} // verus!
