//! The grammar model: symbols, the two shapes of production, and the grammar
//! that holds them.

use crate::text::{decimal, decimal_text};
use std::collections::HashMap;
use vstd::prelude::*;
use vstd::std_specs::hash::*;
use vstd::string::StringExecFns;

verus! {

broadcast use group_hash_axioms;

/// Why an operation on a grammar was refused.
#[derive(Debug, Clone, Copy, PartialEq, Eq, Structural)]
pub enum GrammarError {
    /// The vocabulary already holds a symbol with this id.
    DuplicateId(usize),
    /// This id is referenced but absent from the vocabulary.
    UnknownSymbol(usize),
    /// The grammar handed to an analysis holds a dangling reference or a
    /// driver that is no non-terminal.
    PreconditionViolated,
}

/// The kind of a symbol.
#[derive(Debug, Clone, Copy, PartialEq, Eq, Structural)]
pub enum TokenType {
    Terminal,
    NonTerminal,
}

/// A symbol of the vocabulary: its id, its display text and its kind.
#[derive(Debug, Clone)]
pub struct Token {
    pub id: usize,
    pub content: String,
    pub token_type: TokenType,
}

impl Token {
    /// A symbol named `content`; it is classified as a non-terminal.
    pub fn new(id: usize, content: &str) -> (token: Self)
        requires
            content@.len() > 0,
        ensures
            token.id == id,
            token.content@ == content@,
            token.token_type == TokenType::NonTerminal,
    {
        Token { id, content: String::from_str(content), token_type: TokenType::NonTerminal }
    }

    pub fn new_terminal(id: usize, content: &str) -> (token: Self)
        ensures
            token.id == id,
            token.content@ == content@,
            token.token_type == TokenType::Terminal,
    {
        Token { id, content: String::from_str(content), token_type: TokenType::Terminal }
    }

    pub fn new_non_terminal(id: usize, content: &str) -> (token: Self)
        ensures
            token.id == id,
            token.content@ == content@,
            token.token_type == TokenType::NonTerminal,
    {
        Token { id, content: String::from_str(content), token_type: TokenType::NonTerminal }
    }
}

/// What every shape of production offers: its id, and its driver and body as
/// ordered sequences of symbol ids.
pub trait GrammarProduction: Sized {
    /// The driver, as a sequence of symbol ids.
    spec fn driver_ids(&self) -> Seq<usize>;

    /// The body, as a sequence of symbol ids; empty for epsilon.
    spec fn body_ids(&self) -> Seq<usize>;

    /// The id of the production.
    spec fn ident(&self) -> usize;

    fn normalized_driver(&self) -> (ids: &Vec<usize>)
        ensures
            ids@ == self.driver_ids(),
    ;

    fn normalized_body(&self) -> (ids: &Vec<usize>)
        ensures
            ids@ == self.body_ids(),
    ;

    fn id(&self) -> (id: usize)
        ensures
            id == self.ident(),
    ;
}

/// A production whose driver is itself a sequence of symbols.
#[derive(Debug, Clone)]
pub struct Production {
    pub id: usize,
    pub driver: Vec<usize>,
    pub body: Vec<usize>,
}

impl Production {
    pub fn new(id: usize, driver: Vec<usize>, body: Vec<usize>) -> (p: Self)
        ensures
            p.id == id,
            p.driver == driver,
            p.body == body,
    {
        Production { id, driver, body }
    }
}

impl GrammarProduction for Production {
    open spec fn driver_ids(&self) -> Seq<usize> {
        self.driver@
    }

    open spec fn body_ids(&self) -> Seq<usize> {
        self.body@
    }

    open spec fn ident(&self) -> usize {
        self.id
    }

    fn normalized_driver(&self) -> (ids: &Vec<usize>) {
        &self.driver
    }

    fn normalized_body(&self) -> (ids: &Vec<usize>) {
        &self.body
    }

    fn id(&self) -> (id: usize) {
        self.id
    }
}

/// A context-free production: the driver is a single symbol.
#[derive(Debug, Clone)]
pub struct FreeProduction {
    pub id: usize,
    pub driver: usize,
    pub body: Vec<usize>,
    /// The driver as a one-element sequence.
    pub normalized_driver: Vec<usize>,
}

impl FreeProduction {
    /// The normalized driver is the driver, as a sequence of one symbol.
    pub open spec fn wf(&self) -> bool {
        self.normalized_driver@ == seq![self.driver]
    }

    pub fn new(id: usize, driver: usize, body: Vec<usize>) -> (p: Self)
        ensures
            p.wf(),
            p.id == id,
            p.driver == driver,
            p.body == body,
    {
        let mut normalized_driver: Vec<usize> = Vec::new();
        normalized_driver.push(driver);
        assert(normalized_driver@ =~= seq![driver]);
        FreeProduction { id, driver, body, normalized_driver }
    }
}

impl GrammarProduction for FreeProduction {
    open spec fn driver_ids(&self) -> Seq<usize> {
        self.normalized_driver@
    }

    open spec fn body_ids(&self) -> Seq<usize> {
        self.body@
    }

    open spec fn ident(&self) -> usize {
        self.id
    }

    fn normalized_driver(&self) -> (ids: &Vec<usize>) {
        &self.normalized_driver
    }

    fn normalized_body(&self) -> (ids: &Vec<usize>) {
        &self.body
    }

    fn id(&self) -> (id: usize) {
        self.id
    }
}

/// The text shown in place of an empty body.
pub open spec fn epsilon_marker() -> Seq<char> {
    seq!['\u{3b5}']
}

/// Every id of `ids` is in the vocabulary.
pub open spec fn all_known(tokens: Map<usize, Token>, ids: Seq<usize>) -> bool {
    forall|i: int| 0 <= i < ids.len() ==> tokens.contains_key(#[trigger] ids[i])
}

/// `ids[i]` is the first id of `ids` that the vocabulary lacks.
pub open spec fn first_unknown_at(tokens: Map<usize, Token>, ids: Seq<usize>, i: int) -> bool {
    &&& 0 <= i < ids.len()
    &&& !tokens.contains_key(ids[i])
    &&& all_known(tokens, ids.take(i))
}

/// `k` is among the first `i` ids of `ids`.
pub open spec fn occurs_before(ids: Seq<usize>, i: int, k: usize) -> bool {
    exists|j: int| 0 <= j < i && #[trigger] ids[j] == k
}

/// One more id is taken into account: it occurs, or what occurred still does.
pub proof fn lemma_occurs_step(ids: Seq<usize>, i: int)
    requires
        0 <= i < ids.len(),
    ensures
        forall|k: usize|
            occurs_before(ids, i + 1, k) <==> occurs_before(ids, i, k) || k == ids[i],
{
    assert forall|k: usize| occurs_before(ids, i + 1, k) <==> occurs_before(ids, i, k) || k
        == ids[i] by {
        if occurs_before(ids, i + 1, k) {
            let j = choose|j: int| 0 <= j < i + 1 && #[trigger] ids[j] == k;
            if j < i {
                assert(occurs_before(ids, i, k));
            }
        }
        if occurs_before(ids, i, k) {
            let j = choose|j: int| 0 <= j < i && #[trigger] ids[j] == k;
            assert(0 <= j < i + 1 && ids[j] == k);
        }
        if k == ids[i] {
            assert(0 <= i < i + 1 && ids[i] == k);
        }
    }
}

/// To occur before the end of a sequence is to be contained in it.
pub proof fn lemma_occurs_all(ids: Seq<usize>)
    ensures
        forall|k: usize| ids.contains(k) <==> occurs_before(ids, ids.len() as int, k),
{
    assert forall|k: usize| ids.contains(k) <==> occurs_before(ids, ids.len() as int, k) by {
        if ids.contains(k) {
            let j = choose|j: int| 0 <= j < ids.len() && ids[j] == k;
            assert(0 <= j < ids.len() && ids[j] == k);
        }
    }
}

/// The display texts of the symbols `ids`, in order, run together.
pub open spec fn rendered(tokens: Map<usize, Token>, ids: Seq<usize>) -> Seq<char>
    decreases ids.len(),
{
    if ids.len() == 0 {
        Seq::empty()
    } else {
        rendered(tokens, ids.drop_last()) + tokens[ids.last()].content@
    }
}

/// The text of a body: its symbols' texts, or the marker where it is empty.
pub open spec fn body_text(tokens: Map<usize, Token>, ids: Seq<usize>) -> Seq<char> {
    if ids.len() == 0 {
        epsilon_marker()
    } else {
        rendered(tokens, ids)
    }
}

/// The display text of the symbol that stands in for the unknown id `id`:
/// the letters `NT`, then the id in decimal.
pub open spec fn placeholder_text(id: usize) -> Seq<char> {
    seq!['N', 'T'] + decimal(id as nat)
}

fn placeholder_name(id: usize) -> (text: String)
    ensures
        text@ == placeholder_text(id),
{
    let mut text = String::from_str("NT");
    proof {
        reveal_strlit("NT");
        assert("NT"@ =~= seq!['N', 'T']);
    }
    let digits = decimal_text(id);
    text.append(digits.as_str());
    text
}

/// `token` is the stand-in of kind `kind` for the id `id`.
pub open spec fn is_placeholder(token: Token, id: usize, kind: TokenType) -> bool {
    &&& token.id == id
    &&& token.token_type == kind
    &&& token.content@ == placeholder_text(id)
}

/// `after` is `before` with a stand-in of kind `kind` for each unknown id
/// among the first `upto` ids of `ids`.
pub open spec fn extended_with(
    before: Map<usize, Token>,
    after: Map<usize, Token>,
    ids: Seq<usize>,
    upto: int,
    kind: TokenType,
) -> bool {
    &&& forall|k: usize| #[trigger]
        after.contains_key(k) <==> before.contains_key(k) || occurs_before(ids, upto, k)
    &&& forall|k: usize| #[trigger]
        after.contains_key(k) ==> if before.contains_key(k) {
            after[k] == before[k]
        } else {
            is_placeholder(after[k], k, kind)
        }
}

/// `after` is `before` with a stand-in for each unknown id of `driver` (a
/// non-terminal) and for each further unknown id of `body` (a terminal).
pub open spec fn placeholders_added(
    before: Map<usize, Token>,
    after: Map<usize, Token>,
    driver: Seq<usize>,
    body: Seq<usize>,
) -> bool {
    &&& forall|k: usize| #[trigger]
        after.contains_key(k) <==> before.contains_key(k) || driver.contains(k) || body.contains(k)
    &&& forall|k: usize| #[trigger]
        after.contains_key(k) ==> if before.contains_key(k) {
            after[k] == before[k]
        } else if driver.contains(k) {
            is_placeholder(after[k], k, TokenType::NonTerminal)
        } else {
            is_placeholder(after[k], k, TokenType::Terminal)
        }
}

/// A vocabulary, an optional start symbol and productions of shape `T`.
#[derive(Debug, Clone)]
pub struct Grammar<T: GrammarProduction> {
    pub tokens: HashMap<usize, Token>,
    pub start_symbol: Option<usize>,
    pub productions: HashMap<usize, T>,
}

impl<T: GrammarProduction> Grammar<T> {
    /// The invariants of a grammar: every symbol and every production is
    /// stored under its own id, and every id that a production or the start
    /// symbol refers to is in the vocabulary.
    pub open spec fn wf(&self) -> bool {
        &&& forall|k: usize| #[trigger] self.tokens@.contains_key(k) ==> self.tokens@[k].id == k
        &&& forall|pid: usize| #[trigger]
            self.productions@.contains_key(pid) ==> self.productions@[pid].ident() == pid
                && all_known(self.tokens@, self.productions@[pid].driver_ids()) && all_known(
                self.tokens@,
                self.productions@[pid].body_ids(),
            )
        &&& self.start_symbol matches Some(s) ==> self.tokens@.contains_key(s)
    }

    pub fn new() -> (g: Self)
        ensures
            g.wf(),
            g.tokens@ == Map::<usize, Token>::empty(),
            g.start_symbol is None,
            g.productions@ == Map::<usize, T>::empty(),
    {
        Grammar { start_symbol: None, tokens: HashMap::new(), productions: HashMap::new() }
    }

    /// Marks `id` as the start symbol, if the vocabulary holds it.
    pub fn set_start_symbol(&mut self, id: usize) -> (r: Result<(), GrammarError>)
        ensures
            old(self).wf() ==> final(self).wf(),
            final(self).tokens == old(self).tokens,
            final(self).productions == old(self).productions,
            old(self).tokens@.contains_key(id) ==> r is Ok && final(self).start_symbol == Some(id),
            !old(self).tokens@.contains_key(id) ==> r == Err::<(), GrammarError>(
                GrammarError::UnknownSymbol(id),
            ) && final(self).start_symbol == old(self).start_symbol,
    {
        if self.tokens.contains_key(&id) {
            self.start_symbol = Some(id);
            Ok(())
        } else {
            Err(GrammarError::UnknownSymbol(id))
        }
    }

    /// Adds `token` to the vocabulary under its own id, unless that id is taken.
    pub fn add_terminal(&mut self, token: Token) -> (r: Result<(), GrammarError>)
        ensures
            old(self).wf() ==> final(self).wf(),
            final(self).start_symbol == old(self).start_symbol,
            final(self).productions == old(self).productions,
            !old(self).tokens@.contains_key(token.id) ==> r is Ok && final(self).tokens@ == old(
                self,
            ).tokens@.insert(token.id, token),
            old(self).tokens@.contains_key(token.id) ==> r == Err::<(), GrammarError>(
                GrammarError::DuplicateId(token.id),
            ) && final(self).tokens == old(self).tokens,
    {
        if self.tokens.contains_key(&token.id) {
            Err(GrammarError::DuplicateId(token.id))
        } else {
            self.tokens.insert(token.id, token);
            Ok(())
        }
    }

    /// Adds `token` to the vocabulary under its own id, unless that id is taken.
    pub fn add_non_terminal(&mut self, token: Token) -> (r: Result<(), GrammarError>)
        ensures
            old(self).wf() ==> final(self).wf(),
            final(self).start_symbol == old(self).start_symbol,
            final(self).productions == old(self).productions,
            !old(self).tokens@.contains_key(token.id) ==> r is Ok && final(self).tokens@ == old(
                self,
            ).tokens@.insert(token.id, token),
            old(self).tokens@.contains_key(token.id) ==> r == Err::<(), GrammarError>(
                GrammarError::DuplicateId(token.id),
            ) && final(self).tokens == old(self).tokens,
    {
        if self.tokens.contains_key(&token.id) {
            Err(GrammarError::DuplicateId(token.id))
        } else {
            self.tokens.insert(token.id, token);
            Ok(())
        }
    }

    pub fn get_token(&self, id: &usize) -> (r: Option<&Token>)
        ensures
            r is Some <==> self.tokens@.contains_key(*id),
            r matches Some(token) ==> *token == self.tokens@[*id],
    {
        self.tokens.get(id)
    }

    /// The texts of the symbols `ids` run together, if all of them are known.
    fn render_ids(&self, ids: &Vec<usize>) -> (r: Option<String>)
        ensures
            r is Some <==> all_known(self.tokens@, ids@),
            r matches Some(text) ==> text@ == rendered(self.tokens@, ids@),
    {
        let mut out = String::new();
        let mut i: usize = 0;
        while i < ids.len()
            invariant
                i <= ids.len(),
                all_known(self.tokens@, ids@.take(i as int)),
                out@ == rendered(self.tokens@, ids@.take(i as int)),
            decreases ids.len() - i,
        {
            match self.tokens.get(&ids[i]) {
                Some(token) => {
                    out.append(token.content.as_str());
                },
                None => {
                    return None;
                },
            }
            proof {
                assert(ids@.take(i + 1).drop_last() =~= ids@.take(i as int));
            }
            i += 1;
        }
        proof {
            assert(ids@.take(i as int) =~= ids@);
        }
        Some(out)
    }

    /// The text of the body of production `id`: the marker for an empty body,
    /// nothing if the production or one of its symbols is unknown.
    pub fn get_production_body(&self, id: &usize) -> (r: Option<String>)
        ensures
            r is Some <==> self.productions@.contains_key(*id) && all_known(
                self.tokens@,
                self.productions@[*id].body_ids(),
            ),
            r matches Some(text) ==> text@ == body_text(
                self.tokens@,
                self.productions@[*id].body_ids(),
            ),
    {
        match self.productions.get(id) {
            Some(prod) => {
                let body = prod.normalized_body();
                if body.len() == 0 {
                    proof {
                        reveal_strlit("\u{3b5}");
                        assert("\u{3b5}"@ =~= epsilon_marker());
                    }
                    Some(String::from_str("\u{3b5}"))
                } else {
                    self.render_ids(body)
                }
            },
            None => None,
        }
    }

    /// The text of the driver of production `id`; nothing if the production or
    /// one of its symbols is unknown.
    pub fn get_production_driver(&self, id: &usize) -> (r: Option<String>)
        ensures
            r is Some <==> self.productions@.contains_key(*id) && all_known(
                self.tokens@,
                self.productions@[*id].driver_ids(),
            ),
            r matches Some(text) ==> text@ == rendered(
                self.tokens@,
                self.productions@[*id].driver_ids(),
            ),
    {
        match self.productions.get(id) {
            Some(prod) => self.render_ids(prod.normalized_driver()),
            None => None,
        }
    }

    /// Gives every unknown id of `ids` a stand-in symbol of kind `kind`.
    fn add_placeholders(&mut self, ids: &Vec<usize>, kind: TokenType)
        ensures
            final(self).start_symbol == old(self).start_symbol,
            final(self).productions == old(self).productions,
            extended_with(
                old(self).tokens@,
                final(self).tokens@,
                ids@,
                ids@.len() as int,
                kind,
            ),
    {
        let mut i: usize = 0;
        while i < ids.len()
            invariant
                i <= ids.len(),
                self.start_symbol == old(self).start_symbol,
                self.productions == old(self).productions,
                extended_with(old(self).tokens@, self.tokens@, ids@, i as int, kind),
            decreases ids.len() - i,
        {
            let id = ids[i];
            proof {
                lemma_occurs_step(ids@, i as int);
            }
            if !self.tokens.contains_key(&id) {
                let token = Token { id, content: placeholder_name(id), token_type: kind };
                self.tokens.insert(id, token);
            }
            i += 1;
        }
    }

    /// Stores `production` under its id. Unknown ids of its driver become
    /// non-terminals, further unknown ids of its body become terminals.
    pub fn add_production(&mut self, production: T)
        ensures
            old(self).wf() ==> final(self).wf(),
            final(self).start_symbol == old(self).start_symbol,
            final(self).productions@ == old(self).productions@.insert(
                production.ident(),
                production,
            ),
            placeholders_added(
                old(self).tokens@,
                final(self).tokens@,
                production.driver_ids(),
                production.body_ids(),
            ),
    {
        self.add_placeholders(production.normalized_driver(), TokenType::NonTerminal);
        self.add_placeholders(production.normalized_body(), TokenType::Terminal);
        proof {
            lemma_occurs_all(production.driver_ids());
            lemma_occurs_all(production.body_ids());
        }
        self.productions.insert(production.id(), production);
    }

    /// The first id of `ids` that the vocabulary lacks.
    pub(crate) fn find_unknown(&self, ids: &Vec<usize>) -> (r: Option<usize>)
        ensures
            r is None <==> all_known(self.tokens@, ids@),
            r matches Some(id) ==> exists|i: int|
                first_unknown_at(self.tokens@, ids@, i) && ids@[i] == id,
    {
        let mut i: usize = 0;
        while i < ids.len()
            invariant
                i <= ids.len(),
                all_known(self.tokens@, ids@.take(i as int)),
            decreases ids.len() - i,
        {
            if !self.tokens.contains_key(&ids[i]) {
                assert(first_unknown_at(self.tokens@, ids@, i as int));
                return Some(ids[i]);
            }
            proof {
                assert forall|j: int| 0 <= j < ids@.take(i + 1).len() implies self.tokens@.contains_key(
                    #[trigger] ids@.take(i + 1)[j],
                ) by {
                    if j < i {
                        assert(ids@.take(i as int)[j] == ids@[j]);
                    }
                }
            }
            i += 1;
        }
        proof {
            assert(ids@.take(i as int) =~= ids@);
        }
        None
    }

    /// Stores `production` under its id, replacing what was there, provided
    /// the vocabulary holds every id of its driver and body. Otherwise
    /// nothing changes and the first unknown id, driver before body, is named.
    pub fn add_production_strict(&mut self, production: T) -> (r: Result<(), GrammarError>)
        ensures
            old(self).wf() ==> final(self).wf(),
            final(self).start_symbol == old(self).start_symbol,
            final(self).tokens == old(self).tokens,
            all_known(old(self).tokens@, production.driver_ids() + production.body_ids()) ==> r
                is Ok && final(self).productions@ == old(self).productions@.insert(
                production.ident(),
                production,
            ),
            !all_known(old(self).tokens@, production.driver_ids() + production.body_ids()) ==> {
                &&& final(self).productions == old(self).productions
                &&& exists|i: int|
                    first_unknown_at(
                        old(self).tokens@,
                        production.driver_ids() + production.body_ids(),
                        i,
                    ) && r == Err::<(), GrammarError>(
                        GrammarError::UnknownSymbol(
                            (production.driver_ids() + production.body_ids())[i],
                        ),
                    )
            },
    {
        let ghost driver = production.driver_ids();
        let ghost body = production.body_ids();
        let ghost both = driver + body;
        match self.find_unknown(production.normalized_driver()) {
            Some(id) => {
                proof {
                    let i = choose|i: int| first_unknown_at(self.tokens@, driver, i) && driver[i] == id;
                    assert(both.take(i) =~= driver.take(i));
                    assert(both[i] == id);
                    assert(first_unknown_at(self.tokens@, both, i));
                }
                return Err(GrammarError::UnknownSymbol(id));
            },
            None => {},
        }
        match self.find_unknown(production.normalized_body()) {
            Some(id) => {
                proof {
                    let i = choose|i: int| first_unknown_at(self.tokens@, body, i) && body[i] == id;
                    let n = driver.len() as int;
                    assert(both[n + i] == id);
                    assert forall|j: int| 0 <= j < both.take(n + i).len() implies self.tokens@.contains_key(
                        #[trigger] both.take(n + i)[j],
                    ) by {
                        if j < n {
                            assert(both.take(n + i)[j] == driver[j]);
                        } else {
                            assert(both.take(n + i)[j] == body.take(i)[j - n]);
                        }
                    }
                    assert(first_unknown_at(self.tokens@, both, n + i));
                }
                return Err(GrammarError::UnknownSymbol(id));
            },
            None => {},
        }
        proof {
            assert forall|j: int| 0 <= j < both.len() implies self.tokens@.contains_key(
                #[trigger] both[j],
            ) by {
                if j < driver.len() {
                    assert(both[j] == driver[j]);
                } else {
                    assert(both[j] == body[j - driver.len()]);
                }
            }
        }
        self.productions.insert(production.id(), production);
        Ok(())
    }
}

} // verus!
