//! The nullable symbols of a context-free grammar, as a least fixed point.

use crate::collections::key_list;
use crate::grammar::{all_known, FreeProduction, Grammar, GrammarError, Token, TokenType};
use std::collections::HashSet;
use vstd::prelude::*;
use vstd::std_specs::hash::*;

verus! {

broadcast use group_hash_axioms;

/// The driver of `p` is a known non-terminal and every id of its body is known.
pub open spec fn production_ok(tokens: Map<usize, Token>, p: FreeProduction) -> bool {
    &&& tokens.contains_key(p.driver)
    &&& tokens[p.driver].token_type == TokenType::NonTerminal
    &&& all_known(tokens, p.body@)
}

/// What the analyses ask of a grammar: no reference dangles, and every
/// production is driven by a non-terminal.
pub open spec fn well_formed(g: Grammar<FreeProduction>) -> bool {
    &&& g.start_symbol matches Some(s) ==> g.tokens@.contains_key(s)
    &&& forall|pid: usize| #[trigger]
        g.productions@.contains_key(pid) ==> production_ok(g.tokens@, g.productions@[pid])
}

/// Every symbol of `body` is in `s`.
pub open spec fn body_within(body: Seq<usize>, s: Set<usize>) -> bool {
    forall|i: int| 0 <= i < body.len() ==> s.contains(#[trigger] body[i])
}

/// Some production of `a` has a body made of symbols of `s` only.
pub open spec fn derives_empty_by(g: Grammar<FreeProduction>, s: Set<usize>, a: usize) -> bool {
    exists|pid: usize| #[trigger]
        g.productions@.contains_key(pid) && g.productions@[pid].driver == a && body_within(
            g.productions@[pid].body@,
            s,
        )
}

/// The symbols shown to derive the empty sequence by derivations of depth at
/// most `n`.
pub open spec fn nullable_within(g: Grammar<FreeProduction>, n: nat) -> Set<usize>
    decreases n,
{
    if n == 0 {
        Set::empty()
    } else {
        Set::new(|a: usize| derives_empty_by(g, nullable_within(g, (n - 1) as nat), a))
    }
}

/// The symbols that derive the empty sequence.
pub open spec fn nullable_set(g: Grammar<FreeProduction>) -> Set<usize> {
    Set::new(|a: usize| exists|n: nat| (#[trigger] nullable_within(g, n)).contains(a))
}

/// `s` holds the driver of every production whose body lies within `s`.
pub open spec fn closed_under_productions(g: Grammar<FreeProduction>, s: Set<usize>) -> bool {
    forall|pid: usize| #[trigger]
        g.productions@.contains_key(pid) && body_within(g.productions@[pid].body@, s)
            ==> s.contains(g.productions@[pid].driver)
}

/// How many productions are still in the working copy.
pub open spec fn pending_count(pending: Seq<bool>) -> nat
    decreases pending.len(),
{
    if pending.len() == 0 {
        0
    } else {
        pending_count(pending.drop_last()) + if pending.last() {
            1nat
        } else {
            0nat
        }
    }
}

proof fn lemma_resolve_one(pending: Seq<bool>, j: int)
    requires
        0 <= j < pending.len(),
        pending[j],
    ensures
        pending_count(pending.update(j, false)) + 1 == pending_count(pending),
    decreases pending.len(),
{
    if j == pending.len() - 1 {
        assert(pending.update(j, false).drop_last() =~= pending.drop_last());
    } else {
        lemma_resolve_one(pending.drop_last(), j);
        assert(pending.update(j, false).drop_last() =~= pending.drop_last().update(j, false));
    }
}

proof fn lemma_within_grows(g: Grammar<FreeProduction>, n: nat)
    ensures
        nullable_within(g, n).subset_of(nullable_within(g, n + 1)),
    decreases n,
{
    if n > 0 {
        lemma_within_grows(g, (n - 1) as nat);
        assert forall|a: usize| nullable_within(g, n).contains(a) implies nullable_within(
            g,
            n + 1,
        ).contains(a) by {
            let pid = choose|pid: usize| #[trigger]
                g.productions@.contains_key(pid) && g.productions@[pid].driver == a && body_within(
                    g.productions@[pid].body@,
                    nullable_within(g, (n - 1) as nat),
                );
            assert(body_within(g.productions@[pid].body@, nullable_within(g, n)));
        }
    }
}

proof fn lemma_within_monotone(g: Grammar<FreeProduction>, n: nat, m: nat)
    requires
        n <= m,
    ensures
        nullable_within(g, n).subset_of(nullable_within(g, m)),
    decreases m - n,
{
    if n < m {
        lemma_within_monotone(g, n, (m - 1) as nat);
        lemma_within_grows(g, (m - 1) as nat);
    }
}

/// A depth that suffices for the first `k` symbols of a nullable body.
proof fn lemma_common_depth(g: Grammar<FreeProduction>, body: Seq<usize>, k: nat) -> (n: nat)
    requires
        k <= body.len(),
        body_within(body, nullable_set(g)),
    ensures
        forall|i: int| 0 <= i < k ==> nullable_within(g, n).contains(#[trigger] body[i]),
    decreases k,
{
    if k == 0 {
        0
    } else {
        let n0 = lemma_common_depth(g, body, (k - 1) as nat);
        assert(nullable_set(g).contains(body[k - 1]));
        let n1 = choose|n1: nat| (#[trigger] nullable_within(g, n1)).contains(body[k - 1]);
        let n = if n0 <= n1 {
            n1
        } else {
            n0
        };
        lemma_within_monotone(g, n0, n);
        lemma_within_monotone(g, n1, n);
        n
    }
}

/// A symbol is nullable exactly when one of its productions has a body made
/// of nullable symbols only; an empty body is such a body.
pub proof fn lemma_nullable_fixed_point(g: Grammar<FreeProduction>, a: usize)
    ensures
        nullable_set(g).contains(a) <==> derives_empty_by(g, nullable_set(g), a),
{
    if nullable_set(g).contains(a) {
        let n = choose|n: nat| (#[trigger] nullable_within(g, n)).contains(a);
        assert(n > 0);
        let pid = choose|pid: usize| #[trigger]
            g.productions@.contains_key(pid) && g.productions@[pid].driver == a && body_within(
                g.productions@[pid].body@,
                nullable_within(g, (n - 1) as nat),
            );
        assert(body_within(g.productions@[pid].body@, nullable_set(g)));
    }
    if derives_empty_by(g, nullable_set(g), a) {
        let pid = choose|pid: usize| #[trigger]
            g.productions@.contains_key(pid) && g.productions@[pid].driver == a && body_within(
                g.productions@[pid].body@,
                nullable_set(g),
            );
        let body = g.productions@[pid].body@;
        let n = lemma_common_depth(g, body, body.len());
        assert(body_within(body, nullable_within(g, n)));
        assert(derives_empty_by(g, nullable_within(g, n), a));
        assert(nullable_within(g, n + 1).contains(a));
    }
}

/// The nullable set is the least set closed under the productions.
pub proof fn lemma_nullable_least(g: Grammar<FreeProduction>, s: Set<usize>, n: nat)
    requires
        closed_under_productions(g, s),
    ensures
        nullable_within(g, n).subset_of(s),
    decreases n,
{
    if n > 0 {
        lemma_nullable_least(g, s, (n - 1) as nat);
        assert forall|a: usize| nullable_within(g, n).contains(a) implies s.contains(a) by {
            let pid = choose|pid: usize| #[trigger]
                g.productions@.contains_key(pid) && g.productions@[pid].driver == a && body_within(
                    g.productions@[pid].body@,
                    nullable_within(g, (n - 1) as nat),
                );
            assert(body_within(g.productions@[pid].body@, s));
        }
    }
}

/// Whether every symbol of `body` is in `set`.
pub fn body_in_set(body: &Vec<usize>, set: &HashSet<usize>) -> (within: bool)
    ensures
        within == body_within(body@, set@),
{
    let mut i: usize = 0;
    while i < body.len()
        invariant
            i <= body.len(),
            forall|j: int| 0 <= j < i ==> set@.contains(#[trigger] body@[j]),
        decreases body.len() - i,
    {
        if !set.contains(&body[i]) {
            return false;
        }
        i += 1;
    }
    true
}

/// Whether the grammar meets what the analyses ask of it.
pub fn is_well_formed(g: &Grammar<FreeProduction>) -> (ok: bool)
    ensures
        ok == well_formed(*g),
{
    match g.start_symbol {
        Some(s) => {
            if !g.tokens.contains_key(&s) {
                return false;
            }
        },
        None => {},
    }
    let ids = key_list(&g.productions);
    let mut i: usize = 0;
    while i < ids.len()
        invariant
            i <= ids.len(),
            ids@.to_set() == g.productions@.dom(),
            forall|j: int|
                0 <= j < i ==> production_ok(g.tokens@, g.productions@[#[trigger] ids@[j]]),
        decreases ids.len() - i,
    {
        assert(ids@.contains(ids@[i as int]));
        assert(ids@.to_set().contains(ids@[i as int]));
        assert(g.productions@.contains_key(ids@[i as int]));
        match g.productions.get(&ids[i]) {
            Some(p) => {
                match g.tokens.get(&p.driver) {
                    Some(token) => {
                        match token.token_type {
                            TokenType::NonTerminal => {},
                            TokenType::Terminal => {
                                return false;
                            },
                        }
                    },
                    None => {
                        return false;
                    },
                }
                if g.find_unknown(&p.body).is_some() {
                    return false;
                }
            },
            None => {},
        }
        i += 1;
    }
    proof {
        assert forall|pid: usize| #[trigger] g.productions@.contains_key(pid) implies production_ok(
            g.tokens@,
            g.productions@[pid],
        ) by {
            assert(ids@.to_set().contains(pid));
            let j = choose|j: int| 0 <= j < ids@.len() && ids@[j] == pid;
            assert(production_ok(g.tokens@, g.productions@[ids@[j]]));
        }
    }
    true
}

/// The nullable symbols of any grammar, by repeated passes over the
/// productions not yet resolved, until a pass resolves none.
pub fn nullable_closure(g: &Grammar<FreeProduction>) -> (set: HashSet<usize>)
    ensures
        set@ == nullable_set(*g),
{
    let ids = key_list(&g.productions);
    let n = ids.len();
    let mut pending: Vec<bool> = Vec::new();
    let mut k: usize = 0;
    while k < n
        invariant
            k <= n,
            pending@.len() == k,
            forall|j: int| 0 <= j < k ==> pending@[j],
        decreases n - k,
    {
        pending.push(true);
        k += 1;
    }
    let mut set: HashSet<usize> = HashSet::new();
    let mut changed = true;
    while changed
        invariant
            n == ids@.len(),
            pending@.len() == n,
            ids@.to_set() == g.productions@.dom(),
            set@.subset_of(nullable_set(*g)),
            forall|j: int|
                0 <= j < n && !pending@[j] ==> set@.contains(
                    g.productions@[#[trigger] ids@[j]].driver,
                ),
            !changed ==> forall|j: int|
                0 <= j < n && pending@[j] ==> !body_within(
                    g.productions@[#[trigger] ids@[j]].body@,
                    set@,
                ),
        decreases
                pending_count(pending@) + if changed {
                    1nat
                } else {
                    0nat
                },
    {
        changed = false;
        let ghost start_count = pending_count(pending@);
        let mut i: usize = 0;
        while i < n
            invariant
                i <= n,
                n == ids@.len(),
                pending@.len() == n,
                ids@.to_set() == g.productions@.dom(),
                set@.subset_of(nullable_set(*g)),
                forall|j: int|
                    0 <= j < n && !pending@[j] ==> set@.contains(
                        g.productions@[#[trigger] ids@[j]].driver,
                    ),
                !changed ==> forall|j: int|
                    0 <= j < i && pending@[j] ==> !body_within(
                        g.productions@[#[trigger] ids@[j]].body@,
                        set@,
                    ),
                pending_count(pending@) <= start_count,
                changed ==> pending_count(pending@) < start_count,
            decreases n - i,
        {
            if pending[i] {
                assert(ids@.contains(ids@[i as int]));
                assert(ids@.to_set().contains(ids@[i as int]));
                assert(g.productions@.contains_key(ids@[i as int]));
                match g.productions.get(&ids[i]) {
                    Some(p) => {
                        if body_in_set(&p.body, &set) {
                            proof {
                                assert(body_within(p.body@, nullable_set(*g)));
                                assert(derives_empty_by(*g, nullable_set(*g), p.driver));
                                lemma_nullable_fixed_point(*g, p.driver);
                                lemma_resolve_one(pending@, i as int);
                            }
                            set.insert(p.driver);
                            pending.set(i, false);
                            changed = true;
                        }
                    },
                    None => {},
                }
            }
            i += 1;
        }
    }
    proof {
        assert forall|pid: usize| #[trigger]
            g.productions@.contains_key(pid) && body_within(
                g.productions@[pid].body@,
                set@,
            ) implies set@.contains(g.productions@[pid].driver) by {
            assert(ids@.to_set().contains(pid));
            let j = choose|j: int| 0 <= j < ids@.len() && ids@[j] == pid;
            assert(g.productions@[ids@[j]] == g.productions@[pid]);
        }
        assert forall|a: usize| nullable_set(*g).contains(a) implies set@.contains(a) by {
            let m = choose|m: nat| (#[trigger] nullable_within(*g, m)).contains(a);
            lemma_nullable_least(*g, set@, m);
        }
        assert(set@ =~= nullable_set(*g));
    }
    set
}

/// What `nullabes` owes on the grammar `g`: the nullable set where `g` is
/// well formed, and the report of a violated precondition where it is not.
pub open spec fn nullabes_result(
    g: Grammar<FreeProduction>,
    r: Result<HashSet<usize>, GrammarError>,
) -> bool {
    if well_formed(g) {
        r matches Ok(set) && set@ == nullable_set(g)
    } else {
        r matches Err(e) && e == GrammarError::PreconditionViolated
    }
}

/// The set of symbols that can derive the empty sequence.
pub fn nullabes(g: &Grammar<FreeProduction>) -> (r: Result<HashSet<usize>, GrammarError>)
    ensures
        nullabes_result(*g, r),
{
    if !is_well_formed(g) {
        return Err(GrammarError::PreconditionViolated);
    }
    Ok(nullable_closure(g))
}

/// Two runs on one grammar agree: both fail, or both give the same set.
pub proof fn lemma_nullabes_deterministic(
    g: Grammar<FreeProduction>,
    r1: Result<HashSet<usize>, GrammarError>,
    r2: Result<HashSet<usize>, GrammarError>,
)
    requires
        nullabes_result(g, r1),
        nullabes_result(g, r2),
    ensures
        r1 is Ok <==> r2 is Ok,
        r1 matches Ok(s1) ==> r2 matches Ok(s2) && s1@ == s2@,
        r1 matches Err(e1) ==> r2 matches Err(e2) && e1 == e2,
{
}

} // verus!
