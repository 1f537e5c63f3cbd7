//! FIRST sets: the terminals that can begin what a non-terminal derives.
//!
//! The sets are the least solution of
//! `FIRST(a) = direct(a) + FIRST(b) for every dependency a -> b`,
//! stated here over dependency paths and computed component by component.

use crate::collections::{copy_set, key_list, union_into};
use crate::grammar::{FreeProduction, Grammar, GrammarError, TokenType};
use crate::grammar::{lemma_occurs_all, lemma_occurs_step, occurs_before};
use crate::ll1::graph::{
    condensed_edges, condensed_members, condensed_nodes, condensed_toposort, connected, edge_walk,
    graph_add_edge, graph_add_node, graph_condensation, graph_edges, graph_empty, graph_nodes,
    in_component, is_condensation, is_topological_order,
};
use crate::ll1::nullable::{
    body_within, lemma_nullable_fixed_point, nullabes, nullable_set, production_ok, well_formed,
};
use petgraph::graph::Graph;
use petgraph::Directed;
use std::collections::HashMap;
use std::collections::HashSet;
use vstd::pervasive::unreached;
use vstd::prelude::*;
use vstd::std_specs::hash::*;

verus! {

broadcast use group_hash_axioms;

/// `x` is a terminal of the vocabulary.
pub open spec fn is_terminal(g: Grammar<FreeProduction>, x: usize) -> bool {
    g.tokens@.contains_key(x) && g.tokens@[x].token_type == TokenType::Terminal
}

/// `x` is a non-terminal of the vocabulary.
pub open spec fn is_non_terminal(g: Grammar<FreeProduction>, x: usize) -> bool {
    g.tokens@.contains_key(x) && g.tokens@[x].token_type == TokenType::NonTerminal
}

/// A symbol that a scan of a body passes over: a nullable non-terminal.
pub open spec fn transparent(g: Grammar<FreeProduction>, x: usize) -> bool {
    is_non_terminal(g, x) && nullable_set(g).contains(x)
}

/// Every symbol of `body` before position `i` is transparent.
pub open spec fn transparent_prefix(g: Grammar<FreeProduction>, body: Seq<usize>, i: int) -> bool {
    forall|j: int| 0 <= j < i ==> transparent(g, #[trigger] body[j])
}

/// Position `i` of the body of production `pid` can begin what the
/// production derives: every symbol before it is a nullable non-terminal.
/// These are the positions up to and including the first one that holds a
/// terminal or a non-terminal that is not nullable.
pub open spec fn exposed_at(g: Grammar<FreeProduction>, pid: usize, i: int) -> bool {
    &&& g.productions@.contains_key(pid)
    &&& 0 <= i < g.productions@[pid].body@.len()
    &&& transparent_prefix(g, g.productions@[pid].body@, i)
}

/// Some production of `a` exposes the symbol `x`.
pub open spec fn exposes(g: Grammar<FreeProduction>, a: usize, x: usize) -> bool {
    exists|pid: usize, i: int| #[trigger]
        exposed_at(g, pid, i) && g.productions@[pid].driver == a && g.productions@[pid].body@[i]
            == x
}

/// The terminals that the productions of `a` contribute by themselves.
pub open spec fn direct_first(g: Grammar<FreeProduction>, a: usize) -> Set<usize> {
    Set::new(|t: usize| is_terminal(g, t) && exposes(g, a, t))
}

/// `FIRST(a)` must include `FIRST(b)`: an edge of the dependency graph.
pub open spec fn depends_on(g: Grammar<FreeProduction>, a: usize, b: usize) -> bool {
    is_non_terminal(g, b) && exposes(g, a, b)
}

/// `p` is a path of the dependency graph.
pub open spec fn dependency_path(g: Grammar<FreeProduction>, p: Seq<usize>) -> bool {
    &&& p.len() >= 1
    &&& forall|k: int| 0 <= k < p.len() - 1 ==> depends_on(g, #[trigger] p[k], p[k + 1])
}

/// The dependency graph leads from `a` to `b` in zero or more steps.
pub open spec fn reaches(g: Grammar<FreeProduction>, a: usize, b: usize) -> bool {
    exists|p: Seq<usize>| #[trigger] dependency_path(g, p) && p.first() == a && p.last() == b
}

/// The FIRST set of `a`: what the symbols that `a` reaches contribute.
pub open spec fn first_set(g: Grammar<FreeProduction>, a: usize) -> Set<usize> {
    Set::new(|t: usize| exists|b: usize| #[trigger] reaches(g, a, b) && direct_first(g, b).contains(t))
}

/// In a well-formed grammar only non-terminals are nullable.
pub proof fn lemma_nullable_non_terminal(g: Grammar<FreeProduction>, a: usize)
    requires
        well_formed(g),
        nullable_set(g).contains(a),
    ensures
        is_non_terminal(g, a),
{
    lemma_nullable_fixed_point(g, a);
    let pid = choose|pid: usize| #[trigger]
        g.productions@.contains_key(pid) && g.productions@[pid].driver == a && body_within(
            g.productions@[pid].body@,
            nullable_set(g),
        );
    assert(production_ok(g.tokens@, g.productions@[pid]));
}

/// A FIRST set holds terminals only.
pub proof fn lemma_first_holds_terminals(g: Grammar<FreeProduction>, a: usize, t: usize)
    requires
        first_set(g, a).contains(t),
    ensures
        is_terminal(g, t),
{
    let b = choose|b: usize| #[trigger] reaches(g, a, b) && direct_first(g, b).contains(t);
    assert(direct_first(g, b).contains(t));
}

/// Every symbol reaches itself.
pub proof fn lemma_reaches_self(g: Grammar<FreeProduction>, a: usize)
    ensures
        reaches(g, a, a),
{
    let p = seq![a];
    assert(dependency_path(g, p) && p.first() == a && p.last() == a);
}

/// A dependency is a path of one step.
pub proof fn lemma_reaches_step(g: Grammar<FreeProduction>, a: usize, b: usize)
    requires
        depends_on(g, a, b),
    ensures
        reaches(g, a, b),
{
    let p = seq![a, b];
    assert(dependency_path(g, p) && p.first() == a && p.last() == b);
}

/// Paths compose.
pub proof fn lemma_reaches_chain(g: Grammar<FreeProduction>, a: usize, b: usize, c: usize)
    requires
        reaches(g, a, b),
        reaches(g, b, c),
    ensures
        reaches(g, a, c),
{
    let p = choose|p: Seq<usize>| #[trigger] dependency_path(g, p) && p.first() == a && p.last() == b;
    let q = choose|q: Seq<usize>| #[trigger] dependency_path(g, q) && q.first() == b && q.last() == c;
    let r = p.drop_last() + q;
    assert forall|k: int| 0 <= k < r.len() - 1 implies depends_on(g, #[trigger] r[k], r[k + 1]) by {
        if k < p.len() - 2 {
            assert(r[k] == p[k] && r[k + 1] == p[k + 1]);
        } else if k == p.len() - 2 {
            assert(r[k] == p[k] && r[k + 1] == q[0]);
            assert(depends_on(g, p[k], p[k + 1]));
        } else {
            let m = k - (p.len() - 1);
            assert(r[k] == q[m] && r[k + 1] == q[m + 1]);
        }
    }
    assert(dependency_path(g, r) && r.first() == a && r.last() == c);
}

/// The FIRST set of a symbol includes that of every symbol it reaches.
pub proof fn lemma_reaches_includes(g: Grammar<FreeProduction>, a: usize, b: usize)
    requires
        reaches(g, a, b),
    ensures
        first_set(g, b).subset_of(first_set(g, a)),
{
    assert forall|t: usize| first_set(g, b).contains(t) implies first_set(g, a).contains(t) by {
        let c = choose|c: usize| #[trigger] reaches(g, b, c) && direct_first(g, c).contains(t);
        lemma_reaches_chain(g, a, b, c);
    }
}

/// What a symbol contributes directly is in its FIRST set.
pub proof fn lemma_direct_included(g: Grammar<FreeProduction>, a: usize)
    ensures
        direct_first(g, a).subset_of(first_set(g, a)),
{
    lemma_reaches_self(g, a);
}

/// What each production contributes to the FIRST set of its driver: at an
/// exposed position, a terminal is a member, and a non-terminal hands over
/// its whole FIRST set.
pub proof fn lemma_first_sound(g: Grammar<FreeProduction>, pid: usize, i: int)
    requires
        exposed_at(g, pid, i),
    ensures
        is_terminal(g, g.productions@[pid].body@[i]) ==> first_set(
            g,
            g.productions@[pid].driver,
        ).contains(g.productions@[pid].body@[i]),
        is_non_terminal(g, g.productions@[pid].body@[i]) ==> first_set(
            g,
            g.productions@[pid].body@[i],
        ).subset_of(first_set(g, g.productions@[pid].driver)),
{
    let a = g.productions@[pid].driver;
    let x = g.productions@[pid].body@[i];
    assert(exposes(g, a, x));
    if is_terminal(g, x) {
        lemma_direct_included(g, a);
        assert(direct_first(g, a).contains(x));
    }
    if is_non_terminal(g, x) {
        lemma_reaches_step(g, a, x);
        lemma_reaches_includes(g, a, x);
    }
}

/// `i` is the first position of `body` that holds a terminal or a
/// non-terminal that is not nullable, or the length of `body` if every
/// symbol of it is a nullable non-terminal.
pub open spec fn commits_at(g: Grammar<FreeProduction>, body: Seq<usize>, i: int) -> bool {
    &&& 0 <= i <= body.len()
    &&& transparent_prefix(g, body, i)
    &&& i < body.len() ==> !transparent(g, body[i])
}

/// FIRST sets are sound for every production: up to and including the
/// position at which its body commits, a terminal is a member of the FIRST
/// set of the driver, and the FIRST set of a non-terminal is a part of it.
pub proof fn lemma_first_sound_up_to_commit(
    g: Grammar<FreeProduction>,
    pid: usize,
    commit: int,
    j: int,
)
    requires
        g.productions@.contains_key(pid),
        commits_at(g, g.productions@[pid].body@, commit),
        0 <= j <= commit,
        j < g.productions@[pid].body@.len(),
    ensures
        is_terminal(g, g.productions@[pid].body@[j]) ==> first_set(
            g,
            g.productions@[pid].driver,
        ).contains(g.productions@[pid].body@[j]),
        is_non_terminal(g, g.productions@[pid].body@[j]) ==> first_set(
            g,
            g.productions@[pid].body@[j],
        ).subset_of(first_set(g, g.productions@[pid].driver)),
{
    assert(exposed_at(g, pid, j));
    lemma_first_sound(g, pid, j);
}

/// Two symbols on a common cycle of the dependency graph have one FIRST set.
pub proof fn lemma_cycle_shares_first(g: Grammar<FreeProduction>, a: usize, b: usize)
    requires
        reaches(g, a, b),
        reaches(g, b, a),
    ensures
        first_set(g, a) == first_set(g, b),
{
    lemma_reaches_includes(g, a, b);
    lemma_reaches_includes(g, b, a);
    assert(first_set(g, a) =~= first_set(g, b));
}

/// The FIRST sets solve the equation they are named after: `FIRST(a)` is what
/// `a` contributes directly together with `FIRST(b)` for each dependency
/// `a -> b`.
pub proof fn lemma_first_equation(g: Grammar<FreeProduction>, a: usize, t: usize)
    ensures
        first_set(g, a).contains(t) <==> direct_first(g, a).contains(t) || exists|b: usize|
            #[trigger] depends_on(g, a, b) && first_set(g, b).contains(t),
{
    if first_set(g, a).contains(t) {
        let c = choose|c: usize| #[trigger] reaches(g, a, c) && direct_first(g, c).contains(t);
        let p = choose|p: Seq<usize>| #[trigger]
            dependency_path(g, p) && p.first() == a && p.last() == c;
        if p.len() > 1 {
            let q = p.skip(1);
            assert forall|k: int| 0 <= k < q.len() - 1 implies depends_on(
                g,
                #[trigger] q[k],
                q[k + 1],
            ) by {
                assert(q[k] == p[k + 1] && q[k + 1] == p[k + 2]);
            }
            assert(dependency_path(g, q) && q.first() == p[1] && q.last() == c);
            assert(reaches(g, p[1], c));
            assert(depends_on(g, p[0], p[1]));
            assert(first_set(g, p[1]).contains(t));
        }
    }
    if direct_first(g, a).contains(t) {
        lemma_direct_included(g, a);
    }
    if exists|b: usize| #[trigger] depends_on(g, a, b) && first_set(g, b).contains(t) {
        let b = choose|b: usize| #[trigger] depends_on(g, a, b) && first_set(g, b).contains(t);
        lemma_reaches_step(g, a, b);
        lemma_reaches_includes(g, a, b);
    }
}

/// The graph's nodes are the non-terminals of `g`, each once, and `node_of`
/// finds the node of each.
pub open spec fn nodes_match(
    g: Grammar<FreeProduction>,
    nodes: Seq<usize>,
    node_of: Map<usize, usize>,
) -> bool {
    &&& nodes.no_duplicates()
    &&& forall|a: usize| #[trigger] node_of.contains_key(a) <==> is_non_terminal(g, a)
    &&& forall|a: usize| #[trigger]
        node_of.contains_key(a) ==> node_of[a] < nodes.len() && nodes[node_of[a] as int] == a
    &&& forall|k: int| 0 <= k < nodes.len() ==> is_non_terminal(g, #[trigger] nodes[k])
}

/// One node per non-terminal of `g`: the graph, the node index of each
/// non-terminal, and the non-terminals by node index.
pub(crate) fn dependency_nodes(g: &Grammar<FreeProduction>) -> (r: (
    Graph<usize, (), Directed, usize>,
    HashMap<usize, usize>,
    Vec<usize>,
))
    ensures
        nodes_match(*g, graph_nodes(r.0), r.1@),
        graph_edges(r.0) == Seq::<(usize, usize)>::empty(),
        r.2@ == graph_nodes(r.0),
{
    let symbols = key_list(&g.tokens);
    let mut graph = graph_empty();
    let mut node_of: HashMap<usize, usize> = HashMap::new();
    let mut nodes: Vec<usize> = Vec::new();
    let mut i: usize = 0;
    while i < symbols.len()
        invariant
            i <= symbols.len(),
            symbols@.no_duplicates(),
            symbols@.to_set() == g.tokens@.dom(),
            nodes@ == graph_nodes(graph),
            graph_edges(graph) == Seq::<(usize, usize)>::empty(),
            nodes@.no_duplicates(),
            forall|a: usize| #[trigger]
                node_of@.contains_key(a) <==> is_non_terminal(*g, a) && occurs_before(
                    symbols@,
                    i as int,
                    a,
                ),
            forall|a: usize| #[trigger]
                node_of@.contains_key(a) ==> node_of@[a] < nodes@.len() && nodes@[node_of@[a] as int]
                    == a,
            forall|k: int| 0 <= k < nodes@.len() ==> node_of@.contains_key(#[trigger] nodes@[k]),
        decreases symbols.len() - i,
    {
        let sym = symbols[i];
        proof {
            lemma_occurs_step(symbols@, i as int);
            assert(symbols@.contains(sym));
            assert(symbols@.to_set().contains(sym));
            if occurs_before(symbols@, i as int, sym) {
                let j = choose|j: int| 0 <= j < i && #[trigger] symbols@[j] == sym;
                assert(symbols@[j] == symbols@[i as int]);
            }
            assert(!node_of@.contains_key(sym));
        }
        match g.tokens.get(&sym) {
            Some(token) => {
                match token.token_type {
                    TokenType::NonTerminal => {
                        let ghost before = nodes@;
                        let index = graph_add_node(&mut graph, sym);
                        nodes.push(sym);
                        node_of.insert(sym, index);
                        proof {
                            assert forall|p: int, q: int|
                                0 <= p < nodes@.len() && 0 <= q < nodes@.len() && p
                                    != q implies nodes@[p] != nodes@[q] by {
                                if p < before.len() {
                                    assert(nodes@[p] == before[p]);
                                }
                                if q < before.len() {
                                    assert(nodes@[q] == before[q]);
                                }
                            }
                        }
                    },
                    TokenType::Terminal => {},
                }
            },
            None => {},
        }
        i += 1;
    }
    proof {
        assert forall|a: usize| is_non_terminal(*g, a) implies #[trigger] node_of@.contains_key(
            a,
        ) by {
            assert(symbols@.to_set().contains(a));
            lemma_occurs_all(symbols@);
        }
    }
    (graph, node_of, nodes)
}

/// If position `i` of production `pid` is exposed, `exposures` holds its
/// driver and symbol.
pub open spec fn recorded(
    g: Grammar<FreeProduction>,
    exposures: Seq<(usize, usize)>,
    pid: usize,
    i: int,
) -> bool {
    exposed_at(g, pid, i) ==> exposures.contains(
        (g.productions@[pid].driver, g.productions@[pid].body@[i]),
    )
}

/// Every pair of `exposures` is a driver and a symbol that it exposes.
pub open spec fn exposures_sound(g: Grammar<FreeProduction>, exposures: Seq<(usize, usize)>) -> bool {
    forall|m: int|
        0 <= m < exposures.len() ==> exposes(g, (#[trigger] exposures[m]).0, exposures[m].1)
}

/// `exposures` holds exactly the pairs of a driver and a symbol that it exposes.
pub open spec fn exposures_match(g: Grammar<FreeProduction>, exposures: Seq<(usize, usize)>) -> bool {
    &&& exposures_sound(g, exposures)
    &&& forall|a: usize, x: usize| #[trigger] exposes(g, a, x) ==> exposures.contains((a, x))
}

/// Every edge joins the nodes of a dependency.
pub open spec fn edges_sound(
    g: Grammar<FreeProduction>,
    nodes: Seq<usize>,
    edges: Seq<(usize, usize)>,
) -> bool {
    forall|e: int|
        0 <= e < edges.len() ==> (#[trigger] edges[e]).0 < nodes.len() && edges[e].1 < nodes.len()
            && depends_on(g, nodes[edges[e].0 as int], nodes[edges[e].1 as int])
}

/// The edges are the dependencies of `g`, between the nodes of their symbols.
pub open spec fn edges_match(
    g: Grammar<FreeProduction>,
    nodes: Seq<usize>,
    node_of: Map<usize, usize>,
    edges: Seq<(usize, usize)>,
) -> bool {
    &&& edges_sound(g, nodes, edges)
    &&& forall|a: usize, b: usize| #[trigger]
        depends_on(g, a, b) ==> edges.contains((node_of[a], node_of[b]))
}

/// Each exposed non-terminal of `exposures` has its edge.
pub open spec fn edges_cover(
    g: Grammar<FreeProduction>,
    node_of: Map<usize, usize>,
    edges: Seq<(usize, usize)>,
    exposures: Seq<(usize, usize)>,
) -> bool {
    forall|m: int|
        0 <= m < exposures.len() && is_non_terminal(g, (#[trigger] exposures[m]).1)
            ==> edges.contains((node_of[exposures[m].0], node_of[exposures[m].1]))
}

proof fn lemma_push_contains<T>(s: Seq<T>, x: T)
    ensures
        s.push(x).contains(x),
        forall|y: T| s.contains(y) ==> s.push(x).contains(y),
{
    assert(s.push(x)[s.len() as int] == x);
    assert forall|y: T| s.contains(y) implies s.push(x).contains(y) by {
        let i = choose|i: int| 0 <= i < s.len() && s[i] == y;
        assert(s.push(x)[i] == y);
    }
}

/// Scans every body from the left, as far as its symbols are transparent:
/// lists each exposed symbol with its driver, and gives each exposed
/// non-terminal an edge from the driver's node.
pub(crate) fn scan_productions(
    g: &Grammar<FreeProduction>,
    nullable: &HashSet<usize>,
    graph: &mut Graph<usize, (), Directed, usize>,
    node_of: &HashMap<usize, usize>,
) -> (exposures: Vec<(usize, usize)>)
    requires
        well_formed(*g),
        nullable@ == nullable_set(*g),
        nodes_match(*g, graph_nodes(*old(graph)), node_of@),
        graph_edges(*old(graph)) == Seq::<(usize, usize)>::empty(),
    ensures
        graph_nodes(*final(graph)) == graph_nodes(*old(graph)),
        exposures_match(*g, exposures@),
        edges_match(*g, graph_nodes(*final(graph)), node_of@, graph_edges(*final(graph))),
{
    let ids = key_list(&g.productions);
    let ghost nodes = graph_nodes(*graph);
    let mut exposures: Vec<(usize, usize)> = Vec::new();
    let mut pi: usize = 0;
    while pi < ids.len()
        invariant
            pi <= ids.len(),
            well_formed(*g),
            nullable@ == nullable_set(*g),
            ids@.to_set() == g.productions@.dom(),
            graph_nodes(*graph) == nodes,
            nodes_match(*g, nodes, node_of@),
            exposures_sound(*g, exposures@),
            edges_sound(*g, nodes, graph_edges(*graph)),
            edges_cover(*g, node_of@, graph_edges(*graph), exposures@),
            forall|j: int, i: int|
                0 <= j < pi ==> #[trigger] recorded(*g, exposures@, ids@[j], i),
        decreases ids.len() - pi,
    {
        let pid = ids[pi];
        assert(ids@.contains(pid));
        assert(ids@.to_set().contains(pid));
        assert(g.productions@.contains_key(pid));
        let p = match g.productions.get(&pid) {
            Some(p) => p,
            None => unreached(),
        };
        let from = match node_of.get(&p.driver) {
            Some(u) => *u,
            None => unreached(),
        };
        let mut bi: usize = 0;
        let mut open = true;
        while open && bi < p.body.len()
            invariant
                bi <= p.body@.len(),
                well_formed(*g),
                nullable@ == nullable_set(*g),
                g.productions@.contains_key(pid),
                *p == g.productions@[pid],
                node_of@.contains_key(p.driver),
                from == node_of@[p.driver],
                graph_nodes(*graph) == nodes,
                nodes_match(*g, nodes, node_of@),
                exposures_sound(*g, exposures@),
                edges_sound(*g, nodes, graph_edges(*graph)),
                edges_cover(*g, node_of@, graph_edges(*graph), exposures@),
                forall|j: int, i: int|
                    0 <= j < pi ==> #[trigger] recorded(*g, exposures@, ids@[j], i),
                open ==> transparent_prefix(*g, p.body@, bi as int),
                !open ==> forall|i: int| bi <= i ==> !transparent_prefix(*g, p.body@, i),
                forall|i: int| 0 <= i < bi ==> #[trigger] recorded(*g, exposures@, pid, i),
            decreases p.body@.len() - bi + if open { 1nat } else { 0nat },
        {
            let x = p.body[bi];
            let ghost before = exposures@;
            let ghost edges_before = graph_edges(*graph);
            assert(exposed_at(*g, pid, bi as int));
            assert(exposes(*g, p.driver, x));
            assert(g.tokens@.contains_key(p.body@[bi as int]));
            exposures.push((p.driver, x));
            proof {
                lemma_push_contains(before, (p.driver, x));
            }
            let token = match g.tokens.get(&x) {
                Some(token) => token,
                None => unreached(),
            };
            match token.token_type {
                TokenType::Terminal => {
                    open = false;
                    proof {
                        assert(!transparent(*g, p.body@[bi as int]));
                    }
                },
                TokenType::NonTerminal => {
                    let to = match node_of.get(&x) {
                        Some(v) => *v,
                        None => unreached(),
                    };
                    graph_add_edge(graph, from, to);
                    proof {
                        lemma_push_contains(edges_before, (from, to));
                        assert(depends_on(*g, p.driver, x));
                    }
                    if !nullable.contains(&x) {
                        open = false;
                        proof {
                            assert(!transparent(*g, p.body@[bi as int]));
                        }
                    }
                },
            }
            proof {
                assert forall|m: int| 0 <= m < exposures@.len() implies exposes(
                    *g,
                    (#[trigger] exposures@[m]).0,
                    exposures@[m].1,
                ) by {
                    if m < before.len() {
                        assert(exposures@[m] == before[m]);
                    }
                }
                assert forall|m: int|
                    0 <= m < exposures@.len() && is_non_terminal(
                        *g,
                        (#[trigger] exposures@[m]).1,
                    ) implies graph_edges(*graph).contains(
                    (node_of@[exposures@[m].0], node_of@[exposures@[m].1]),
                ) by {
                    if m < before.len() {
                        assert(exposures@[m] == before[m]);
                    }
                }
                assert forall|e: int| 0 <= e < graph_edges(*graph).len() implies (
                #[trigger] graph_edges(*graph)[e]).0 < nodes.len() && graph_edges(*graph)[e].1
                    < nodes.len() && depends_on(
                    *g,
                    nodes[graph_edges(*graph)[e].0 as int],
                    nodes[graph_edges(*graph)[e].1 as int],
                ) by {
                    if e < edges_before.len() {
                        assert(graph_edges(*graph)[e] == edges_before[e]);
                    }
                }
                assert forall|j: int, i: int| 0 <= j < pi implies #[trigger] recorded(
                    *g,
                    exposures@,
                    ids@[j],
                    i,
                ) by {
                    assert(recorded(*g, before, ids@[j], i));
                }
                assert forall|i: int| 0 <= i < bi + 1 implies #[trigger] recorded(
                    *g,
                    exposures@,
                    pid,
                    i,
                ) by {
                    if i < bi {
                        assert(recorded(*g, before, pid, i));
                    }
                }
                if open {
                    assert(transparent(*g, p.body@[bi as int]));
                } else {
                    assert forall|i: int| bi + 1 <= i implies !transparent_prefix(
                        *g,
                        p.body@,
                        i,
                    ) by {
                        if transparent_prefix(*g, p.body@, i) {
                            assert(transparent(*g, p.body@[bi as int]));
                        }
                    }
                }
            }
            bi += 1;
        }
        proof {
            assert forall|j: int, i: int| 0 <= j < pi + 1 implies #[trigger] recorded(
                *g,
                exposures@,
                ids@[j],
                i,
            ) by {
                if j == pi {
                    if 0 <= i < bi {
                        assert(recorded(*g, exposures@, pid, i));
                    }
                }
            }
        }
        pi += 1;
    }
    proof {
        assert forall|a: usize, x: usize| #[trigger] exposes(*g, a, x) implies exposures@.contains(
            (a, x),
        ) by {
            let (pid, i) = choose|pid: usize, i: int| #[trigger]
                exposed_at(*g, pid, i) && g.productions@[pid].driver == a
                    && g.productions@[pid].body@[i] == x;
            assert(ids@.to_set().contains(pid));
            let j = choose|j: int| 0 <= j < ids@.len() && ids@[j] == pid;
            assert(recorded(*g, exposures@, ids@[j], i));
        }
        assert forall|a: usize, b: usize| #[trigger] depends_on(*g, a, b) implies graph_edges(
            *graph,
        ).contains((node_of@[a], node_of@[b])) by {
            assert(exposures@.contains((a, b)));
            let m = choose|m: int| 0 <= m < exposures@.len() && exposures@[m] == (a, b);
            assert(is_non_terminal(*g, exposures@[m].1));
        }
    }
    exposures
}

/// `comp_of` gives each listed symbol the component that lists it.
pub open spec fn components_indexed(comps: Seq<Seq<usize>>, comp_of: Map<usize, usize>) -> bool {
    &&& forall|w: usize| #[trigger]
        comp_of.contains_key(w) <==> exists|c: int| in_component(comps, c, w)
    &&& forall|w: usize| #[trigger]
        comp_of.contains_key(w) ==> in_component(comps, comp_of[w] as int, w)
}

/// For each symbol that a component of the condensed graph lists, the index
/// of that component.
pub(crate) fn component_index(condensed: &Graph<Vec<usize>, (), Directed, usize>, count: usize) -> (comp_of:
    HashMap<usize, usize>)
    requires
        count == condensed_nodes(*condensed).len(),
    ensures
        components_indexed(condensed_nodes(*condensed), comp_of@),
{
    let ghost comps = condensed_nodes(*condensed);
    let mut comp_of: HashMap<usize, usize> = HashMap::new();
    let mut c: usize = 0;
    while c < count
        invariant
            c <= count,
            count == comps.len(),
            comps == condensed_nodes(*condensed),
            forall|w: usize| #[trigger]
                comp_of@.contains_key(w) <==> exists|d: int| d < c && in_component(comps, d, w),
            forall|w: usize| #[trigger]
                comp_of@.contains_key(w) ==> in_component(comps, comp_of@[w] as int, w),
        decreases count - c,
    {
        let members = match condensed_members(condensed, c) {
            Some(members) => members,
            None => unreached(),
        };
        let mut k: usize = 0;
        while k < members.len()
            invariant
                k <= members.len(),
                c < count,
                count == comps.len(),
                members@ == comps[c as int],
                forall|w: usize| #[trigger]
                    comp_of@.contains_key(w) <==> (exists|d: int|
                        d < c && in_component(comps, d, w)) || occurs_before(
                        members@,
                        k as int,
                        w,
                    ),
                forall|w: usize| #[trigger]
                    comp_of@.contains_key(w) ==> in_component(comps, comp_of@[w] as int, w),
            decreases members.len() - k,
        {
            proof {
                lemma_occurs_step(members@, k as int);
                assert(members@.contains(members@[k as int]));
                assert(in_component(comps, c as int, members@[k as int]));
            }
            comp_of.insert(members[k], c);
            k += 1;
        }
        proof {
            lemma_occurs_all(members@);
            assert forall|w: usize| #[trigger] comp_of@.contains_key(w) <==> exists|d: int|
                d < c + 1 && in_component(comps, d, w) by {
                if comp_of@.contains_key(w) {
                    if occurs_before(members@, members@.len() as int, w) {
                        assert(in_component(comps, c as int, w));
                    } else {
                        let d = choose|d: int| d < c && in_component(comps, d, w);
                        assert(d < c + 1 && in_component(comps, d, w));
                    }
                }
                if exists|d: int| d < c + 1 && in_component(comps, d, w) {
                    let d = choose|d: int| d < c + 1 && in_component(comps, d, w);
                    if d < c {
                    } else {
                        assert(members@.contains(w));
                    }
                }
            }
        }
        c += 1;
    }
    proof {
        assert forall|w: usize| #[trigger] comp_of@.contains_key(w) <==> exists|d: int|
            in_component(comps, d, w) by {
            if exists|d: int| in_component(comps, d, w) {
                let d = choose|d: int| in_component(comps, d, w);
                assert(d < c && in_component(comps, d, w));
            }
        }
    }
    comp_of
}

/// What the propagation asks of the components: `comp_of` gives every
/// non-terminal a component, the members of one component reach one another,
/// and `order` lists every component, each before those that it depends on.
pub open spec fn components_match(
    g: Grammar<FreeProduction>,
    comp_of: Map<usize, usize>,
    order: Seq<usize>,
) -> bool {
    &&& forall|a: usize| #[trigger] comp_of.contains_key(a) <==> is_non_terminal(g, a)
    &&& forall|a: usize| #[trigger] comp_of.contains_key(a) ==> order.contains(comp_of[a])
    &&& forall|k: int| 0 <= k < order.len() ==> (#[trigger] order[k]) < order.len()
    &&& forall|a: usize, b: usize|
        #[trigger] comp_of.contains_key(a) && #[trigger] comp_of.contains_key(b) && comp_of[a]
            == comp_of[b] ==> reaches(g, a, b)
    &&& forall|a: usize, b: usize, i: int, j: int|
        #![trigger depends_on(g, a, b), order[i], order[j]]
        depends_on(g, a, b) && comp_of.contains_key(a) && comp_of.contains_key(b) && 0 <= i
            < order.len() && 0 <= j < order.len() && order[i] == comp_of[a] && order[j]
            == comp_of[b] && comp_of[a] != comp_of[b] ==> i < j
}

/// The set kept for component `c` is the FIRST set of each of its members.
pub open spec fn resolved(
    g: Grammar<FreeProduction>,
    comp_of: Map<usize, usize>,
    sets: Seq<HashSet<usize>>,
    c: usize,
) -> bool {
    forall|a: usize| #[trigger]
        comp_of.contains_key(a) && comp_of[a] == c ==> sets[c as int]@ == first_set(g, a)
}

/// What the members of component `c` have in their FIRST sets, taken together.
pub open spec fn component_first(
    g: Grammar<FreeProduction>,
    comp_of: Map<usize, usize>,
    c: usize,
) -> Set<usize> {
    Set::new(
        |t: usize|
            exists|a: usize| #[trigger]
                comp_of.contains_key(a) && comp_of[a] == c && first_set(g, a).contains(t),
    )
}

/// `r` has taken in what the exposure of `x` by `a` gives to component `c`:
/// `x` itself if it is a terminal, its FIRST set if it is a non-terminal of
/// another component.
pub open spec fn absorbed(
    g: Grammar<FreeProduction>,
    comp_of: Map<usize, usize>,
    c: usize,
    r: Set<usize>,
    a: usize,
    x: usize,
) -> bool {
    comp_of[a] == c ==> (is_terminal(g, x) ==> r.contains(x)) && (is_non_terminal(g, x)
        && comp_of[x] != c ==> first_set(g, x).subset_of(r))
}

proof fn lemma_path_absorbed(
    g: Grammar<FreeProduction>,
    comp_of: Map<usize, usize>,
    c: usize,
    r: Set<usize>,
    p: Seq<usize>,
    t: usize,
)
    requires
        forall|a: usize| #[trigger] comp_of.contains_key(a) <==> is_non_terminal(g, a),
        forall|a: usize, x: usize|
            #[trigger] exposes(g, a, x) && comp_of.contains_key(a) ==> absorbed(
                g,
                comp_of,
                c,
                r,
                a,
                x,
            ),
        dependency_path(g, p),
        comp_of.contains_key(p[0]),
        comp_of[p[0]] == c,
        direct_first(g, p.last()).contains(t),
    ensures
        r.contains(t),
    decreases p.len(),
{
    if p.len() == 1 {
        assert(exposes(g, p[0], t));
        assert(absorbed(g, comp_of, c, r, p[0], t));
    } else {
        let b = p[1];
        assert(depends_on(g, p[0], b));
        assert(comp_of.contains_key(b));
        let q = p.skip(1);
        assert forall|k: int| 0 <= k < q.len() - 1 implies depends_on(g, #[trigger] q[k], q[k + 1]) by {
            assert(q[k] == p[k + 1] && q[k + 1] == p[k + 2]);
        }
        assert(dependency_path(g, q) && q.first() == b && q.last() == p.last());
        if comp_of[b] == c {
            lemma_path_absorbed(g, comp_of, c, r, q, t);
        } else {
            assert(reaches(g, b, p.last()));
            assert(first_set(g, b).contains(t));
            assert(exposes(g, p[0], b));
            assert(absorbed(g, comp_of, c, r, p[0], b));
        }
    }
}

/// In a well-formed grammar a driver is a non-terminal and what it exposes
/// is a known symbol.
proof fn lemma_exposure_known(g: Grammar<FreeProduction>, a: usize, x: usize)
    requires
        well_formed(g),
        exposes(g, a, x),
    ensures
        is_non_terminal(g, a),
        g.tokens@.contains_key(x),
{
    let (pid, i) = choose|pid: usize, i: int| #[trigger]
        exposed_at(g, pid, i) && g.productions@[pid].driver == a && g.productions@[pid].body@[i]
            == x;
    assert(g.productions@.contains_key(pid));
    assert(g.tokens@.contains_key(g.productions@[pid].body@[i]));
}

/// The FIRST set that the members of component `c` share: what they expose
/// of terminals, and the sets of the components that they depend on.
pub fn resolve_component(
    g: &Grammar<FreeProduction>,
    exposures: &Vec<(usize, usize)>,
    comp_of: &HashMap<usize, usize>,
    order: &Vec<usize>,
    sets: &Vec<HashSet<usize>>,
    c: usize,
) -> (r: HashSet<usize>)
    requires
        well_formed(*g),
        exposures_match(*g, exposures@),
        components_match(*g, comp_of@, order@),
        sets@.len() == order@.len(),
        forall|a: usize, b: usize|
            #[trigger] depends_on(*g, a, b) && comp_of@.contains_key(a) && comp_of@[a] == c
                && comp_of@[b] != c ==> resolved(*g, comp_of@, sets@, comp_of@[b]),
    ensures
        forall|a: usize| #[trigger]
            comp_of@.contains_key(a) && comp_of@[a] == c ==> r@ == first_set(*g, a),
{
    let mut r: HashSet<usize> = HashSet::new();
    let mut m: usize = 0;
    while m < exposures.len()
        invariant
            m <= exposures.len(),
            well_formed(*g),
            exposures_match(*g, exposures@),
            components_match(*g, comp_of@, order@),
            sets@.len() == order@.len(),
            forall|a: usize, b: usize|
                #[trigger] depends_on(*g, a, b) && comp_of@.contains_key(a) && comp_of@[a] == c
                    && comp_of@[b] != c ==> resolved(*g, comp_of@, sets@, comp_of@[b]),
            r@.subset_of(component_first(*g, comp_of@, c)),
            forall|k: int|
                0 <= k < m ==> absorbed(
                    *g,
                    comp_of@,
                    c,
                    r@,
                    (#[trigger] exposures@[k]).0,
                    exposures@[k].1,
                ),
        decreases exposures.len() - m,
    {
        let pair = exposures[m];
        let a = pair.0;
        let x = pair.1;
        let ghost before = r@;
        proof {
            assert(exposes(*g, exposures@[m as int].0, exposures@[m as int].1));
            lemma_exposure_known(*g, a, x);
        }
        let ca = match comp_of.get(&a) {
            Some(v) => *v,
            None => unreached(),
        };
        if ca == c {
            let token = match g.tokens.get(&x) {
                Some(token) => token,
                None => unreached(),
            };
            match token.token_type {
                TokenType::Terminal => {
                    r.insert(x);
                    proof {
                        lemma_direct_included(*g, a);
                        assert(direct_first(*g, a).contains(x));
                        assert(first_set(*g, a).contains(x));
                        assert(component_first(*g, comp_of@, c).contains(x));
                    }
                },
                TokenType::NonTerminal => {
                    let d = match comp_of.get(&x) {
                        Some(v) => *v,
                        None => unreached(),
                    };
                    if d != c {
                        proof {
                            assert(depends_on(*g, a, x));
                            assert(resolved(*g, comp_of@, sets@, d));
                            assert(order@.contains(d));
                            assert(sets@[d as int]@ == first_set(*g, x));
                            lemma_reaches_step(*g, a, x);
                            lemma_reaches_includes(*g, a, x);
                        }
                        union_into(&mut r, &sets[d]);
                        proof {
                            assert forall|t: usize| r@.contains(t) implies component_first(
                                *g,
                                comp_of@,
                                c,
                            ).contains(t) by {
                                if !before.contains(t) {
                                    assert(first_set(*g, a).contains(t));
                                }
                            }
                        }
                    }
                },
            }
        }
        proof {
            assert forall|k: int| 0 <= k < m + 1 implies absorbed(
                *g,
                comp_of@,
                c,
                r@,
                (#[trigger] exposures@[k]).0,
                exposures@[k].1,
            ) by {
                if k < m {
                    assert(absorbed(*g, comp_of@, c, before, exposures@[k].0, exposures@[k].1));
                }
            }
        }
        m += 1;
    }
    proof {
        assert forall|a: usize, x: usize|
            #[trigger] exposes(*g, a, x) && comp_of@.contains_key(a) implies absorbed(
            *g,
            comp_of@,
            c,
            r@,
            a,
            x,
        ) by {
            assert(exposures@.contains((a, x)));
            let k = choose|k: int| 0 <= k < exposures@.len() && exposures@[k] == (a, x);
            assert(absorbed(*g, comp_of@, c, r@, exposures@[k].0, exposures@[k].1));
        }
        assert forall|a: usize| #[trigger] comp_of@.contains_key(a) && comp_of@[a] == c implies r@
            == first_set(*g, a) by {
            assert forall|t: usize| r@.contains(t) implies first_set(*g, a).contains(t) by {
                assert(component_first(*g, comp_of@, c).contains(t));
                let a2 = choose|a2: usize| #[trigger]
                    comp_of@.contains_key(a2) && comp_of@[a2] == c && first_set(*g, a2).contains(
                        t,
                    );
                assert(reaches(*g, a, a2));
                lemma_reaches_includes(*g, a, a2);
            }
            assert forall|t: usize| first_set(*g, a).contains(t) implies r@.contains(t) by {
                let b = choose|b: usize| #[trigger]
                    reaches(*g, a, b) && direct_first(*g, b).contains(t);
                let p = choose|p: Seq<usize>| #[trigger]
                    dependency_path(*g, p) && p.first() == a && p.last() == b;
                lemma_path_absorbed(*g, comp_of@, c, r@, p, t);
            }
            assert(r@ =~= first_set(*g, a));
        }
    }
    r
}

/// Resolves the components from the last of `order` to the first, so that
/// a component is resolved after every component that it depends on.
/// `sets[c]` is then the FIRST set of each member of component `c`.
pub fn propagate(
    g: &Grammar<FreeProduction>,
    exposures: &Vec<(usize, usize)>,
    comp_of: &HashMap<usize, usize>,
    order: &Vec<usize>,
) -> (sets: Vec<HashSet<usize>>)
    requires
        well_formed(*g),
        exposures_match(*g, exposures@),
        components_match(*g, comp_of@, order@),
    ensures
        sets@.len() == order@.len(),
        forall|a: usize| #[trigger]
            is_non_terminal(*g, a) ==> comp_of@[a] < sets@.len() && sets@[comp_of@[a] as int]@
                == first_set(*g, a),
{
    let n = order.len();
    let mut sets: Vec<HashSet<usize>> = Vec::new();
    let mut i: usize = 0;
    while i < n
        invariant
            i <= n,
            sets@.len() == i,
        decreases n - i,
    {
        sets.push(HashSet::new());
        i += 1;
    }
    let mut k: usize = n;
    while k > 0
        invariant
            k <= n,
            n == order@.len(),
            sets@.len() == n,
            well_formed(*g),
            exposures_match(*g, exposures@),
            components_match(*g, comp_of@, order@),
            forall|q: int| k <= q < n ==> resolved(*g, comp_of@, sets@, #[trigger] order@[q]),
        decreases k,
    {
        k -= 1;
        let c = order[k];
        proof {
            assert forall|a: usize, b: usize|
                #[trigger] depends_on(*g, a, b) && comp_of@.contains_key(a) && comp_of@[a] == c
                    && comp_of@[b] != c implies resolved(*g, comp_of@, sets@, comp_of@[b]) by {
                assert(comp_of@.contains_key(b));
                assert(order@.contains(comp_of@[b]));
                let j = choose|j: int| 0 <= j < order@.len() && order@[j] == comp_of@[b];
                assert(order@[k as int] == comp_of@[a]);
                assert(k < j);
                assert(resolved(*g, comp_of@, sets@, order@[j]));
            }
        }
        let r = resolve_component(g, exposures, comp_of, order, &sets, c);
        let ghost before = sets@;
        sets.set(c, r);
        proof {
            assert forall|q: int| k <= q < n implies resolved(
                *g,
                comp_of@,
                sets@,
                #[trigger] order@[q],
            ) by {
                if order@[q] != c {
                    assert(resolved(*g, comp_of@, before, order@[q]));
                    assert(sets@[order@[q] as int] == before[order@[q] as int]);
                }
            }
        }
    }
    proof {
        assert forall|a: usize| #[trigger] is_non_terminal(*g, a) implies comp_of@[a]
            < sets@.len() && sets@[comp_of@[a] as int]@ == first_set(*g, a) by {
            assert(comp_of@.contains_key(a));
            assert(order@.contains(comp_of@[a]));
            let j = choose|j: int| 0 <= j < order@.len() && order@[j] == comp_of@[a];
            assert(resolved(*g, comp_of@, sets@, order@[j]));
        }
    }
    sets
}

/// A walk along the graph's edges is a path of dependencies.
proof fn lemma_walk_reaches(
    g: Grammar<FreeProduction>,
    nodes: Seq<usize>,
    edges: Seq<(usize, usize)>,
    p: Seq<usize>,
)
    requires
        edges_sound(g, nodes, edges),
        edge_walk(edges, p),
    ensures
        reaches(g, nodes[p.first() as int], nodes[p.last() as int]),
{
    let q = Seq::new(p.len(), |k: int| nodes[p[k] as int]);
    assert forall|k: int| 0 <= k < q.len() - 1 implies depends_on(g, #[trigger] q[k], q[k + 1]) by {
        assert(edges.contains((p[k], p[k + 1])));
        let e = choose|e: int| 0 <= e < edges.len() && edges[e] == (p[k], p[k + 1]);
        assert(edges[e].0 == p[k] && edges[e].1 == p[k + 1]);
    }
    assert(dependency_path(g, q) && q.first() == nodes[p.first() as int] && q.last()
        == nodes[p.last() as int]);
}

/// The components of the condensed dependency graph, in topological order,
/// are what the propagation asks for.
proof fn lemma_components_match(
    g: Grammar<FreeProduction>,
    nodes: Seq<usize>,
    node_of: Map<usize, usize>,
    edges: Seq<(usize, usize)>,
    comps: Seq<Seq<usize>>,
    cedges: Set<(usize, usize)>,
    comp_of: Map<usize, usize>,
    order: Seq<usize>,
)
    requires
        nodes_match(g, nodes, node_of),
        edges_match(g, nodes, node_of, edges),
        is_condensation(nodes, edges, comps, cedges),
        is_topological_order(order, comps.len(), cedges),
        components_indexed(comps, comp_of),
    ensures
        components_match(g, comp_of, order),
{
    assert forall|a: usize| #[trigger] comp_of.contains_key(a) <==> is_non_terminal(g, a) by {
        if comp_of.contains_key(a) {
            assert(in_component(comps, comp_of[a] as int, a));
            assert(nodes.contains(a));
            let k = choose|k: int| 0 <= k < nodes.len() && nodes[k] == a;
            assert(is_non_terminal(g, nodes[k]));
        }
        if is_non_terminal(g, a) {
            assert(node_of.contains_key(a));
            let i = node_of[a] as int;
            assert(nodes[i] == a);
            let c = choose|c: int| in_component(comps, c, nodes[i]);
            assert(in_component(comps, c, a));
        }
    }
    assert forall|a: usize| #[trigger] comp_of.contains_key(a) implies order.contains(
        comp_of[a],
    ) by {
        assert(in_component(comps, comp_of[a] as int, a));
    }
    assert forall|a: usize, b: usize|
        #[trigger] comp_of.contains_key(a) && #[trigger] comp_of.contains_key(b) && comp_of[a]
            == comp_of[b] implies reaches(g, a, b) by {
        let c = comp_of[a] as int;
        assert(node_of.contains_key(a) && node_of.contains_key(b));
        let i = node_of[a] as int;
        let j = node_of[b] as int;
        assert(in_component(comps, c, nodes[i]));
        assert(in_component(comps, c, nodes[j]));
        assert(connected(edges, i as usize, j as usize));
        let p = choose|p: Seq<usize>| #[trigger]
            edge_walk(edges, p) && p.first() == i as usize && p.last() == j as usize;
        lemma_walk_reaches(g, nodes, edges, p);
    }
    assert forall|a: usize, b: usize, i: int, j: int|
        #![trigger depends_on(g, a, b), order[i], order[j]]
        depends_on(g, a, b) && comp_of.contains_key(a) && comp_of.contains_key(b) && 0 <= i
            < order.len() && 0 <= j < order.len() && order[i] == comp_of[a] && order[j]
            == comp_of[b] && comp_of[a] != comp_of[b] implies i < j by {
        let c = comp_of[a] as int;
        let d = comp_of[b] as int;
        assert(node_of.contains_key(a) && node_of.contains_key(b));
        assert(edges.contains((node_of[a], node_of[b])));
        let e = choose|e: int| 0 <= e < edges.len() && edges[e] == (node_of[a], node_of[b]);
        assert(edges[e].0 == node_of[a] && edges[e].1 == node_of[b]);
        assert(in_component(comps, c, nodes[edges[e].0 as int]));
        assert(in_component(comps, d, nodes[edges[e].1 as int]));
        assert(cedges.contains((c as usize, d as usize)));
    }
}

/// What `first` owes on the grammar `g`: for a well-formed grammar, a table
/// with one entry for each non-terminal, which holds its FIRST set; else the
/// report of a violated precondition.
pub open spec fn first_result(
    g: Grammar<FreeProduction>,
    r: Result<HashMap<usize, HashSet<usize>>, GrammarError>,
) -> bool {
    if well_formed(g) {
        r matches Ok(table) && (forall|a: usize| #[trigger]
            table@.contains_key(a) <==> is_non_terminal(g, a)) && (forall|a: usize| #[trigger]
            table@.contains_key(a) ==> table@[a]@ == first_set(g, a))
    } else {
        r matches Err(e) && e == GrammarError::PreconditionViolated
    }
}

/// The table of FIRST sets, from the set kept for each component.
pub fn collect_first_sets(
    g: &Grammar<FreeProduction>,
    non_terminals: &Vec<usize>,
    comp_of: &HashMap<usize, usize>,
    sets: &Vec<HashSet<usize>>,
) -> (table: HashMap<usize, HashSet<usize>>)
    requires
        forall|a: usize| is_non_terminal(*g, a) <==> non_terminals@.contains(a),
        forall|a: usize| #[trigger] comp_of@.contains_key(a) <==> is_non_terminal(*g, a),
        forall|a: usize| #[trigger]
            is_non_terminal(*g, a) ==> comp_of@[a] < sets@.len() && sets@[comp_of@[a] as int]@
                == first_set(*g, a),
    ensures
        forall|a: usize| #[trigger] table@.contains_key(a) <==> is_non_terminal(*g, a),
        forall|a: usize| #[trigger] table@.contains_key(a) ==> table@[a]@ == first_set(*g, a),
{
    let mut table: HashMap<usize, HashSet<usize>> = HashMap::new();
    let mut i: usize = 0;
    while i < non_terminals.len()
        invariant
            i <= non_terminals.len(),
            forall|a: usize| is_non_terminal(*g, a) <==> non_terminals@.contains(a),
            forall|a: usize| #[trigger] comp_of@.contains_key(a) <==> is_non_terminal(*g, a),
            forall|a: usize| #[trigger]
                is_non_terminal(*g, a) ==> comp_of@[a] < sets@.len() && sets@[comp_of@[a] as int]@
                    == first_set(*g, a),
            forall|a: usize| #[trigger]
                table@.contains_key(a) <==> occurs_before(non_terminals@, i as int, a),
            forall|a: usize| #[trigger] table@.contains_key(a) ==> table@[a]@ == first_set(*g, a),
        decreases non_terminals.len() - i,
    {
        let a = non_terminals[i];
        proof {
            lemma_occurs_step(non_terminals@, i as int);
            assert(non_terminals@.contains(a));
            assert(is_non_terminal(*g, a));
        }
        let c = match comp_of.get(&a) {
            Some(c) => *c,
            None => unreached(),
        };
        table.insert(a, copy_set(&sets[c]));
        i += 1;
    }
    proof {
        lemma_occurs_all(non_terminals@);
    }
    table
}

/// The FIRST set of every non-terminal of `g`.
pub fn first(g: &Grammar<FreeProduction>) -> (r: Result<
    HashMap<usize, HashSet<usize>>,
    GrammarError,
>)
    ensures
        first_result(*g, r),
{
    let nullable = match nullabes(g) {
        Ok(set) => set,
        Err(_) => {
            return Err(GrammarError::PreconditionViolated);
        },
    };
    let (mut graph, node_of, non_terminals) = dependency_nodes(g);
    let exposures = scan_productions(g, &nullable, &mut graph, &node_of);
    let ghost nodes = graph_nodes(graph);
    let ghost edges = graph_edges(graph);
    let condensed = graph_condensation(graph);
    let order = match condensed_toposort(&condensed) {
        Some(order) => order,
        None => unreached(),
    };
    let comp_of = component_index(&condensed, order.len());
    proof {
        lemma_components_match(
            *g,
            nodes,
            node_of@,
            edges,
            condensed_nodes(condensed),
            condensed_edges(condensed),
            comp_of@,
            order@,
        );
        assert forall|a: usize| is_non_terminal(*g, a) <==> non_terminals@.contains(a) by {
            if is_non_terminal(*g, a) {
                assert(node_of@.contains_key(a));
                assert(nodes[node_of@[a] as int] == a);
            }
            if non_terminals@.contains(a) {
                let k = choose|k: int| 0 <= k < nodes.len() && nodes[k] == a;
                assert(is_non_terminal(*g, nodes[k]));
            }
        }
    }
    let sets = propagate(g, &exposures, &comp_of, &order);
    Ok(collect_first_sets(g, &non_terminals, &comp_of, &sets))
}

/// Two runs on one grammar agree: both fail, or both give tables with the
/// same entries.
pub proof fn lemma_first_deterministic(
    g: Grammar<FreeProduction>,
    r1: Result<HashMap<usize, HashSet<usize>>, GrammarError>,
    r2: Result<HashMap<usize, HashSet<usize>>, GrammarError>,
)
    requires
        first_result(g, r1),
        first_result(g, r2),
    ensures
        r1 is Ok <==> r2 is Ok,
        r1 matches Ok(t1) ==> r2 matches Ok(t2) && t1@.dom() =~= t2@.dom() && forall|a: usize|
            #[trigger] t1@.contains_key(a) ==> t1@[a]@ == t2@[a]@,
        r1 matches Err(e1) ==> r2 matches Err(e2) && e1 == e2,
{
    if well_formed(g) {
        let t1 = r1->Ok_0;
        let t2 = r2->Ok_0;
        assert forall|a: usize| t1@.dom().contains(a) <==> t2@.dom().contains(a) by {
            assert(t1@.contains_key(a) <==> is_non_terminal(g, a));
            assert(t2@.contains_key(a) <==> is_non_terminal(g, a));
        }
        assert(t1@.dom() =~= t2@.dom());
        assert forall|a: usize| #[trigger] t1@.contains_key(a) implies t1@[a]@ == t2@[a]@ by {
            assert(t2@.contains_key(a));
        }
    }
}

} // verus!
