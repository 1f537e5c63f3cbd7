//! Listings: a grammar as text, one line per production, and a production
//! as the ids of its driver and body.

use crate::collections::{ascending, key_list, member_list, sorted_once};
use crate::grammar::{
    all_known, body_text, rendered, FreeProduction, Grammar, GrammarProduction, Production, Token,
};
use std::collections::HashMap;
use std::collections::HashSet;
use crate::text::{decimal, decimal_text};
use vstd::pervasive::unreached;
use vstd::prelude::*;
use vstd::std_specs::hash::*;
use vstd::string::StringExecFns;

verus! {

broadcast use group_hash_axioms;

/// The text of the driver of production `id`, or `Err` where a symbol of it
/// is unknown.
pub open spec fn shown_driver<T: GrammarProduction>(g: Grammar<T>, id: usize) -> Seq<char> {
    let ids = g.productions@[id].driver_ids();
    if all_known(g.tokens@, ids) {
        rendered(g.tokens@, ids)
    } else {
        "Err"@
    }
}

/// The text of the body of production `id`, or `Err` where a symbol of it is
/// unknown.
pub open spec fn shown_body<T: GrammarProduction>(g: Grammar<T>, id: usize) -> Seq<char> {
    let ids = g.productions@[id].body_ids();
    if all_known(g.tokens@, ids) {
        body_text(g.tokens@, ids)
    } else {
        "Err"@
    }
}

/// The line of production `id`: `P`, the id, the driver, an arrow, the body.
pub open spec fn production_line<T: GrammarProduction>(g: Grammar<T>, id: usize) -> Seq<char> {
    "P"@ + decimal(id as nat) + ": "@ + shown_driver(g, id) + " -> "@ + shown_body(g, id) + "\n"@
}

/// The lines of the productions `ids`, in that order.
pub open spec fn production_lines<T: GrammarProduction>(g: Grammar<T>, ids: Seq<usize>) -> Seq<char>
    decreases ids.len(),
{
    if ids.len() == 0 {
        Seq::empty()
    } else {
        production_lines(g, ids.drop_last()) + production_line(g, ids.last())
    }
}

/// The line that names the start symbol; empty where none is set or known.
pub open spec fn start_line<T: GrammarProduction>(g: Grammar<T>) -> Seq<char> {
    match g.start_symbol {
        Some(s) => if g.tokens@.contains_key(s) {
            "Starting symbol: "@ + g.tokens@[s].content@ + "\n"@
        } else {
            Seq::empty()
        },
        None => Seq::empty(),
    }
}

/// `text` is the listing of `g`: the start line, then the production lines
/// by ascending production id.
pub open spec fn is_listing<T: GrammarProduction>(g: Grammar<T>, text: Seq<char>) -> bool {
    exists|ids: Seq<usize>|
        #![trigger production_lines(g, ids)]
        ascending(ids) && ids.to_set() == g.productions@.dom() && text == start_line(g)
            + production_lines(g, ids)
}

/// The decimal numerals of `ids`, run together.
pub open spec fn numerals(ids: Seq<usize>) -> Seq<char>
    decreases ids.len(),
{
    if ids.len() == 0 {
        Seq::empty()
    } else {
        numerals(ids.drop_last()) + decimal(ids.last() as nat)
    }
}

/// The decimal numerals of `ids`, run together.
pub fn numerals_text(ids: &Vec<usize>) -> (text: String)
    ensures
        text@ == numerals(ids@),
{
    let mut text = String::new();
    let mut i: usize = 0;
    while i < ids.len()
        invariant
            i <= ids.len(),
            text@ == numerals(ids@.take(i as int)),
        decreases ids.len() - i,
    {
        let digits = decimal_text(ids[i]);
        text.append(digits.as_str());
        proof {
            assert(ids@.take(i + 1).drop_last() =~= ids@.take(i as int));
        }
        i += 1;
    }
    proof {
        assert(ids@.take(i as int) =~= ids@);
    }
    text
}

impl Production {
    /// The ids of the driver, an arrow, the ids of the body.
    pub fn to_text(&self) -> (text: String)
        ensures
            text@ == numerals(self.driver@) + " -> "@ + numerals(self.body@),
    {
        let mut text = numerals_text(&self.driver);
        text.append(" -> ");
        let body = numerals_text(&self.body);
        text.append(body.as_str());
        text
    }
}

impl FreeProduction {
    /// The id of the driver, an arrow, the ids of the body.
    pub fn to_text(&self) -> (text: String)
        ensures
            text@ == decimal(self.driver as nat) + " -> "@ + numerals(self.body@),
    {
        let mut text = decimal_text(self.driver);
        text.append(" -> ");
        let body = numerals_text(&self.body);
        text.append(body.as_str());
        text
    }
}

impl<T: GrammarProduction> Grammar<T> {
    /// The line of production `id`.
    fn line_text(&self, id: usize) -> (text: String)
        requires
            self.productions@.contains_key(id),
        ensures
            text@ == production_line(*self, id),
    {
        let mut text = String::from_str("P");
        let digits = decimal_text(id);
        text.append(digits.as_str());
        text.append(": ");
        match self.get_production_driver(&id) {
            Some(driver) => {
                text.append(driver.as_str());
            },
            None => {
                text.append("Err");
            },
        }
        text.append(" -> ");
        match self.get_production_body(&id) {
            Some(body) => {
                text.append(body.as_str());
            },
            None => {
                text.append("Err");
            },
        }
        text.append("\n");
        text
    }

    /// The listing of the grammar: the start symbol, then one line for each
    /// production, by ascending id.
    pub fn to_text(&self) -> (text: String)
        ensures
            is_listing(*self, text@),
    {
        let mut text = String::new();
        match self.start_symbol {
            Some(s) => {
                match self.tokens.get(&s) {
                    Some(token) => {
                        text.append("Starting symbol: ");
                        text.append(token.content.as_str());
                        text.append("\n");
                        assert(text@ =~= start_line(*self));
                    },
                    None => {},
                }
            },
            None => {},
        }
        let keys = key_list(&self.productions);
        let ids = sorted_once(&keys);
        let mut i: usize = 0;
        while i < ids.len()
            invariant
                i <= ids.len(),
                ids@.to_set() == self.productions@.dom(),
                text@ == start_line(*self) + production_lines(*self, ids@.take(i as int)),
            decreases ids.len() - i,
        {
            assert(ids@.contains(ids@[i as int]));
            assert(ids@.to_set().contains(ids@[i as int]));
            let line = self.line_text(ids[i]);
            let ghost before = text@;
            text.append(line.as_str());
            proof {
                assert(ids@.take(i + 1).drop_last() =~= ids@.take(i as int));
                assert(text@ =~= start_line(*self) + production_lines(*self, ids@.take(i + 1)));
            }
            i += 1;
        }
        proof {
            assert(ids@.take(i as int) =~= ids@);
        }
        text
    }
}

/// The display text of the symbol `id`, or `Err` where it is unknown.
pub open spec fn symbol_text(tokens: Map<usize, Token>, id: usize) -> Seq<char> {
    if tokens.contains_key(id) {
        tokens[id].content@
    } else {
        "Err"@
    }
}

/// The texts of the symbols `ids`, with a comma and a space between them.
pub open spec fn joined(tokens: Map<usize, Token>, ids: Seq<usize>) -> Seq<char>
    decreases ids.len(),
{
    if ids.len() == 0 {
        Seq::empty()
    } else if ids.len() == 1 {
        symbol_text(tokens, ids[0])
    } else {
        joined(tokens, ids.drop_last()) + ", "@ + symbol_text(tokens, ids.last())
    }
}

/// The line that shows `members` as the FIRST set of `a`.
pub open spec fn first_line(tokens: Map<usize, Token>, a: usize, members: Seq<usize>) -> Seq<char> {
    "First("@ + symbol_text(tokens, a) + ") = {"@ + joined(tokens, members) + "}"@
}

/// `text` shows the set `set` as the FIRST set of `a`, its members by
/// ascending id.
pub open spec fn is_first_line(
    tokens: Map<usize, Token>,
    a: usize,
    set: Set<usize>,
    text: Seq<char>,
) -> bool {
    exists|members: Seq<usize>|
        #![trigger joined(tokens, members)]
        ascending(members) && members.to_set() == set && text == first_line(tokens, a, members)
}

/// `lines` shows the table of FIRST sets `table`, one line for each entry,
/// by ascending id.
pub open spec fn is_first_listing(
    tokens: Map<usize, Token>,
    table: Map<usize, HashSet<usize>>,
    lines: Seq<String>,
) -> bool {
    exists|ids: Seq<usize>|
        #![trigger ids.to_set()]
        ascending(ids) && ids.to_set() == table.dom() && lines.len() == ids.len() && forall|
            i: int,
        |
            0 <= i < ids.len() ==> is_first_line(
                tokens,
                ids[i],
                table[ids[i]]@,
                (#[trigger] lines[i])@,
            )
}

impl<T: GrammarProduction> Grammar<T> {
    /// The display text of the symbol `id`.
    fn symbol_name(&self, id: usize) -> (text: String)
        ensures
            text@ == symbol_text(self.tokens@, id),
    {
        match self.tokens.get(&id) {
            Some(token) => token.content.clone(),
            None => String::from_str("Err"),
        }
    }

    /// The texts of the symbols `ids`, separated by commas.
    fn joined_names(&self, ids: &Vec<usize>) -> (text: String)
        ensures
            text@ == joined(self.tokens@, ids@),
    {
        let mut text = String::new();
        let mut i: usize = 0;
        while i < ids.len()
            invariant
                i <= ids.len(),
                text@ == joined(self.tokens@, ids@.take(i as int)),
            decreases ids.len() - i,
        {
            if i > 0 {
                text.append(", ");
            }
            let name = self.symbol_name(ids[i]);
            text.append(name.as_str());
            proof {
                assert(ids@.take(i + 1).drop_last() =~= ids@.take(i as int));
                assert(text@ =~= joined(self.tokens@, ids@.take(i + 1)));
            }
            i += 1;
        }
        proof {
            assert(ids@.take(i as int) =~= ids@);
        }
        text
    }

    /// The table of FIRST sets as text: one line for each entry, by
    /// ascending id, with the members of each set by ascending id.
    pub fn first_listing(&self, table: &HashMap<usize, HashSet<usize>>) -> (lines: Vec<String>)
        ensures
            is_first_listing(self.tokens@, table@, lines@),
    {
        let keys = key_list(table);
        let ids = sorted_once(&keys);
        let mut lines: Vec<String> = Vec::new();
        let mut i: usize = 0;
        while i < ids.len()
            invariant
                i <= ids.len(),
                ids@.to_set() == table@.dom(),
                lines@.len() == i,
                forall|j: int|
                    0 <= j < i ==> is_first_line(
                        self.tokens@,
                        ids@[j],
                        table@[ids@[j]]@,
                        (#[trigger] lines@[j])@,
                    ),
            decreases ids.len() - i,
        {
            let a = ids[i];
            assert(ids@.contains(a));
            assert(ids@.to_set().contains(a));
            match table.get(&a) {
                Some(set) => {
                    let unordered = member_list(set);
                    let members = sorted_once(&unordered);
                    let mut line = String::from_str("First(");
                    let name = self.symbol_name(a);
                    line.append(name.as_str());
                    line.append(") = {");
                    let inner = self.joined_names(&members);
                    line.append(inner.as_str());
                    line.append("}");
                    assert(line@ == first_line(self.tokens@, a, members@));
                    assert(is_first_line(self.tokens@, a, table@[a]@, line@));
                    lines.push(line);
                },
                None => unreached(),
            }
            i += 1;
        }
        lines
    }
}

} // verus!
