//! Tables and automata in text, for display.

use vstd::prelude::*;
use vstd::string::StringExecFns;
use crate::grammar::{symbol_is_terminal, Grammar};
use crate::grammar::model::{is_terminal, Symbol, EOF};
use crate::parsers::items::graph::CanonicalCollectionGraph;
use crate::parsers::items::lr::{item_text, LRItem};
use crate::parsers::items::model::{is_accept, is_final, LR0Item};
use crate::parsers::table::{action_text, ParseTableLR};
use crate::text::{decimal, digits, join, join_strings, same, strs};

verus! {

/// The group of a symbol in a rendered table: 0 for a terminal, 1 for
/// end-of-input, 2 for a nonterminal.
pub open spec fn group_of(symbol: Symbol) -> int {
    if symbol == EOF@ {
        1
    } else if is_terminal(symbol) {
        0
    } else {
        2
    }
}

/// The symbols of one group, in their order.
pub open spec fn of_group(symbols: Seq<Symbol>, group: int) -> Seq<Symbol>
    decreases symbols.len(),
{
    if symbols.len() == 0 {
        Seq::empty()
    } else if group_of(symbols.last()) == group {
        of_group(symbols.drop_last(), group).push(symbols.last())
    } else {
        of_group(symbols.drop_last(), group)
    }
}

/// The columns of a rendered table: the terminals, then end-of-input, then
/// the nonterminals.
pub open spec fn columns_of(symbols: Seq<Symbol>) -> Seq<Symbol> {
    of_group(symbols, 0) + of_group(symbols, 1) + of_group(symbols, 2)
}

/// An action table in text: the symbols of its columns, and for each state
/// the actions on these symbols.
pub struct TableText {
    pub symbols: Vec<String>,
    pub rows: Vec<Vec<String>>,
}

impl ParseTableLR {
    /// Adds to `out` the symbols of one group.
    fn collect_group(&self, group: u8, out: &mut Vec<String>)
        requires
            group <= 2,
        ensures
            strs(final(out)@) == strs(old(out)@) + of_group(self.symbols(), group as int),
    {
        let ghost given = strs(out@);
        let ghost all = self.columns@;
        let mut k: usize = 0;
        while k < self.columns.len()
            invariant
                group <= 2,
                all == self.columns@,
                k <= all.len(),
                strs(out@) == given + of_group(all.take(k as int), group as int),
            decreases all.len() - k,
        {
            let symbol = self.columns.get(k);
            proof {
                assert(all.take(k + 1).drop_last() =~= all.take(k as int));
                assert(all.take(k + 1).last() == symbol@);
            }
            let g: u8 = if same(symbol.as_str(), EOF) {
                1
            } else if symbol_is_terminal(symbol.as_str()) {
                0
            } else {
                2
            };
            if g == group {
                let ghost before = strs(out@);
                out.push(symbol.clone());
                assert(strs(out@) =~= before.push(symbol@));
            }
            k += 1;
        }
        assert(all.take(all.len() as int) =~= all);
    }

    /// The table in text: the columns are the symbols for which something
    /// was entered, terminals first, then end-of-input, then nonterminals;
    /// there is a row for each state.
    pub fn to_prettytable(&self) -> (text: TableText)
        requires
            self.wf(),
        ensures
            strs(text.symbols@) == columns_of(self.symbols()),
            text.rows@.len() == self.states(),
            forall|s: int|
                0 <= s < text.rows@.len() ==> (#[trigger] text.rows@[s])@.len() == text.symbols@.len(),
            forall|s: int, j: int|
                0 <= s < text.rows@.len() && 0 <= j < text.symbols@.len() ==> (
                #[trigger] text.rows@[s]@[j])@ == action_text(
                    self.lookup(s as usize, text.symbols@[j]@),
                ),
    {
        let mut symbols: Vec<String> = Vec::new();
        assert(strs(symbols@) =~= Seq::<Symbol>::empty());
        self.collect_group(0, &mut symbols);
        self.collect_group(1, &mut symbols);
        self.collect_group(2, &mut symbols);
        let mut rows: Vec<Vec<String>> = Vec::new();
        let mut s: usize = 0;
        while s < self.num_states
            invariant
                self.wf(),
                s <= self.num_states,
                rows@.len() == s,
                forall|i: int| 0 <= i < s ==> (#[trigger] rows@[i])@.len() == symbols@.len(),
                forall|i: int, j: int|
                    0 <= i < s && 0 <= j < symbols@.len() ==> (#[trigger] rows@[i]@[j])@
                        == action_text(self.lookup(i as usize, symbols@[j]@)),
            decreases self.num_states - s,
        {
            let mut row: Vec<String> = Vec::new();
            let mut j: usize = 0;
            while j < symbols.len()
                invariant
                    self.wf(),
                    j <= symbols@.len(),
                    row@.len() == j,
                    forall|i: int|
                        0 <= i < j ==> (#[trigger] row@[i])@ == action_text(
                            self.lookup(s, symbols@[i]@),
                        ),
                decreases symbols@.len() - j,
            {
                row.push(self.get_action(s, symbols[j].as_str()).to_string());
                j += 1;
            }
            rows.push(row);
            s += 1;
        }
        TableText { symbols, rows }
    }
}

/// The mark of a state in text: two stars if it accepts, one if it holds a
/// final item, none otherwise.
pub open spec fn state_mark(grammar: &Grammar, items: Set<LR0Item>) -> Seq<char> {
    if exists|t: LR0Item| items.contains(t) && is_accept(t) {
        "**"@
    } else if exists|t: LR0Item| items.contains(t) && is_final(grammar@, t) {
        "*"@
    } else {
        Seq::empty()
    }
}

/// A state in text: its number and mark, and its items, one to a line.
pub open spec fn state_text(grammar: &Grammar, c: &CanonicalCollectionGraph, i: int) -> Seq<char> {
    digits(i as nat) + state_mark(grammar, c.states()[i]) + ":\n"@ + join(
        c.state_seq(i).map_values(|t: LR0Item| item_text(grammar, t)),
        "\n"@,
    )
}

/// The first `upto` states in text, each followed by an empty line.
pub open spec fn states_text(grammar: &Grammar, c: &CanonicalCollectionGraph, upto: int) -> Seq<char>
    decreases upto,
{
    if upto <= 0 {
        Seq::empty()
    } else {
        states_text(grammar, c, upto - 1) + state_text(grammar, c, upto - 1) + "\n\n"@
    }
}

impl CanonicalCollectionGraph {
    /// The automaton in text: its states in the order of their numbers.
    pub fn to_string(&self, grammar: &Grammar) -> (s: String)
        requires
            grammar.wf(),
            self.wf(grammar),
        ensures
            s@ == states_text(grammar, self, self.count() as int),
    {
        let mut s = String::new();
        let count = self.state_count();
        let mut i: usize = 0;
        while i < count
            invariant
                grammar.wf(),
                self.wf(grammar),
                count == self.count(),
                i <= count,
                s@ == states_text(grammar, self, i as int),
            decreases count - i,
        {
            let state = self.state(grammar, i);
            let ghost wanted = self.state_seq(i as int).map_values(|t: LR0Item| item_text(grammar, t));
            let items = state.get_items();
            let mut parts: Vec<String> = Vec::new();
            let mut k: usize = 0;
            while k < items.len()
                invariant
                    grammar.wf(),
                    items.seq() == self.state_seq(i as int),
                    crate::parsers::items::lr::items_valid(grammar, items@),
                    wanted == self.state_seq(i as int).map_values(|t: LR0Item| item_text(grammar, t)),
                    k <= items.seq().len(),
                    parts@.len() == k,
                    forall|j: int| 0 <= j < k ==> parts@[j]@ == wanted[j],
                decreases items.seq().len() - k,
            {
                let item = items.get(k);
                parts.push(item.to_string(grammar));
                k += 1;
            }
            assert(strs(parts@) =~= wanted);
            proof {
                crate::parsers::items::lr::lemma_valid_known(grammar, state.items());
            }
            let mark = if state.is_accept(grammar) {
                "**"
            } else if state.is_final(grammar) {
                "*"
            } else {
                ""
            };
            proof {
                reveal_strlit("");
                assert(""@ =~= Seq::<char>::empty());
            }
            let ghost before = s@;
            s.append(decimal(i).as_str());
            s.append(mark);
            s.append(":\n");
            s.append(join_strings(&parts, "\n").as_str());
            s.append("\n\n");
            proof {
                assert(s@ =~= before + state_text(grammar, self, i as int) + "\n\n"@);
            }
            i += 1;
        }
        s
    }
}

} // verus!
