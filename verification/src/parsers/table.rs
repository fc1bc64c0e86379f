//! The action table of an LR parser: what to do in a state on a symbol.

use vstd::prelude::*;
use vstd::std_specs::hash::group_hash_axioms;
use vstd::string::StringExecFns;
use std::collections::HashMap;
use crate::grammar::{symbol_is_terminal, Grammar};
use crate::grammar::model::{is_terminal, Symbol, EOF};
use crate::parsers::items::automaton::EdgeView;
use crate::parsers::items::graph::{CanonicalCollectionGraph, GraphEdge};
use crate::parsers::items::lr::{items_valid, LRItem};
use crate::parsers::items::model::{is_accept, is_final, item_valid, LR0Item};
use crate::text::{decimal, digits, lemma_push_distinct, owned, push_distinct, same, StringSet};

verus! {

broadcast use group_hash_axioms;

/// What the parser does in a state on a symbol.
#[derive(Clone, Copy, PartialEq, Eq, Structural, Debug)]
pub enum ParseTableAction {
    /// Take the token and go to the state.
    Shift(usize),
    /// After a reduction, go to the state.
    Goto(usize),
    /// Reduce by the rule.
    Reduce(usize),
    Accept,
    Reject,
}

/// An action in text: `s` and the state for a shift, the state for a goto,
/// `r` and the rule for a reduction, `acc` for accept, nothing for reject.
pub open spec fn action_text(action: ParseTableAction) -> Seq<char> {
    match action {
        ParseTableAction::Shift(i) => "s"@ + digits(i as nat),
        ParseTableAction::Goto(i) => digits(i as nat),
        ParseTableAction::Reduce(i) => "r"@ + digits(i as nat),
        ParseTableAction::Accept => "acc"@,
        ParseTableAction::Reject => Seq::empty(),
    }
}

impl ParseTableAction {
    /// The action in text.
    pub fn to_string(&self) -> (s: String)
        ensures
            s@ == action_text(*self),
    {
        match *self {
            ParseTableAction::Shift(i) => {
                let mut s = owned("s");
                s.append(decimal(i).as_str());
                s
            },
            ParseTableAction::Goto(i) => decimal(i),
            ParseTableAction::Reduce(i) => {
                let mut s = owned("r");
                s.append(decimal(i).as_str());
                s
            },
            ParseTableAction::Accept => owned("acc"),
            ParseTableAction::Reject => String::new(),
        }
    }
}

/// An entry that replaces what the table holds for a state and a symbol.
pub struct ParseTableOverride {
    pub state: usize,
    pub symbol: String,
    pub action: ParseTableAction,
}

/// The action table, with `Reject` wherever nothing was entered.
pub struct ParseTableLR {
    pub(crate) columns: StringSet,
    pub(crate) cells: Vec<HashMap<usize, ParseTableAction>>,
    pub(crate) num_states: usize,
}

/// The action of the last transition of `edges` on `symbol`, if there is
/// one: a shift for a terminal, a goto for a nonterminal.
pub open spec fn edge_action(edges: Seq<EdgeView>, symbol: Symbol) -> Option<ParseTableAction>
    decreases edges.len(),
{
    if edges.len() == 0 {
        None
    } else if edges.last().symbol == symbol {
        if is_terminal(symbol) {
            Some(ParseTableAction::Shift(edges.last().to as usize))
        } else {
            Some(ParseTableAction::Goto(edges.last().to as usize))
        }
    } else {
        edge_action(edges.drop_last(), symbol)
    }
}

/// The reduction by the last final item of `items` whose lookahead set
/// holds `symbol`, and `Reject` if there is none.
pub open spec fn reduce_action(
    grammar: &Grammar,
    items: Seq<LR0Item>,
    look: spec_fn(LR0Item) -> Set<Symbol>,
    symbol: Symbol,
) -> ParseTableAction
    decreases items.len(),
{
    if items.len() == 0 {
        ParseTableAction::Reject
    } else if is_final(grammar@, items.last()) && look(items.last()).contains(symbol) {
        ParseTableAction::Reduce(items.last().rule_index)
    } else {
        reduce_action(grammar, items.drop_last(), look, symbol)
    }
}

/// What a state with the given items enters before its transitions:
/// `Accept` on end-of-input if it holds the accept item, and its
/// reductions otherwise.
pub open spec fn state_action(
    grammar: &Grammar,
    items: Seq<LR0Item>,
    look: spec_fn(LR0Item) -> Set<Symbol>,
    symbol: Symbol,
) -> ParseTableAction {
    if exists|t: LR0Item| items.contains(t) && is_accept(t) {
        if symbol == EOF@ {
            ParseTableAction::Accept
        } else {
            ParseTableAction::Reject
        }
    } else {
        reduce_action(grammar, items, look, symbol)
    }
}

/// The entry of a state on a symbol: the transition on the symbol if there
/// is one, else what the state enters by its items.
pub open spec fn entry(
    grammar: &Grammar,
    items: Seq<LR0Item>,
    edges: Seq<EdgeView>,
    look: spec_fn(LR0Item) -> Set<Symbol>,
    symbol: Symbol,
) -> ParseTableAction {
    match edge_action(edges, symbol) {
        Some(a) => a,
        None => state_action(grammar, items, look, symbol),
    }
}

/// The lookahead sets of a strategy: for a final item in a state, the
/// terminals on which the parser reduces by the item's rule.
pub trait ReduceLookahead {
    /// What the strategy needs to hold of the grammar and the automaton.
    spec fn ready(&self, grammar: &Grammar, collection: &CanonicalCollectionGraph) -> bool;

    /// The lookahead set of `item` in the state with number `state`.
    spec fn lookahead(
        &self,
        grammar: &Grammar,
        collection: &CanonicalCollectionGraph,
        state: int,
        item: LR0Item,
    ) -> Set<Symbol>;

    /// Computes the lookahead set of `item` in the state with number
    /// `state_index`.
    fn reduce_lookahead(
        &self,
        grammar: &Grammar,
        collection: &CanonicalCollectionGraph,
        item: &LR0Item,
        state_index: usize,
    ) -> (set: StringSet)
        requires
            grammar.wf(),
            collection.wf(grammar),
            self.ready(grammar, collection),
            state_index < collection.count(),
            collection.states()[state_index as int].contains(*item),
            is_final(grammar@, *item),
        ensures
            set.wf(),
            set@.to_set() == self.lookahead(grammar, collection, state_index as int, *item),
    ;
}

/// The lookahead sets of `strategy` in state `state`, as a function of the
/// item.
pub open spec fn look_of<L: ReduceLookahead>(
    strategy: &L,
    grammar: &Grammar,
    collection: &CanonicalCollectionGraph,
    state: int,
) -> spec_fn(LR0Item) -> Set<Symbol> {
    |item: LR0Item| strategy.lookahead(grammar, collection, state, item)
}

/// What the entries `list` make of `base` for `state` and `symbol`: the
/// action of the last entry for the two, and `base` if there is none.
pub open spec fn overridden(
    base: ParseTableAction,
    list: Seq<ParseTableOverride>,
    state: usize,
    symbol: Symbol,
) -> ParseTableAction
    decreases list.len(),
{
    if list.len() == 0 {
        base
    } else if list.last().state == state && list.last().symbol@ == symbol {
        list.last().action
    } else {
        overridden(base, list.drop_last(), state, symbol)
    }
}

impl ParseTableLR {
    /// Each symbol has one column, and each column its entries.
    pub open(crate) spec fn wf(&self) -> bool {
        self.columns.wf() && self.cells@.len() == self.columns@.len()
    }

    /// The action in `state` on `symbol`.
    pub open(crate) spec fn lookup(&self, state: usize, symbol: Symbol) -> ParseTableAction {
        if exists|col: int|
            0 <= col < self.columns@.len() && self.columns@[col] == symbol
                && self.cells@[col]@.contains_key(state) {
            let col = choose|col: int|
                0 <= col < self.columns@.len() && self.columns@[col] == symbol
                    && self.cells@[col]@.contains_key(state);
            self.cells@[col]@[state]
        } else {
            ParseTableAction::Reject
        }
    }

    /// The symbols for which something was entered, in the order of their
    /// first entry.
    pub open(crate) spec fn symbols(&self) -> Seq<Symbol> {
        self.columns@
    }

    /// The number of states of the automaton that the table was built of.
    pub open(crate) spec fn states(&self) -> usize {
        self.num_states
    }

    /// A table without entries, for `num_states` states.
    pub fn new(num_states: usize) -> (table: Self)
        ensures
            table.wf(),
            table.states() == num_states,
            table.symbols() == Seq::<Symbol>::empty(),
            forall|s: usize, y: Symbol| table.lookup(s, y) == ParseTableAction::Reject,
    {
        ParseTableLR { columns: StringSet::new(), cells: Vec::new(), num_states }
    }

    /// Enters `action` for `state_index` and `symbol`, over what was there.
    pub fn insert_entry(&mut self, state_index: usize, symbol: &str, action: ParseTableAction)
        requires
            old(self).wf(),
        ensures
            final(self).wf(),
            final(self).states() == old(self).states(),
            final(self).symbols() == push_distinct(old(self).symbols(), symbol@),
            forall|s: usize, y: Symbol|
                #[trigger] final(self).lookup(s, y) == if s == state_index && y == symbol@ {
                    action
                } else {
                    old(self).lookup(s, y)
                },
    {
        let ghost before = *self;
        proof {
            lemma_push_distinct(self.columns@, symbol@);
        }
        match self.columns.index_of(symbol) {
            Some(col) => {
                self.cells[col].insert(state_index, action);
                proof {
                    assert(self.columns@ == before.columns@);
                    assert forall|s: usize, y: Symbol|
                        #[trigger] self.lookup(s, y) == if s == state_index && y == symbol@ {
                            action
                        } else {
                            before.lookup(s, y)
                        } by {
                        lemma_lookup(self, s, y);
                        lemma_lookup(&before, s, y);
                        if y == symbol@ {
                            assert(self.cells@[col as int]@ == before.cells@[col as int]@.insert(
                                state_index,
                                action,
                            ));
                        } else if before.columns@.contains(y) {
                            let c = choose|c: int| 0 <= c < before.columns@.len() && before.columns@[c] == y;
                            assert(self.cells@[c] == before.cells@[c]);
                        }
                    }
                }
            },
            None => {
                self.columns.insert(owned(symbol));
                let mut column: HashMap<usize, ParseTableAction> = HashMap::new();
                column.insert(state_index, action);
                self.cells.push(column);
                proof {
                    let last = before.columns@.len() as int;
                    assert(self.columns@ == before.columns@.push(symbol@));
                    assert forall|s: usize, y: Symbol|
                        #[trigger] self.lookup(s, y) == if s == state_index && y == symbol@ {
                            action
                        } else {
                            before.lookup(s, y)
                        } by {
                        lemma_lookup(self, s, y);
                        lemma_lookup(&before, s, y);
                        if y == symbol@ {
                            assert(self.columns@[last] == y);
                        } else if before.columns@.contains(y) {
                            let c = choose|c: int| 0 <= c < before.columns@.len() && before.columns@[c] == y;
                            assert(self.columns@[c] == y);
                            assert(self.cells@[c] == before.cells@[c]);
                        } else {
                            if self.columns@.contains(y) {
                                let c = choose|c: int| 0 <= c < self.columns@.len() && self.columns@[c] == y;
                                assert(c < last);
                                assert(before.columns@[c] == y);
                            }
                        }
                    }
                }
            },
        }
    }

    /// The action in `state_index` on `symbol`; `Reject` where nothing was
    /// entered.
    pub fn get_action(&self, state_index: usize, symbol: &str) -> (action: ParseTableAction)
        requires
            self.wf(),
        ensures
            action == self.lookup(state_index, symbol@),
    {
        proof {
            lemma_lookup(self, state_index, symbol@);
        }
        match self.columns.index_of(symbol) {
            Some(col) => {
                match self.cells[col].get(&state_index) {
                    Some(a) => *a,
                    None => ParseTableAction::Reject,
                }
            },
            None => ParseTableAction::Reject,
        }
    }

    /// Enters the given entries, in their order, over what the table holds.
    pub fn apply_conflict_resolutions(&mut self, resolutions: Vec<ParseTableOverride>)
        requires
            old(self).wf(),
        ensures
            final(self).wf(),
            final(self).states() == old(self).states(),
            forall|s: usize, y: Symbol|
                #[trigger] final(self).lookup(s, y) == overridden(
                    old(self).lookup(s, y),
                    resolutions@,
                    s,
                    y,
                ),
    {
        let mut k: usize = 0;
        while k < resolutions.len()
            invariant
                k <= resolutions@.len(),
                self.wf(),
                self.states() == old(self).states(),
                forall|s: usize, y: Symbol|
                    #[trigger] self.lookup(s, y) == overridden(
                        old(self).lookup(s, y),
                        resolutions@.take(k as int),
                        s,
                        y,
                    ),
            decreases resolutions@.len() - k,
        {
            let r = &resolutions[k];
            proof {
                assert(resolutions@.take(k + 1).drop_last() =~= resolutions@.take(k as int));
            }
            self.insert_entry(r.state, r.symbol.as_str(), r.action);
            k += 1;
        }
        assert(resolutions@.take(resolutions@.len() as int) =~= resolutions@);
    }

    /// Builds the table of the automaton `collection`. State by state: a
    /// state with the accept item accepts on end-of-input, any other state
    /// reduces by each of its final items on the lookahead set that
    /// `strategy` gives for it; then each transition is entered as a shift
    /// or a goto. A later entry for the same state and symbol replaces an
    /// earlier one.
    pub fn from_collection<L: ReduceLookahead>(
        grammar: &Grammar,
        collection: &CanonicalCollectionGraph,
        strategy: &L,
    ) -> (table: ParseTableLR)
        requires
            grammar.wf(),
            collection.wf(grammar),
            strategy.ready(grammar, collection),
        ensures
            table.wf(),
            table.states() == collection.count(),
            forall|s: usize, y: Symbol|
                #[trigger] table.lookup(s, y) == if s < collection.count() {
                    entry(
                        grammar,
                        collection.state_seq(s as int),
                        collection.edges()[s as int],
                        look_of(strategy, grammar, collection, s as int),
                        y,
                    )
                } else {
                    ParseTableAction::Reject
                },
    {
        let count = collection.state_count();
        let mut table = ParseTableLR::new(count);
        let mut i: usize = 0;
        while i < count
            invariant
                grammar.wf(),
                collection.wf(grammar),
                strategy.ready(grammar, collection),
                count == collection.count(),
                i <= count,
                table.wf(),
                table.states() == count,
                forall|s: usize, y: Symbol|
                    #[trigger] table.lookup(s, y) == if s < i {
                        entry(
                            grammar,
                            collection.state_seq(s as int),
                            collection.edges()[s as int],
                            look_of(strategy, grammar, collection, s as int),
                            y,
                        )
                    } else {
                        ParseTableAction::Reject
                    },
            decreases count - i,
        {
            let state = collection.state(grammar, i);
            let ghost items = collection.state_seq(i as int);
            let ghost look = look_of(strategy, grammar, collection, i as int);
            let ghost start = table;
            if state.is_accept(grammar) {
                table.insert_entry(i, EOF, ParseTableAction::Accept);
                proof {
                    assert forall|t: LR0Item| items.contains(t) == state.items().contains(t) by {}
                }
            } else {
                proof {
                    assert forall|t: LR0Item| items.contains(t) == state.items().contains(t) by {}
                }
                let set = state.get_items();
                let mut k: usize = 0;
                while k < set.len()
                    invariant
                        grammar.wf(),
                        collection.wf(grammar),
                        strategy.ready(grammar, collection),
                        i < count == collection.count(),
                        items == collection.state_seq(i as int),
                        set.seq() == items,
                        set@ == collection.states()[i as int],
                        items_valid(grammar, set@),
                        look == look_of(strategy, grammar, collection, i as int),
                        k <= items.len(),
                        table.wf(),
                        table.states() == count,
                        forall|s: usize, y: Symbol|
                            #[trigger] table.lookup(s, y) == if s == i {
                                reduce_action(grammar, items.take(k as int), look, y)
                            } else {
                                start.lookup(s, y)
                            },
                    decreases items.len() - k,
                {
                    let item = set.get(k);
                    proof {
                        assert(items.take(k + 1).drop_last() =~= items.take(k as int));
                        assert(item_valid(grammar@, item));
                    }
                    if item.is_final(grammar) {
                        let terminals = strategy.reduce_lookahead(grammar, collection, &item, i);
                        let ghost mid = table;
                        let mut t: usize = 0;
                        while t < terminals.len()
                            invariant
                                t <= terminals@.len(),
                                table.wf(),
                                table.states() == count,
                                forall|s: usize, y: Symbol|
                                    #[trigger] table.lookup(s, y) == if s == i
                                        && terminals@.take(t as int).contains(y) {
                                        ParseTableAction::Reduce(item.rule_index)
                                    } else {
                                        mid.lookup(s, y)
                                    },
                            decreases terminals@.len() - t,
                        {
                            let ghost prior = table;
                            table.insert_entry(
                                i,
                                terminals.get(t).as_str(),
                                ParseTableAction::Reduce(item.rule_index),
                            );
                            proof {
                                let now = terminals@.take(t + 1);
                                let was = terminals@.take(t as int);
                                assert(now =~= was.push(terminals@[t as int]));
                                assert forall|y: Symbol| now.contains(y) == (was.contains(y) || y
                                    == terminals@[t as int]) by {
                                    if was.contains(y) {
                                        let a = choose|a: int| 0 <= a < was.len() && was[a] == y;
                                        assert(now[a] == y);
                                    }
                                    assert(now[t as int] == terminals@[t as int]);
                                }
                            }
                            t += 1;
                        }
                        proof {
                            assert(terminals@.take(terminals@.len() as int) =~= terminals@);
                        }
                    }
                    k += 1;
                }
                proof {
                    assert(items.take(items.len() as int) =~= items);
                }
            }
            let ghost mid = table;
            let row = collection.edges_from(i);
            let ghost edges = collection.edges()[i as int];
            let mut e: usize = 0;
            while e < row.len()
                invariant
                    i < count,
                    edges == row@.map_values(|x: GraphEdge| x@),
                    e <= row@.len(),
                    table.wf(),
                    table.states() == count,
                    forall|s: usize, y: Symbol|
                        #[trigger] table.lookup(s, y) == if s == i {
                            match edge_action(edges.take(e as int), y) {
                                Some(a) => a,
                                None => mid.lookup(s, y),
                            }
                        } else {
                            mid.lookup(s, y)
                        },
                decreases row@.len() - e,
            {
                let edge = &row[e];
                proof {
                    assert(edges.take(e + 1).drop_last() =~= edges.take(e as int));
                    assert(edges[e as int] == edge@);
                }
                let action = if symbol_is_terminal(edge.symbol.as_str()) {
                    ParseTableAction::Shift(edge.to)
                } else {
                    ParseTableAction::Goto(edge.to)
                };
                table.insert_entry(i, edge.symbol.as_str(), action);
                e += 1;
            }
            proof {
                assert(edges.take(row@.len() as int) =~= edges);
            }
            i += 1;
        }
        table
    }
}

/// The action of a well-formed table in `state` on `symbol` is the entry of
/// the state in the one column of the symbol.
pub(crate) proof fn lemma_lookup(table: &ParseTableLR, state: usize, symbol: Symbol)
    requires
        table.wf(),
    ensures
        forall|col: int|
            0 <= col < table.columns@.len() && table.columns@[col] == symbol ==> table.lookup(
                state,
                symbol,
            ) == if table.cells@[col]@.contains_key(state) {
                table.cells@[col]@[state]
            } else {
                ParseTableAction::Reject
            },
        !table.columns@.contains(symbol) ==> table.lookup(state, symbol) == ParseTableAction::Reject,
{
}

} // verus!
