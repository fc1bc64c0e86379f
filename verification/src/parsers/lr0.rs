//! The LR(0) parser: reductions are entered on every terminal.

use vstd::prelude::*;
use crate::grammar::Grammar;
use crate::grammar::model::{terminals_of, Symbol};
use crate::parsers::items::automaton::is_collection;
use crate::parsers::items::graph::CanonicalCollectionGraph;
use crate::parsers::items::model::LR0Item;
use crate::parsers::items::shape::is_automaton;
use crate::parsers::lr::GrammarParserLR;
use crate::parsers::table::{entry, look_of, ParseTableAction, ParseTableLR, ReduceLookahead};
use crate::text::StringSet;

verus! {

/// The LR(0) strategy: the lookahead set of every item is the whole
/// terminal set.
pub struct EveryTerminal;

impl ReduceLookahead for EveryTerminal {
    open spec fn ready(&self, grammar: &Grammar, collection: &CanonicalCollectionGraph) -> bool {
        true
    }

    open spec fn lookahead(
        &self,
        grammar: &Grammar,
        collection: &CanonicalCollectionGraph,
        state: int,
        item: LR0Item,
    ) -> Set<Symbol> {
        terminals_of(grammar.productions()).to_set()
    }

    fn reduce_lookahead(
        &self,
        grammar: &Grammar,
        collection: &CanonicalCollectionGraph,
        item: &LR0Item,
        state_index: usize,
    ) -> (set: StringSet) {
        grammar.get_terminals().clone_set()
    }
}

/// The LR(0) parser of a grammar: its automaton and its table.
pub struct GrammarParserLR0 {
    pub(crate) collection: CanonicalCollectionGraph,
    pub(crate) table: ParseTableLR,
}

impl GrammarParserLR0 {
    /// The automaton and the table belong to `grammar`: the automaton is
    /// the canonical collection from the first item of the augmented rule,
    /// the table is built of it with the LR(0) strategy.
    pub open(crate) spec fn wf(&self, grammar: &Grammar) -> bool {
        &&& self.collection.wf(grammar)
        &&& is_collection(
            grammar@,
            LR0Item { rule_index: 0, dot_index: 0 },
            self.collection.states(),
            self.collection.edges(),
        )
        &&& is_automaton(
            grammar@,
            LR0Item { rule_index: 0, dot_index: 0 },
            self.collection.states(),
            self.collection.edges(),
        )
        &&& self.table.wf()
        &&& self.table.states() == self.collection.count()
        &&& forall|s: usize, y: Symbol|
            #[trigger] self.table.lookup(s, y) == if s < self.collection.count() {
                entry(
                    grammar,
                    self.collection.state_seq(s as int),
                    self.collection.edges()[s as int],
                    look_of(&EveryTerminal, grammar, &self.collection, s as int),
                    y,
                )
            } else {
                ParseTableAction::Reject
            }
    }

    /// Builds the automaton of `grammar` and its LR(0) table.
    pub fn from_grammar(grammar: &Grammar) -> (parser: Self)
        requires
            grammar.wf(),
        ensures
            parser.wf(grammar),
            parser.table_of() == parser.parse_table(),
    {
        let collection = CanonicalCollectionGraph::new(grammar, LR0Item::new(0, 0));
        let table = ParseTableLR::from_collection(grammar, &collection, &EveryTerminal);
        GrammarParserLR0 { collection, table }
    }

    /// The table of the parser.
    pub open(crate) spec fn parse_table(&self) -> ParseTableLR {
        self.table
    }

    /// The automaton of the parser.
    pub open(crate) spec fn automaton(&self) -> CanonicalCollectionGraph {
        self.collection
    }


    /// The automaton of the parser.
    pub fn get_collection(&self) -> (collection: &CanonicalCollectionGraph)
        ensures
            *collection == self.automaton(),
    {
        &self.collection
    }
}

impl GrammarParserLR for GrammarParserLR0 {
    open(crate) spec fn table_of(&self) -> ParseTableLR {
        self.table
    }

    fn get_parse_table(&self) -> (table: &ParseTableLR) {
        &self.table
    }
}

} // verus!
