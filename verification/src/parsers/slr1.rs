//! The SLR(1) parser: a reduction is entered on the terminals that follow
//! the left-hand side of its rule.

use vstd::prelude::*;
use crate::grammar::Grammar;
use crate::grammar::model::{follow_set, scan_nonterminals, Symbol};
use crate::parsers::items::automaton::is_collection;
use crate::parsers::items::graph::CanonicalCollectionGraph;
use crate::parsers::items::model::{is_final, item_valid, LR0Item};
use crate::parsers::items::shape::is_automaton;
use crate::parsers::lr::GrammarParserLR;
use crate::parsers::sorted::lemma_edge_action;
use crate::parsers::table::{
    entry, look_of, overridden, reduce_action, ParseTableAction, ParseTableLR, ParseTableOverride,
    ReduceLookahead,
};
use crate::text::StringSet;

verus! {

/// The SLR(1) strategy: the lookahead set of an item is the FOLLOW set of
/// the left-hand side of its rule.
pub struct FollowOfLeft;

/// The FOLLOW set of the left-hand side of rule `r`, as the grammar gives
/// it: empty for a symbol that is none of its nonterminals.
pub open spec fn follow_of_left(grammar: &Grammar, r: int) -> Set<Symbol> {
    if scan_nonterminals(grammar.productions()).contains(grammar@[r].left) {
        follow_set(grammar@, grammar.start(), grammar@[r].left)
    } else {
        Set::empty()
    }
}

impl ReduceLookahead for FollowOfLeft {
    open spec fn ready(&self, grammar: &Grammar, collection: &CanonicalCollectionGraph) -> bool {
        true
    }

    open spec fn lookahead(
        &self,
        grammar: &Grammar,
        collection: &CanonicalCollectionGraph,
        state: int,
        item: LR0Item,
    ) -> Set<Symbol> {
        follow_of_left(grammar, item.rule_index as int)
    }

    fn reduce_lookahead(
        &self,
        grammar: &Grammar,
        collection: &CanonicalCollectionGraph,
        item: &LR0Item,
        state_index: usize,
    ) -> (set: StringSet) {
        assert(crate::parsers::items::model::item_valid(grammar@, *item));
        let rule = grammar.get_rule(item.rule_index);
        match grammar.follow_of(rule.left.as_str()) {
            Some(set) => set,
            None => {
                let set = StringSet::new();
                assert(set@.to_set() =~= Set::<Symbol>::empty());
                set
            },
        }
    }
}

/// The SLR(1) parser of a grammar: its automaton and its table.
pub struct GrammarParserSLR1 {
    pub(crate) collection: CanonicalCollectionGraph,
    pub(crate) table: ParseTableLR,
}

impl GrammarParserSLR1 {
    /// The automaton and the table belong to `grammar`: the automaton is
    /// the canonical collection from the first item of the augmented rule,
    /// the table is built of it with the SLR(1) strategy.
    pub open(crate) spec fn wf(&self, grammar: &Grammar) -> bool {
        &&& self.collection.wf(grammar)
        &&& is_collection(
            grammar@,
            LR0Item { rule_index: 0, dot_index: 0 },
            self.collection.states(),
            self.collection.edges(),
        )
        &&& is_automaton(
            grammar@,
            LR0Item { rule_index: 0, dot_index: 0 },
            self.collection.states(),
            self.collection.edges(),
        )
        &&& self.table.wf()
        &&& self.table.states() == self.collection.count()
        &&& forall|s: usize, y: Symbol|
            #[trigger] self.table.lookup(s, y) == if s < self.collection.count() {
                entry(
                    grammar,
                    self.collection.state_seq(s as int),
                    self.collection.edges()[s as int],
                    look_of(&FollowOfLeft, grammar, &self.collection, s as int),
                    y,
                )
            } else {
                ParseTableAction::Reject
            }
    }

    /// Builds the automaton of `grammar` and its SLR(1) table.
    pub fn from_grammar(grammar: &Grammar) -> (parser: Self)
        requires
            grammar.wf(),
        ensures
            parser.wf(grammar),
            parser.table_of() == parser.parse_table(),
    {
        let collection = CanonicalCollectionGraph::new(grammar, LR0Item::new(0, 0));
        let table = ParseTableLR::from_collection(grammar, &collection, &FollowOfLeft);
        GrammarParserSLR1 { collection, table }
    }

    /// The parser with `table` in place of its own: the way to put a table
    /// with overrides to work.
    pub fn with_table(parser: Self, table: ParseTableLR) -> (changed: Self)
        ensures
            changed.parse_table() == table,
            changed.table_of() == table,
            changed.automaton() == parser.automaton(),
    {
        GrammarParserSLR1 { collection: parser.collection, table }
    }

    /// Enters `resolutions` in the table of the parser, over what it holds.
    pub fn apply_conflict_resolutions(&mut self, resolutions: Vec<ParseTableOverride>)
        requires
            old(self).parse_table().wf(),
        ensures
            final(self).parse_table().wf(),
            final(self).table_of() == final(self).parse_table(),
            final(self).automaton() == old(self).automaton(),
            final(self).parse_table().states() == old(self).parse_table().states(),
            forall|s: usize, y: Symbol|
                #[trigger] final(self).parse_table().lookup(s, y) == overridden(
                    old(self).parse_table().lookup(s, y),
                    resolutions@,
                    s,
                    y,
                ),
    {
        self.table.apply_conflict_resolutions(resolutions);
    }

    /// The automaton of the parser.
    pub fn get_collection(&self) -> (collection: &CanonicalCollectionGraph)
        ensures
            *collection == self.automaton(),
    {
        &self.collection
    }

    /// The table of the parser.
    pub open(crate) spec fn parse_table(&self) -> ParseTableLR {
        self.table
    }

    /// The automaton of the parser.
    pub open(crate) spec fn automaton(&self) -> CanonicalCollectionGraph {
        self.collection
    }

}

/// A reduction among the items of a state is by the rule of a final item
/// whose lookahead set holds the symbol.
pub proof fn lemma_reduce_action(
    grammar: &Grammar,
    items: Seq<LR0Item>,
    look: spec_fn(LR0Item) -> Set<Symbol>,
    symbol: Symbol,
    r: usize,
)
    requires
        reduce_action(grammar, items, look, symbol) == ParseTableAction::Reduce(r),
    ensures
        exists|k: int|
            0 <= k < items.len() && (#[trigger] items[k]).rule_index == r && is_final(
                grammar@,
                items[k],
            ) && look(items[k]).contains(symbol),
    decreases items.len(),
{
    if items.len() > 0 {
        if is_final(grammar@, items.last()) && look(items.last()).contains(symbol) {
            assert(items[items.len() - 1].rule_index == r);
        } else {
            lemma_reduce_action(grammar, items.drop_last(), look, symbol, r);
            let k = choose|k: int|
                0 <= k < items.drop_last().len() && (#[trigger] items.drop_last()[k]).rule_index
                    == r && is_final(grammar@, items.drop_last()[k]) && look(
                    items.drop_last()[k],
                ).contains(symbol);
            assert(items[k] == items.drop_last()[k]);
        }
    }
}

/// Every reduction that the SLR(1) strategy makes a state enter is on a
/// terminal of the FOLLOW set of the left-hand side of the reduced rule.
pub proof fn lemma_slr_reduces_within_follow(
    grammar: &Grammar,
    collection: &CanonicalCollectionGraph,
    state: int,
    symbol: Symbol,
    r: usize,
)
    requires
        0 <= state < collection.count(),
        reduce_action(
            grammar,
            collection.state_seq(state),
            look_of(&FollowOfLeft, grammar, collection, state),
            symbol,
        ) == ParseTableAction::Reduce(r),
    ensures
        follow_set(grammar@, grammar.start(), grammar@[r as int].left).contains(symbol),
{
    let look = look_of(&FollowOfLeft, grammar, collection, state);
    lemma_reduce_action(grammar, collection.state_seq(state), look, symbol, r);
}

/// Every reduction that the table of the SLR(1) parser holds stands in a
/// state of the automaton that holds a final item of the reduced rule, on
/// a terminal of the FOLLOW set of the left-hand side of that rule, which
/// is a nonterminal of the grammar.
pub proof fn lemma_slr_table_reduces_within_follow(
    parser: &GrammarParserSLR1,
    grammar: &Grammar,
    state: usize,
    symbol: Symbol,
    r: usize,
)
    requires
        grammar.wf(),
        parser.wf(grammar),
        parser.table_of().lookup(state, symbol) == ParseTableAction::Reduce(r),
    ensures
        state < parser.automaton().count(),
        r < grammar@.len(),
        exists|t: LR0Item|
            #![trigger parser.automaton().states()[state as int].contains(t)]
            parser.automaton().states()[state as int].contains(t) && t.rule_index == r && is_final(
                grammar@,
                t,
            ),
        scan_nonterminals(grammar.productions()).contains(grammar@[r as int].left),
        follow_set(grammar@, grammar.start(), grammar@[r as int].left).contains(symbol),
{
    let c = parser.automaton();
    let items = c.state_seq(state as int);
    let look = look_of(&FollowOfLeft, grammar, &c, state as int);
    lemma_edge_action(c.edges()[state as int], symbol);
    lemma_reduce_action(grammar, items, look, symbol, r);
    let k = choose|k: int|
        0 <= k < items.len() && (#[trigger] items[k]).rule_index == r && is_final(
            grammar@,
            items[k],
        ) && look(items[k]).contains(symbol);
    assert(items.to_set().contains(items[k]));
    assert(c.states()[state as int].contains(items[k]));
    assert(item_valid(grammar@, items[k]));
    assert(follow_of_left(grammar, r as int).contains(symbol));
}

impl GrammarParserLR for GrammarParserSLR1 {
    open(crate) spec fn table_of(&self) -> ParseTableLR {
        self.table
    }

    fn get_parse_table(&self) -> (table: &ParseTableLR) {
        &self.table
    }
}

} // verus!
