//! The tables of the three parsers keep terminals and nonterminals apart,
//! so that the leaves of the trees that the parsers build are the tokens of
//! the input.

use vstd::prelude::*;
use crate::fixpoint::lemma_lfp_least;
use crate::grammar::Grammar;
use crate::grammar::display::{skipped_types, types_of};
use crate::grammar::model::{
    first_facts, first_from_rule, first_step, follow_facts, follow_from_rule, follow_step,
    is_terminal, lemma_first_monotone, lemma_follow_monotone, scan_right_terminals, scan_terminals,
    terminals_of, Fact, RuleView, Symbol, EOF,
};
use crate::parsers::items::automaton::EdgeView;
use crate::parsers::items::graph::CanonicalCollectionGraph;
use crate::parsers::items::model::{is_accept, is_final, item_valid, LR0Item};
use crate::parsers::items::shape::is_automaton;
use crate::parsers::lalr1::{lalr_lookahead, offers, GrammarParserLALR1, Lalr};
use crate::parsers::leaves::sorted;
use crate::parsers::lr::inline_input;
use crate::parsers::lr0::{EveryTerminal, GrammarParserLR0};
use crate::parsers::slr1::{follow_of_left, lemma_reduce_action, FollowOfLeft, GrammarParserSLR1};
use crate::parsers::table::{
    edge_action, entry, look_of, reduce_action, state_action, ParseTableAction, ParseTableLR,
    ReduceLookahead,
};

verus! {

/// The terminals met in a right-hand side are terminals, if those met
/// before are.
pub proof fn lemma_scan_right_terminals(acc: Seq<Symbol>, right: Seq<Symbol>)
    requires
        forall|k: int| 0 <= k < acc.len() ==> is_terminal(#[trigger] acc[k]),
    ensures
        forall|k: int|
            0 <= k < scan_right_terminals(acc, right).len() ==> is_terminal(
                #[trigger] scan_right_terminals(acc, right)[k],
            ),
    decreases right.len(),
{
    if right.len() > 0 {
        lemma_scan_right_terminals(acc, right.drop_last());
        let a = scan_right_terminals(acc, right.drop_last());
        let all = scan_right_terminals(acc, right);
        assert forall|k: int| 0 <= k < all.len() implies is_terminal(#[trigger] all[k]) by {
            if k < a.len() {
                assert(all[k] == a[k]);
            }
        }
    }
}

/// Every member of the terminal set of a grammar is a terminal.
pub proof fn lemma_terminals_are_terminal(productions: Seq<RuleView>)
    ensures
        forall|k: int|
            0 <= k < scan_terminals(productions).len() ==> is_terminal(
                #[trigger] scan_terminals(productions)[k],
            ),
        forall|k: int|
            0 <= k < terminals_of(productions).len() ==> is_terminal(
                #[trigger] terminals_of(productions)[k],
            ),
    decreases productions.len(),
{
    if productions.len() > 0 {
        lemma_terminals_are_terminal(productions.drop_last());
        lemma_scan_right_terminals(
            scan_terminals(productions.drop_last()),
            productions.last().right,
        );
    }
    let found = scan_terminals(productions);
    let all = terminals_of(productions);
    assert forall|k: int| 0 <= k < all.len() implies is_terminal(#[trigger] all[k]) by {
        if k < found.len() {
            assert(all[k] == found[k]);
        }
    }
}

/// Every member of a FIRST set is a terminal.
pub proof fn lemma_first_members_terminal(rules: Seq<RuleView>)
    ensures
        forall|f: Fact| #[trigger] first_facts(rules).contains(f) ==> is_terminal(f.1),
{
    let step = first_step(rules);
    let s = Set::new(|f: Fact| is_terminal(f.1));
    lemma_first_monotone(rules);
    let next = step(s);
    assert forall|f: Fact| next.contains(f) implies s.contains(f) by {
        if !is_terminal(f.0) {
            let (i, j) = choose|i: int, j: int|
                0 <= i < rules.len() && (#[trigger] rules[i]).left == f.0
                    && #[trigger] first_from_rule(rules[i].right, s, j, f.1);
            if j < rules[i].right.len() {
                assert(s.contains((rules[i].right[j], f.1)));
            }
        }
    }
    lemma_lfp_least(step, s);
    assert forall|f: Fact| #[trigger] first_facts(rules).contains(f) implies is_terminal(f.1) by {
        assert(s.contains(f));
    }
}

/// Every member of a FOLLOW set is a terminal.
pub proof fn lemma_follow_members_terminal(rules: Seq<RuleView>, start: Symbol)
    ensures
        forall|f: Fact| #[trigger] follow_facts(rules, start).contains(f) ==> is_terminal(f.1),
{
    let step = follow_step(rules, start);
    let s = Set::new(|f: Fact| is_terminal(f.1));
    lemma_follow_monotone(rules, start);
    lemma_first_members_terminal(rules);
    let next = step(s);
    assert forall|f: Fact| next.contains(f) implies s.contains(f) by {
        if !(f.0 == start && f.1 == EOF@) {
            let (i, p, j) = choose|i: int, p: int, j: int|
                0 <= i < rules.len() && 0 <= p < rules[i].right.len() && (
                #[trigger] rules[i]).right[p] == f.0 && #[trigger] follow_from_rule(
                    rules,
                    s,
                    i,
                    p,
                    j,
                    f.1,
                );
            if j < rules[i].right.len() {
                assert(first_facts(rules).contains((rules[i].right[j], f.1)));
            } else {
                assert(s.contains((rules[i].left, f.1)));
            }
        }
    }
    lemma_lfp_least(step, s);
    assert forall|f: Fact| #[trigger] follow_facts(rules, start).contains(f) implies is_terminal(
        f.1,
    ) by {
        assert(s.contains(f));
    }
}

/// The action of a transition is a shift on a terminal and a goto on a
/// nonterminal.
pub proof fn lemma_edge_action(edges: Seq<EdgeView>, y: Symbol)
    ensures
        edge_action(edges, y) matches Some(a) ==> if is_terminal(y) {
            a is Shift
        } else {
            a is Goto
        },
    decreases edges.len(),
{
    if edges.len() > 0 && edges.last().symbol != y {
        lemma_edge_action(edges.drop_last(), y);
    }
}

/// Every lookahead set of `look` holds terminals only.
pub open spec fn looks_at_terminals(look: spec_fn(LR0Item) -> Set<Symbol>) -> bool {
    forall|t: LR0Item, x: Symbol| #[trigger] look(t).contains(x) ==> is_terminal(x)
}

/// The entry of a state keeps terminals and nonterminals apart, if the
/// lookahead sets hold terminals only.
pub proof fn lemma_entry_sorted(
    grammar: &Grammar,
    items: Seq<LR0Item>,
    edges: Seq<EdgeView>,
    look: spec_fn(LR0Item) -> Set<Symbol>,
    y: Symbol,
)
    requires
        grammar.wf(),
        forall|k: int| 0 <= k < items.len() ==> item_valid(grammar@, #[trigger] items[k]),
        looks_at_terminals(look),
    ensures
        is_terminal(y) ==> !(entry(grammar, items, edges, look, y) is Goto),
        !is_terminal(y) ==> entry(grammar, items, edges, look, y) is Goto || entry(
            grammar,
            items,
            edges,
            look,
            y,
        ) is Reject,
        entry(grammar, items, edges, look, y) matches ParseTableAction::Reduce(r) ==> 1 <= r
            < grammar@.len(),
{
    lemma_edge_action(edges, y);
    let e = entry(grammar, items, edges, look, y);
    if edge_action(edges, y) is None {
        assert(e == state_action(grammar, items, look, y));
        if !(exists|t: LR0Item| items.contains(t) && is_accept(t)) {
            match reduce_action(grammar, items, look, y) {
                ParseTableAction::Reduce(r) => {
                    lemma_reduce_action(grammar, items, look, y, r);
                    let k = choose|k: int|
                        0 <= k < items.len() && (#[trigger] items[k]).rule_index == r && is_final(
                            grammar@,
                            items[k],
                        ) && look(items[k]).contains(y);
                    assert(item_valid(grammar@, items[k]));
                    if r == 0 {
                        assert(grammar@[0].right =~= seq![grammar@[1].left]);
                        assert(grammar@[0].right[0] == grammar@[1].left);
                        assert(items[k].dot_index == 1);
                        assert(is_accept(items[k]));
                        assert(items.contains(items[k]));
                    }
                },
                other => {
                    lemma_reduce_other(grammar, items, look, y);
                },
            }
        }
    }
}

/// Among the items of a state the table finds a reduction or nothing.
pub proof fn lemma_reduce_other(
    grammar: &Grammar,
    items: Seq<LR0Item>,
    look: spec_fn(LR0Item) -> Set<Symbol>,
    y: Symbol,
)
    ensures
        reduce_action(grammar, items, look, y) is Reduce || reduce_action(grammar, items, look, y) is Reject,
    decreases items.len(),
{
    if items.len() > 0 {
        lemma_reduce_other(grammar, items.drop_last(), look, y);
    }
}

/// The names of the token types of a grammar are names of terminals.
pub proof fn lemma_types_named_after_terminals(patterns: Seq<RuleView>, terminals: Seq<Symbol>, ruled: bool)
    requires
        forall|k: int| 0 <= k < terminals.len() ==> is_terminal(#[trigger] terminals[k]),
    ensures
        forall|i: int|
            0 <= i < types_of(patterns, terminals, ruled).len() ==> is_terminal(
                (#[trigger] types_of(patterns, terminals, ruled)[i]).name,
            ),
    decreases terminals.len(),
{
    if terminals.len() > 0 {
        let rest = terminals.drop_last();
        assert forall|k: int| 0 <= k < rest.len() implies is_terminal(#[trigger] rest[k]) by {
            assert(rest[k] == terminals[k]);
        }
        lemma_types_named_after_terminals(patterns, rest, ruled);
        assert(is_terminal(terminals[terminals.len() - 1]));
        let fewer = types_of(patterns, rest, ruled);
        let all = types_of(patterns, terminals, ruled);
        assert forall|i: int| 0 <= i < all.len() implies is_terminal((#[trigger] all[i]).name) by {
            if i < fewer.len() {
                assert(all[i] == fewer[i]);
            }
        }
    }
}

/// A table that holds for each state the entries of its items and
/// transitions, with lookahead sets of terminals, is well sorted for the
/// token types of the grammar.
pub proof fn lemma_table_sorted<L: ReduceLookahead>(
    table: &ParseTableLR,
    grammar: &Grammar,
    collection: &CanonicalCollectionGraph,
    strategy: &L,
    text: Seq<char>,
)
    requires
        grammar.wf(),
        collection.wf(grammar),
        forall|s: int|
            0 <= s < collection.count() ==> looks_at_terminals(
                #[trigger] look_of(strategy, grammar, collection, s),
            ),
        forall|s: usize, y: Symbol|
            #[trigger] table.lookup(s, y) == if s < collection.count() {
                entry(
                    grammar,
                    collection.state_seq(s as int),
                    collection.edges()[s as int],
                    look_of(strategy, grammar, collection, s as int),
                    y,
                )
            } else {
                ParseTableAction::Reject
            },
    ensures
        sorted(table, grammar, inline_input(grammar, text)),
{
    let input = inline_input(grammar, text);
    assert forall|s: usize, y: Symbol|
        (is_terminal(y) ==> !((#[trigger] table.lookup(s, y)) is Goto)) && (!is_terminal(y)
            ==> table.lookup(s, y) is Goto || table.lookup(s, y) is Reject) && (table.lookup(
            s,
            y,
        ) is Reduce && table.lookup(s, y)->Reduce_0 < grammar@.len() ==> !is_terminal(
            grammar@[table.lookup(s, y)->Reduce_0 as int].left,
        )) by {
        if s < collection.count() {
            let items = collection.state_seq(s as int);
            assert forall|k: int| 0 <= k < items.len() implies item_valid(
                grammar@,
                #[trigger] items[k],
            ) by {
                assert(items.to_set().contains(items[k]));
                assert(collection.states()[s as int].contains(items[k]));
            }
            lemma_entry_sorted(
                grammar,
                items,
                collection.edges()[s as int],
                look_of(strategy, grammar, collection, s as int),
                y,
            );
        }
    }
    let terminals = terminals_of(grammar.productions());
    lemma_terminals_are_terminal(grammar.productions());
    lemma_types_named_after_terminals(grammar.patterns(), terminals, false);
    lemma_types_named_after_terminals(grammar.patterns(), terminals, true);
    let skip = skipped_types();
    let plain = types_of(grammar.patterns(), terminals, false);
    let ruled = types_of(grammar.patterns(), terminals, true);
    assert(input.types == skip + plain + ruled);
    assert forall|i: int|
        0 <= i < input.types.len() && (#[trigger] input.types[i]).name.len() > 0 implies is_terminal(
        input.types[i].name,
    ) by {
        if i < 3 {
            assert(input.types[i] == skip[i]);
        } else if i < 3 + plain.len() {
            assert(input.types[i] == plain[i - 3]);
        } else {
            assert(input.types[i] == ruled[i - 3 - plain.len()]);
        }
    }
}

/// The first item of the augmented rule.
pub open spec fn first_item() -> LR0Item {
    LR0Item { rule_index: 0, dot_index: 0 }
}

/// The table holds, for each state of the automaton of the grammar, the
/// entries of its items and transitions under `strategy`, whose lookahead
/// sets hold terminals only.
pub open spec fn built<L: ReduceLookahead>(
    table: &ParseTableLR,
    grammar: &Grammar,
    collection: &CanonicalCollectionGraph,
    strategy: &L,
) -> bool {
    &&& grammar.wf()
    &&& collection.wf(grammar)
    &&& is_automaton(grammar@, first_item(), collection.states(), collection.edges())
    &&& forall|s: int|
        0 <= s < collection.count() ==> looks_at_terminals(
            #[trigger] look_of(strategy, grammar, collection, s),
        )
    &&& forall|s: usize, y: Symbol|
        #[trigger] table.lookup(s, y) == if s < collection.count() {
            entry(
                grammar,
                collection.state_seq(s as int),
                collection.edges()[s as int],
                look_of(strategy, grammar, collection, s as int),
                y,
            )
        } else {
            ParseTableAction::Reject
        }
}

/// The table of the LR(0) parser is built of its automaton, and its
/// lookahead sets hold terminals only.
pub proof fn lemma_lr0_built(parser: &GrammarParserLR0, grammar: &Grammar)
    requires
        grammar.wf(),
        parser.wf(grammar),
    ensures
        built(&parser.parse_table(), grammar, &parser.automaton(), &EveryTerminal),
{
    let c = parser.automaton();
    lemma_terminals_are_terminal(grammar.productions());
    assert forall|s: int| 0 <= s < c.count() implies looks_at_terminals(
        #[trigger] look_of(&EveryTerminal, grammar, &c, s),
    ) by {
        let look = look_of(&EveryTerminal, grammar, &c, s);
        assert forall|t: LR0Item, x: Symbol| #[trigger] look(t).contains(x) implies is_terminal(
            x,
        ) by {
            let all = terminals_of(grammar.productions());
            assert(all.contains(x));
            let k = choose|k: int| 0 <= k < all.len() && all[k] == x;
            assert(is_terminal(all[k]));
        }
    }
}

/// The table of the SLR(1) parser is built of its automaton, and its
/// lookahead sets hold terminals only.
pub proof fn lemma_slr1_built(parser: &GrammarParserSLR1, grammar: &Grammar)
    requires
        grammar.wf(),
        parser.wf(grammar),
    ensures
        built(&parser.parse_table(), grammar, &parser.automaton(), &FollowOfLeft),
{
    let c = parser.automaton();
    lemma_follow_members_terminal(grammar@, grammar.start());
    assert forall|s: int| 0 <= s < c.count() implies looks_at_terminals(
        #[trigger] look_of(&FollowOfLeft, grammar, &c, s),
    ) by {
        let look = look_of(&FollowOfLeft, grammar, &c, s);
        assert forall|t: LR0Item, x: Symbol| #[trigger] look(t).contains(x) implies is_terminal(
            x,
        ) by {
            assert(follow_of_left(grammar, t.rule_index as int).contains(x));
            assert(follow_facts(grammar@, grammar.start()).contains(
                (grammar@[t.rule_index as int].left, x),
            ));
        }
    }
}

/// The table of the LALR(1) parser is built of its automaton, and its
/// lookahead sets hold terminals only.
pub proof fn lemma_lalr1_built(parser: &GrammarParserLALR1, grammar: &Grammar)
    requires
        grammar.wf(),
        parser.wf(grammar),
    ensures
        built(&parser.parse_table(), grammar, &parser.automaton(), &Lalr),
{
    let c = parser.automaton();
    assert forall|s: int| 0 <= s < c.count() implies looks_at_terminals(
        #[trigger] look_of(&Lalr, grammar, &c, s),
    ) by {
        let look = look_of(&Lalr, grammar, &c, s);
        assert forall|t: LR0Item, x: Symbol| #[trigger] look(t).contains(x) implies is_terminal(
            x,
        ) by {
            assert(lalr_lookahead(grammar, &c, s, t).contains(x));
            let q = choose|q: int| #[trigger] offers(grammar, &c, q, x);
        }
    }
}

/// The table of the LR(0) parser is well sorted.
pub proof fn lemma_lr0_sorted(parser: &GrammarParserLR0, grammar: &Grammar, text: Seq<char>)
    requires
        grammar.wf(),
        parser.wf(grammar),
    ensures
        sorted(&parser.parse_table(), grammar, inline_input(grammar, text)),
{
    lemma_lr0_built(parser, grammar);
    lemma_table_sorted(&parser.parse_table(), grammar, &parser.automaton(), &EveryTerminal, text);
}

/// The table of the SLR(1) parser is well sorted.
pub proof fn lemma_slr1_sorted(parser: &GrammarParserSLR1, grammar: &Grammar, text: Seq<char>)
    requires
        grammar.wf(),
        parser.wf(grammar),
    ensures
        sorted(&parser.parse_table(), grammar, inline_input(grammar, text)),
{
    lemma_slr1_built(parser, grammar);
    lemma_table_sorted(&parser.parse_table(), grammar, &parser.automaton(), &FollowOfLeft, text);
}

/// The table of the LALR(1) parser is well sorted.
pub proof fn lemma_lalr1_sorted(parser: &GrammarParserLALR1, grammar: &Grammar, text: Seq<char>)
    requires
        grammar.wf(),
        parser.wf(grammar),
    ensures
        sorted(&parser.parse_table(), grammar, inline_input(grammar, text)),
{
    lemma_lalr1_built(parser, grammar);
    lemma_table_sorted(&parser.parse_table(), grammar, &parser.automaton(), &Lalr, text);
}

} // verus!
