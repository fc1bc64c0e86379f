//! The LR(0) parser and the SLR(1) parser accept the sentences of a
//! grammar whose table has no conflicts, and the tree that they hand out
//! holds the input.

use vstd::prelude::*;
use crate::grammar::Grammar;
use crate::grammar::derivation::Derivation;
use crate::grammar::display::{skipped_types, types_of};
use crate::grammar::model::{
    follow_facts, scan_nonterminals, scan_right_nonterminals, scan_right_terminals, scan_terminals,
    terminals_of, RuleView, Symbol, EOF, EPSILON,
};
use crate::parsers::accepts::{
    holds_input, lemma_lr0_tree_holds_input, lemma_slr1_tree_holds_input, start_unused,
};
use crate::parsers::complete::{
    conflict_free, lemma_followed_sentence_parsed, lemma_markers_differ, plainly_named,
    reduces_where_followed, sentence, stopped, token_kind,
};
use crate::parsers::items::graph::CanonicalCollectionGraph;
use crate::parsers::items::model::LR0Item;
use crate::parsers::lr::{inline_input, parsed, Input};
use crate::parsers::lr0::{EveryTerminal, GrammarParserLR0};
use crate::parsers::slr1::{follow_of_left, FollowOfLeft, GrammarParserSLR1};
use crate::parsers::sorted::{lemma_lr0_built, lemma_slr1_built, lemma_terminals_are_terminal};
use crate::parsers::table::ReduceLookahead;
use crate::text::push_distinct;
use crate::tokenizer::error::SyntaxError;

verus! {

/// Epsilon is not among the terminals met in a right-hand side, if it is
/// not among those met before.
proof fn lemma_scan_right_plain(acc: Seq<Symbol>, right: Seq<Symbol>)
    requires
        forall|k: int| 0 <= k < acc.len() ==> #[trigger] acc[k] != EPSILON@,
    ensures
        forall|k: int|
            0 <= k < scan_right_terminals(acc, right).len() ==> #[trigger] scan_right_terminals(
                acc,
                right,
            )[k] != EPSILON@,
    decreases right.len(),
{
    if right.len() > 0 {
        lemma_scan_right_plain(acc, right.drop_last());
        let a = scan_right_terminals(acc, right.drop_last());
        let all = scan_right_terminals(acc, right);
        assert forall|k: int| 0 <= k < all.len() implies #[trigger] all[k] != EPSILON@ by {
            if k < a.len() {
                assert(all[k] == a[k]);
            }
        }
    }
}

/// Epsilon is not in the terminal set of a grammar.
pub proof fn lemma_terminals_plain(productions: Seq<RuleView>)
    ensures
        forall|k: int|
            0 <= k < scan_terminals(productions).len() ==> #[trigger] scan_terminals(
                productions,
            )[k] != EPSILON@,
        forall|k: int|
            0 <= k < terminals_of(productions).len() ==> #[trigger] terminals_of(productions)[k]
                != EPSILON@,
    decreases productions.len(),
{
    lemma_markers_differ();
    if productions.len() > 0 {
        lemma_terminals_plain(productions.drop_last());
        lemma_scan_right_plain(scan_terminals(productions.drop_last()), productions.last().right);
    }
    let found = scan_terminals(productions);
    let all = terminals_of(productions);
    assert forall|k: int| 0 <= k < all.len() implies #[trigger] all[k] != EPSILON@ by {
        if k < found.len() {
            assert(all[k] == found[k]);
        }
    }
}

/// The token types of terminals are named after these terminals.
pub proof fn lemma_types_among_terminals(patterns: Seq<RuleView>, terminals: Seq<Symbol>, ruled: bool)
    ensures
        forall|i: int|
            0 <= i < types_of(patterns, terminals, ruled).len() ==> terminals.contains(
                (#[trigger] types_of(patterns, terminals, ruled)[i]).name,
            ),
    decreases terminals.len(),
{
    if terminals.len() > 0 {
        let rest = terminals.drop_last();
        lemma_types_among_terminals(patterns, rest, ruled);
        let fewer = types_of(patterns, rest, ruled);
        let all = types_of(patterns, terminals, ruled);
        assert forall|i: int| 0 <= i < all.len() implies terminals.contains(
            (#[trigger] all[i]).name,
        ) by {
            if i < fewer.len() {
                assert(all[i] == fewer[i]);
                let k = choose|k: int| 0 <= k < rest.len() && rest[k] == fewer[i].name;
                assert(terminals[k] == rest[k]);
            } else {
                assert(all[i].name == terminals[terminals.len() - 1]);
            }
        }
    }
}

/// The token types of a grammar are named after its terminals, and every
/// kind of token that the tokenizer can find with them is one of the
/// terminals of the grammar.
pub proof fn lemma_inline_input_plain(grammar: &Grammar, text: Seq<char>)
    ensures
        plainly_named(inline_input(grammar, text)),
        forall|t: Symbol| #[trigger]
            token_kind(inline_input(grammar, text), t) ==> terminals_of(
                grammar.productions(),
            ).contains(t),
{
    let input = inline_input(grammar, text);
    let terminals = terminals_of(grammar.productions());
    let patterns = grammar.patterns();
    let plain = types_of(patterns, terminals, false);
    let ruled = types_of(patterns, terminals, true);
    lemma_terminals_are_terminal(grammar.productions());
    lemma_terminals_plain(grammar.productions());
    lemma_types_among_terminals(patterns, terminals, false);
    lemma_types_among_terminals(patterns, terminals, true);
    assert(input.types == skipped_types() + plain + ruled);
    assert forall|i: int| 0 <= i < input.types.len() && (#[trigger] input.types[i]).name.len()
        > 0 implies terminals.contains(input.types[i].name) by {
        if i < 3 {
            assert(input.types[i] == skipped_types()[i]);
        } else if i < 3 + plain.len() {
            assert(input.types[i] == plain[i - 3]);
        } else {
            assert(input.types[i] == ruled[i - 3 - plain.len()]);
        }
    }
    assert forall|i: int| 0 <= i < input.types.len() && (#[trigger] input.types[i]).name.len()
        > 0 implies crate::grammar::model::is_terminal(input.types[i].name) && input.types[i].name
        != EPSILON@ by {
        let k = choose|k: int| 0 <= k < terminals.len() && terminals[k] == input.types[i].name;
    }
    let found = scan_terminals(grammar.productions());
    assert(terminals.contains(EOF@)) by {
        if found.contains(EOF@) {
        } else {
            assert(terminals[terminals.len() - 1] == EOF@);
        }
    }
}

/// What was met before is still there after a right-hand side was scanned.
proof fn lemma_scan_right_keeps(acc: Seq<Symbol>, right: Seq<Symbol>, x: Symbol)
    requires
        acc.contains(x),
    ensures
        scan_right_nonterminals(acc, right).contains(x),
    decreases right.len(),
{
    if right.len() > 0 {
        lemma_scan_right_keeps(acc, right.drop_last(), x);
        let a = scan_right_nonterminals(acc, right.drop_last());
        let k = choose|k: int| 0 <= k < a.len() && a[k] == x;
        let all = scan_right_nonterminals(acc, right);
        assert(all[k] == x);
    }
}

/// The left-hand side of every production is among the nonterminals of
/// the grammar.
pub proof fn lemma_lefts_scanned(productions: Seq<RuleView>, i: int)
    requires
        0 <= i < productions.len(),
    ensures
        scan_nonterminals(productions).contains(productions[i].left),
    decreases productions.len(),
{
    let before = scan_nonterminals(productions.drop_last());
    let left = productions.last().left;
    let with_left = push_distinct(before, left);
    if i == productions.len() - 1 {
        if before.contains(left) {
        } else {
            assert(with_left[with_left.len() - 1] == left);
        }
        lemma_scan_right_keeps(with_left, productions.last().right, left);
    } else {
        lemma_lefts_scanned(productions.drop_last(), i);
        let x = productions[i].left;
        assert(productions.drop_last()[i] == productions[i]);
        let k = choose|k: int| 0 <= k < before.len() && before[k] == x;
        assert(with_left[k] == x);
        lemma_scan_right_keeps(with_left, productions.last().right, x);
    }
}

/// The SLR(1) strategy reduces wherever a token follows the left-hand
/// side.
pub proof fn lemma_slr1_reduces_where_followed(
    grammar: &Grammar,
    collection: &CanonicalCollectionGraph,
    input: Input,
)
    requires
        grammar.wf(),
    ensures
        reduces_where_followed(&FollowOfLeft, grammar, collection, input),
{
    let strategy = FollowOfLeft;
    assert forall|s: int, item: LR0Item, t: Symbol|
        1 <= item.rule_index < grammar@.len() && follow_facts(grammar@, grammar.start()).contains(
            (grammar@[item.rule_index as int].left, t),
        ) implies #[trigger] strategy.lookahead(grammar, collection, s, item).contains(t) by {
        let i = item.rule_index as int;
        lemma_lefts_scanned(grammar.productions(), i - 1);
        assert(grammar.productions()[i - 1] == grammar@[i]);
        assert(follow_of_left(grammar, i).contains(t));
    }
}

/// The LR(0) strategy reduces on every kind of token that the tokenizer
/// finds with the token types of the grammar.
pub proof fn lemma_lr0_reduces_where_followed(
    grammar: &Grammar,
    collection: &CanonicalCollectionGraph,
    text: Seq<char>,
)
    ensures
        reduces_where_followed(&EveryTerminal, grammar, collection, inline_input(grammar, text)),
{
    let strategy = EveryTerminal;
    let input = inline_input(grammar, text);
    lemma_inline_input_plain(grammar, text);
    assert forall|s: int, item: LR0Item, t: Symbol| token_kind(input, t) implies #[trigger]
        strategy.lookahead(grammar, collection, s, item).contains(t) by {
        assert(terminals_of(grammar.productions()).contains(t));
    }
}

/// The engine stopped for want of room, or the parse handed out a tree
/// that holds the input.
pub open spec fn round_trip(
    grammar: &Grammar,
    text: Seq<char>,
    gave_up: bool,
    r: Result<Derivation, SyntaxError>,
) -> bool {
    gave_up || (r matches Ok(tree) && holds_input(grammar, text, tree))
}

/// The LR(0) parser accepts the sentences of a grammar on which its table
/// has no conflicts: where the start symbol derives the tokens of `text`,
/// the parse hands out a tree, whose leaves are these tokens in their
/// order, unless the engine stopped for want of room.
pub proof fn lemma_lr0_accepts_sentences(
    parser: &GrammarParserLR0,
    grammar: &Grammar,
    text: Seq<char>,
    end: int,
    height: nat,
    n: nat,
    r: Result<Derivation, SyntaxError>,
)
    requires
        grammar.wf(),
        parser.wf(grammar),
        start_unused(grammar),
        conflict_free(&EveryTerminal, grammar, &parser.automaton()),
        sentence(grammar, inline_input(grammar, text), 0, end, height),
        parsed(&parser.parse_table(), grammar, inline_input(grammar, text), 0, n, r),
    ensures
        round_trip(
            grammar,
            text,
            stopped(&parser.parse_table(), grammar, inline_input(grammar, text), 0, n),
            r,
        ),
{
    let input = inline_input(grammar, text);
    lemma_lr0_built(parser, grammar);
    lemma_inline_input_plain(grammar, text);
    lemma_lr0_reduces_where_followed(grammar, &parser.automaton(), text);
    lemma_followed_sentence_parsed(
        &parser.parse_table(),
        grammar,
        &parser.automaton(),
        &EveryTerminal,
        input,
        0,
        end,
        height,
        n,
        r,
    );
    if r is Ok {
        lemma_lr0_tree_holds_input(parser, grammar, text, n, r->Ok_0);
    }
}

/// The SLR(1) parser accepts the sentences of a grammar on which its
/// table has no conflicts: where the start symbol derives the tokens of
/// `text`, the parse hands out a tree, whose leaves are these tokens in
/// their order, unless the engine stopped for want of room.
pub proof fn lemma_slr1_accepts_sentences(
    parser: &GrammarParserSLR1,
    grammar: &Grammar,
    text: Seq<char>,
    end: int,
    height: nat,
    n: nat,
    r: Result<Derivation, SyntaxError>,
)
    requires
        grammar.wf(),
        parser.wf(grammar),
        start_unused(grammar),
        conflict_free(&FollowOfLeft, grammar, &parser.automaton()),
        sentence(grammar, inline_input(grammar, text), 0, end, height),
        parsed(&parser.parse_table(), grammar, inline_input(grammar, text), 0, n, r),
    ensures
        round_trip(
            grammar,
            text,
            stopped(&parser.parse_table(), grammar, inline_input(grammar, text), 0, n),
            r,
        ),
{
    let input = inline_input(grammar, text);
    lemma_slr1_built(parser, grammar);
    lemma_inline_input_plain(grammar, text);
    lemma_slr1_reduces_where_followed(grammar, &parser.automaton(), input);
    lemma_followed_sentence_parsed(
        &parser.parse_table(),
        grammar,
        &parser.automaton(),
        &FollowOfLeft,
        input,
        0,
        end,
        height,
        n,
        r,
    );
    if r is Ok {
        lemma_slr1_tree_holds_input(parser, grammar, text, n, r->Ok_0);
    }
}

} // verus!
