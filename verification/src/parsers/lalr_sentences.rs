//! The LALR(1) parser accepts the sentences of a grammar whose table has
//! no conflicts, if the start symbol stands in no right-hand side: the
//! search for lookaheads then finds the kind of every token that stands
//! behind a nonterminal.

use vstd::prelude::*;
use crate::grammar::Grammar;
use crate::grammar::derivation::Derivation;
use crate::grammar::model::{
    all_in, all_vanish, augmented_symbol, is_terminal, lemma_nullable_intro, nullable_set, Symbol,
    EOF, EPSILON,
};
use crate::parsers::accepts::{
    lemma_closure_kernel, lemma_lalr1_tree_holds_input, lemma_lengths, start_unused,
};
use crate::parsers::complete::{
    closed, conflict_free, derives, expands, found_at, hands_down, item_at, lemma_closure_closed,
    lemma_derives_by, lemma_found_kind, lemma_sentence_parsed, part_case, plainly_named,
    reduces_where_awaited, sentence, stopped,
};
use crate::parsers::items::graph::CanonicalCollectionGraph;
use crate::parsers::items::model::{
    advance, closure, expects, goto, initial, is_accept, lemma_closure_holds_items, predicts,
    LR0Item,
};
use crate::parsers::items::shape::{edge_sound, has_edge_on, is_automaton, state_expects};
use crate::parsers::lalr1::{
    accepting, after_next, before_dot, first_places, first_states, has_edge, lalr_lookahead,
    offers, passes, place_edge, places, preds, slide_edge, slides, GrammarParserLALR1, Lalr,
    Place,
};
use crate::parsers::lr::{arity, inline_input, parsed, Input};
use crate::parsers::sentences::{lemma_inline_input_plain, round_trip};
use crate::parsers::sorted::{first_item, lemma_lalr1_built};
use crate::parsers::table::ReduceLookahead;
use crate::reach::{lemma_reach_edge, lemma_reach_root, lemma_reach_within, reach};
use crate::tokenizer::error::SyntaxError;
use crate::tokenizer::tokenizer::Scan;

verus! {

/// The start symbol stands in no right-hand side of a production, and
/// the augmented start symbol on the left of none.
pub open spec fn start_apart(grammar: &Grammar) -> bool {
    &&& forall|i: int, j: int|
        1 <= i < grammar@.len() && 0 <= j < grammar@[i].right.len() ==> (
        #[trigger] grammar@[i].right[j]) != grammar.start()
    &&& forall|i: int|
        1 <= i < grammar@.len() ==> (#[trigger] grammar@[i]).left != augmented_symbol(
            grammar.start(),
        )
}

/// The forward search from state `q` comes to a state that contributes
/// `y`.
pub open spec fn shown(grammar: &Grammar, c: &CanonicalCollectionGraph, q: int, y: Symbol) -> bool {
    exists|q2: int|
        reach(set![q], slide_edge(grammar, c)).contains(q2) && #[trigger] offers(grammar, c, q2, y)
}

/// The search for lookaheads from nonterminal `x` at state `q` finds
/// `y`: from a place that it comes to, the forward search comes to a
/// state that contributes `y`.
pub open spec fn awaited(
    grammar: &Grammar,
    c: &CanonicalCollectionGraph,
    q: int,
    x: Symbol,
    y: Symbol,
) -> bool {
    exists|n: Place, q1: int|
        reach(set![(x, q)], place_edge(grammar, c)).contains(n) && #[trigger] has_edge(
            c,
            n.1,
            n.0,
            q1,
        ) && shown(grammar, c, q1, y)
}

/// What the search for lookaheads finds, as a function of the state, the
/// nonterminal and the kind of token.
pub open spec fn searched(grammar: &Grammar, c: &CanonicalCollectionGraph) -> spec_fn(
    int,
    Symbol,
    Symbol,
) -> bool {
    |q: int, x: Symbol, y: Symbol| awaited(grammar, c, q, x, y)
}

/// What a state contributes is found by the forward search from it.
proof fn lemma_shown_here(grammar: &Grammar, c: &CanonicalCollectionGraph, q: int, y: Symbol)
    requires
        offers(grammar, c, q, y),
    ensures
        shown(grammar, c, q, y),
{
    lemma_reach_root(set![q], slide_edge(grammar, c), q);
}

/// What the forward search finds from a state is found from a state that
/// slides to it.
proof fn lemma_shown_slide(
    grammar: &Grammar,
    c: &CanonicalCollectionGraph,
    q: int,
    q2: int,
    t: LR0Item,
    y: Symbol,
)
    requires
        slides(grammar, c, q, q2, t),
        shown(grammar, c, q2, y),
    ensures
        shown(grammar, c, q, y),
{
    let edge = slide_edge(grammar, c);
    let q3 = choose|q3: int| reach(set![q2], edge).contains(q3) && #[trigger] offers(grammar, c, q3, y);
    lemma_reach_root(set![q], edge, q);
    assert(edge(q, q2));
    lemma_reach_edge(set![q], edge, q, q2);
    lemma_reach_within(set![q2], set![q], edge);
    assert(reach(set![q], edge).contains(q3));
}

/// The transition of a state on a symbol that one of its items expects:
/// it leads to the closure of the goto, which holds the item with its dot
/// moved over the symbol.
proof fn lemma_edge_on(
    grammar: &Grammar,
    c: &CanonicalCollectionGraph,
    q: int,
    item: LR0Item,
    x: Symbol,
) -> (to: int)
    requires
        is_automaton(grammar@, first_item(), c.states(), c.edges()),
        0 <= q < c.count(),
        c.states()[q].contains(item),
        expects(grammar@, item, x),
    ensures
        has_edge(c, q, x, to),
        0 <= to < c.count(),
        c.states()[to] == closure(grammar@, goto(grammar@, c.states()[q], x)),
        c.states()[to].contains(advance(item)),
        closed(grammar, c.states()[to]),
{
    let edges = c.edges()[q];
    assert(state_expects(grammar@, c.states()[q], x));
    assert(has_edge_on(edges, x));
    let k = choose|k: int| 0 <= k < edges.len() && (#[trigger] edges[k]).symbol == x;
    assert(edge_sound(grammar@, c.states(), q, edges[k]));
    let moved = goto(grammar@, c.states()[q], x);
    assert(moved.contains(advance(item)));
    lemma_closure_holds_items(grammar@, moved);
    lemma_closure_closed(grammar, moved);
    edges[k].to
}

/// The closure of a goto on a symbol other than the start symbol does
/// not hold the accept item.
proof fn lemma_not_accepting(
    grammar: &Grammar,
    c: &CanonicalCollectionGraph,
    state: Set<LR0Item>,
    x: Symbol,
    to: int,
)
    requires
        grammar.wf(),
        x != grammar.start(),
        0 <= to < c.count(),
        c.states()[to] == closure(grammar@, goto(grammar@, state, x)),
    ensures
        !accepting(c, to),
{
    let moved = goto(grammar@, state, x);
    if accepting(c, to) {
        let t = choose|t: LR0Item| c.states()[to].contains(t) && is_accept(t);
        if moved.contains(t) {
            let item = choose|item: LR0Item|
                state.contains(item) && #[trigger] expects(grammar@, item, x) && t == advance(item);
            lemma_lengths(grammar, item.rule_index as int);
            assert(item.dot_index == 0);
            assert(grammar@[0].right == seq![grammar.start()]);
            assert(grammar@[0].right[0] == grammar.start());
            assert(false);
        } else {
            lemma_closure_kernel(grammar, moved, t);
            assert(false);
        }
    }
}

/// What is known of the rest of a production from symbol number `j` on,
/// read from state `q`: it derives nothing and its symbols are nullable,
/// or the forward search from `q` finds the kind of its first token.
pub open spec fn rest_case(
    grammar: &Grammar,
    c: &CanonicalCollectionGraph,
    input: Input,
    i: int,
    cuts: Seq<int>,
    j: int,
    q: int,
) -> bool {
    ||| cuts.last() == cuts[j] && forall|p: int|
        j <= p < arity(grammar, i) ==> nullable_set(grammar@).contains(
            #[trigger] grammar@[i].right[p],
        )
    ||| found_at(input, cuts[j]) matches Scan::Token(t, next) && shown(grammar, c, q, t.token)
}

/// What is known of what a nonterminal derives, read from state `q`: it
/// derives nothing and is nullable, or the forward search from `q` finds
/// the kind of its first token.
pub open spec fn first_case(
    grammar: &Grammar,
    c: &CanonicalCollectionGraph,
    input: Input,
    x: Symbol,
    from: int,
    to: int,
    q: int,
) -> bool {
    ||| to == from && nullable_set(grammar@).contains(x)
    ||| found_at(input, from) matches Scan::Token(t, next) && shown(grammar, c, q, t.token)
}

/// The forward search from a state that expects a nonterminal finds the
/// kind of the first token of what the nonterminal derives.
pub proof fn lemma_first_shown(
    grammar: &Grammar,
    c: &CanonicalCollectionGraph,
    input: Input,
    x: Symbol,
    from: int,
    to: int,
    height: nat,
    q: int,
)
    requires
        grammar.wf(),
        is_automaton(grammar@, first_item(), c.states(), c.edges()),
        start_apart(grammar),
        plainly_named(input),
        !is_terminal(x),
        derives(grammar, input, x, from, to, height),
        0 <= q < c.count(),
        closed(grammar, c.states()[q]),
        state_expects(grammar@, c.states()[q], x),
        !accepting(c, q),
    ensures
        first_case(grammar, c, input, x, from, to, q),
    decreases height, 0nat,
{
    let rules = grammar@;
    let (r, cuts) = lemma_derives_by(grammar, input, x, from, to, height);
    let item = choose|t: LR0Item| c.states()[q].contains(t) && #[trigger] expects(rules, t, x);
    assert(predicts(rules, item, r));
    assert(c.states()[q].contains(initial(r)));
    lemma_lengths(grammar, r);
    assert(initial(r) == item_at(r, 0));
    lemma_rest_shown(grammar, c, input, r, cuts, (height - 1) as nat, 0, q);
    if cuts.last() == cuts[0] && forall|p: int|
        0 <= p < arity(grammar, r) ==> nullable_set(rules).contains(#[trigger] rules[r].right[p]) {
        let right = rules[r].right;
        assert(all_vanish(right, nullable_set(rules))) by {
            if right == seq![EPSILON@] {
                assert forall|p: int| 0 <= p < right.len() implies (#[trigger] right[p])
                    == EPSILON@ by {
                    assert(right[0] == EPSILON@);
                }
            }
        }
        lemma_nullable_intro(rules, r);
    }
}

/// The forward search from a state that holds the item of a production
/// with the dot before symbol number `j` finds the kind of the first
/// token of what the symbols from there on derive.
pub proof fn lemma_rest_shown(
    grammar: &Grammar,
    c: &CanonicalCollectionGraph,
    input: Input,
    i: int,
    cuts: Seq<int>,
    height: nat,
    j: int,
    q: int,
)
    requires
        grammar.wf(),
        is_automaton(grammar@, first_item(), c.states(), c.edges()),
        start_apart(grammar),
        plainly_named(input),
        expands(grammar, input, i, cuts, height),
        0 <= j <= arity(grammar, i),
        0 <= q < c.count(),
        c.states()[q].contains(item_at(i, j)),
        closed(grammar, c.states()[q]),
        !accepting(c, q),
    ensures
        rest_case(grammar, c, input, i, cuts, j, q),
    decreases height, arity(grammar, i) - j + 1,
{
    let rules = grammar@;
    let right = rules[i].right;
    let count = arity(grammar, i);
    let item = item_at(i, j);
    lemma_lengths(grammar, i);
    if j < count {
        assert(right.len() == count);
        assert(expects(rules, item, right[j]));
        assert(derives(grammar, input, right[j], cuts[j], cuts[j + 1], height));
        if is_terminal(right[j]) {
            lemma_found_kind(input, cuts[j]);
            assert(offers(grammar, c, q, right[j]));
            lemma_shown_here(grammar, c, q, right[j]);
        } else {
            let q2 = lemma_edge_on(grammar, c, q, item, right[j]);
            lemma_not_accepting(grammar, c, c.states()[q], right[j], q2);
            assert(advance(item) == item_at(i, j + 1));
            assert(state_expects(rules, c.states()[q], right[j]));
            lemma_first_shown(grammar, c, input, right[j], cuts[j], cuts[j + 1], height, q);
            if cuts[j + 1] == cuts[j] && nullable_set(rules).contains(right[j]) {
                lemma_rest_shown(grammar, c, input, i, cuts, height, j + 1, q2);
                if found_at(input, cuts[j + 1]) is Token && shown(
                    grammar,
                    c,
                    q2,
                    found_at(input, cuts[j + 1])->Token_0.token,
                ) {
                    assert(slides(grammar, c, q, q2, item));
                    lemma_shown_slide(
                        grammar,
                        c,
                        q,
                        q2,
                        item,
                        found_at(input, cuts[j + 1])->Token_0.token,
                    );
                } else {
                    assert forall|p: int| j <= p < count implies nullable_set(rules).contains(
                        #[trigger] right[p],
                    ) by {}
                }
            }
        }
    }
}

/// What the search for lookaheads finds from a place is found from a
/// place that leads to it.
proof fn lemma_awaited_from(
    grammar: &Grammar,
    c: &CanonicalCollectionGraph,
    a: Place,
    b: Place,
    t: LR0Item,
    y: Symbol,
)
    requires
        passes(grammar, c, a, b, t),
        awaited(grammar, c, b.1, b.0, y),
    ensures
        awaited(grammar, c, a.1, a.0, y),
{
    let edge = place_edge(grammar, c);
    let (n, q1) = choose|n: Place, q1: int|
        reach(set![(b.0, b.1)], edge).contains(n) && #[trigger] has_edge(c, n.1, n.0, q1) && shown(
            grammar,
            c,
            q1,
            y,
        );
    let from = (a.0, a.1);
    let over = (b.0, b.1);
    assert(from == a && over == b);
    lemma_reach_root(set![from], edge, from);
    assert(edge(from, over));
    lemma_reach_edge(set![from], edge, from, over);
    lemma_reach_within(set![over], set![from], edge);
    assert(reach(set![from], edge).contains(n));
}

/// The search for lookaheads hands down what it finds: behind each
/// nonterminal of a production it finds the kind of the token that stands
/// there, if it finds the kind of the token behind the production.
pub proof fn lemma_search_hands_down(
    grammar: &Grammar,
    c: &CanonicalCollectionGraph,
    input: Input,
)
    requires
        grammar.wf(),
        is_automaton(grammar@, first_item(), c.states(), c.edges()),
        start_apart(grammar),
        plainly_named(input),
    ensures
        hands_down(grammar, c, input, searched(grammar, c)),
{
    let waits = searched(grammar, c);
    assert forall|i: int, cuts: Seq<int>, height: nat, k: int, q0: int, q: int|
        #![trigger part_case(grammar, c, input, i, cuts, height, k, q0, q)]
        part_case(grammar, c, input, i, cuts, height, k, q0, q) && (found_at(
            input,
            cuts.last(),
        ) matches Scan::Token(t, next) && waits(q0, grammar@[i].left, t.token)) implies (found_at(
        input,
        cuts[k + 1],
    ) matches Scan::Token(t, next) && waits(q, grammar@[i].right[k], t.token)) by {
        lemma_part_awaited(grammar, c, input, i, cuts, height, k, q0, q);
    }
}

/// Behind a nonterminal of a production the search for lookaheads finds
/// the kind of the token that stands there, if it finds the kind of the
/// token behind the production.
proof fn lemma_part_awaited(
    grammar: &Grammar,
    c: &CanonicalCollectionGraph,
    input: Input,
    i: int,
    cuts: Seq<int>,
    height: nat,
    k: int,
    q0: int,
    q: int,
)
    requires
        grammar.wf(),
        is_automaton(grammar@, first_item(), c.states(), c.edges()),
        start_apart(grammar),
        plainly_named(input),
        part_case(grammar, c, input, i, cuts, height, k, q0, q),
        found_at(input, cuts.last()) matches Scan::Token(t, next) && awaited(
            grammar,
            c,
            q0,
            grammar@[i].left,
            t.token,
        ),
    ensures
        found_at(input, cuts[k + 1]) matches Scan::Token(t, next) && awaited(
            grammar,
            c,
            q,
            grammar@[i].right[k],
            t.token,
        ),
{
    let rules = grammar@;
    let right = rules[i].right;
    let count = arity(grammar, i);
    let item = item_at(i, k);
    let x = right[k];
    lemma_lengths(grammar, i);
    assert(right.len() == count);
    assert(expects(rules, item, x));
    let q1 = lemma_edge_on(grammar, c, q, item, x);
    lemma_not_accepting(grammar, c, c.states()[q], x, q1);
    assert(advance(item) == item_at(i, k + 1));
    lemma_rest_shown(grammar, c, input, i, cuts, height, k + 1, q1);
    let here = (x, q);
    let edge = place_edge(grammar, c);
    if found_at(input, cuts[k + 1]) is Token && shown(
        grammar,
        c,
        q1,
        found_at(input, cuts[k + 1])->Token_0.token,
    ) {
        lemma_reach_root(set![here], edge, here);
        assert(has_edge(c, here.1, here.0, q1));
    } else {
        let y = found_at(input, cuts.last())->Token_0.token;
        let rest = after_next(grammar, item);
        assert forall|p: int| 0 <= p < rest.len() implies nullable_set(rules).contains(
            #[trigger] rest[p],
        ) by {
            assert(rest[p] == right[k + 1 + p]);
        }
        assert(all_in(rest, nullable_set(rules)));
        assert(before_dot(grammar, item) == right.subrange(0, k));
        let there = (rules[i].left, q0);
        assert(passes(grammar, c, here, there, item));
        lemma_awaited_from(grammar, c, here, there, item, y);
    }
}

/// The lookahead sets of the LALR(1) strategy hold what the search for
/// lookaheads finds.
pub proof fn lemma_search_reduces(grammar: &Grammar, c: &CanonicalCollectionGraph, input: Input)
    requires
        grammar.wf(),
        start_apart(grammar),
    ensures
        reduces_where_awaited(&Lalr, grammar, c, input, searched(grammar, c)),
{
    let strategy = Lalr;
    let waits = searched(grammar, c);
    assert forall|q0: int, s: int, item: LR0Item, t: Symbol|
        #![trigger waits(q0, grammar@[item.rule_index as int].left, t), strategy.lookahead(grammar, c, s, item)]
        1 <= item.rule_index < grammar@.len() && preds(c, s, before_dot(grammar, item)).contains(q0)
            && waits(q0, grammar@[item.rule_index as int].left, t) implies strategy.lookahead(
        grammar,
        c,
        s,
        item,
    ).contains(t) by {
        let left = grammar@[item.rule_index as int].left;
        let pe = place_edge(grammar, c);
        let se = slide_edge(grammar, c);
        let (n, q1) = choose|n: Place, q1: int|
            reach(set![(left, q0)], pe).contains(n) && #[trigger] has_edge(c, n.1, n.0, q1)
                && shown(grammar, c, q1, t);
        let q2 = choose|q2: int| reach(set![q1], se).contains(q2) && #[trigger] offers(grammar, c, q2, t);
        let firsts = first_places(grammar, c, s, item);
        assert(firsts.contains((left, q0)));
        lemma_reach_root(firsts, pe, (left, q0));
        lemma_reach_within(set![(left, q0)], firsts, pe);
        assert(places(grammar, c, s, item).contains(n));
        let roots = first_states(c, places(grammar, c, s, item));
        assert(roots.contains(q1));
        lemma_reach_root(roots, se, q1);
        lemma_reach_within(set![q1], roots, se);
        assert(reach(roots, se).contains(q2));
        assert(lalr_lookahead(grammar, c, s, item).contains(t));
    }
}

/// The search for lookaheads finds end-of-input behind the start symbol
/// at the first state.
pub proof fn lemma_search_starts(grammar: &Grammar, c: &CanonicalCollectionGraph)
    requires
        grammar.wf(),
        is_automaton(grammar@, first_item(), c.states(), c.edges()),
    ensures
        awaited(grammar, c, 0, grammar.start(), EOF@),
{
    let rules = grammar@;
    let start = grammar.start();
    let kernel = set![first_item()];
    lemma_closure_holds_items(rules, kernel);
    assert(kernel.contains(first_item()));
    assert(rules[0].right == seq![start]);
    assert(rules[0].right[0] == start);
    assert(!is_terminal(start));
    assert(expects(rules, first_item(), start));
    let q1 = lemma_edge_on(grammar, c, 0, first_item(), start);
    assert(is_accept(advance(first_item())));
    assert(accepting(c, q1));
    assert(offers(grammar, c, q1, EOF@));
    lemma_shown_here(grammar, c, q1, EOF@);
    let here = (start, 0int);
    lemma_reach_root(set![here], place_edge(grammar, c), here);
    assert(has_edge(c, here.1, here.0, q1));
}

/// The LALR(1) parser accepts the sentences of a grammar on which its
/// table has no conflicts and whose start symbol stands in no right-hand
/// side: where the start symbol derives the tokens of `text`, the parse
/// hands out a tree, whose leaves are these tokens in their order, unless
/// the engine stopped for want of room.
pub proof fn lemma_lalr1_accepts_sentences(
    parser: &GrammarParserLALR1,
    grammar: &Grammar,
    text: Seq<char>,
    end: int,
    height: nat,
    n: nat,
    r: Result<Derivation, SyntaxError>,
)
    requires
        grammar.wf(),
        parser.wf(grammar),
        start_unused(grammar),
        start_apart(grammar),
        conflict_free(&Lalr, grammar, &parser.automaton()),
        sentence(grammar, inline_input(grammar, text), 0, end, height),
        parsed(&parser.parse_table(), grammar, inline_input(grammar, text), 0, n, r),
    ensures
        round_trip(
            grammar,
            text,
            stopped(&parser.parse_table(), grammar, inline_input(grammar, text), 0, n),
            r,
        ),
{
    let input = inline_input(grammar, text);
    let c = parser.automaton();
    let waits = searched(grammar, &c);
    lemma_lalr1_built(parser, grammar);
    lemma_inline_input_plain(grammar, text);
    lemma_search_hands_down(grammar, &c, input);
    lemma_search_reduces(grammar, &c, input);
    lemma_search_starts(grammar, &c);
    assert(waits(0, grammar.start(), EOF@));
    lemma_sentence_parsed(
        &parser.parse_table(),
        grammar,
        &c,
        &Lalr,
        waits,
        input,
        0,
        end,
        height,
        n,
        r,
    );
    if r is Ok {
        lemma_lalr1_tree_holds_input(parser, grammar, text, n, r->Ok_0);
    }
}

} // verus!
