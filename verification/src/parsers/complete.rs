//! Sentences are accepted: where the start symbol derives the tokens of
//! the input, no cell of the table is wanted by two actions, and the
//! table reduces wherever a token is awaited, the engine accepts, unless
//! it stops for want of room. The engine is followed along the
//! derivation: it shifts each token and reduces by each production.

use vstd::prelude::*;
use crate::grammar::Grammar;
use crate::grammar::derivation::{Derivation, GRAPH_LIMIT};
use crate::grammar::model::{
    eps_between, first_facts, first_from_rule, follow_facts, follow_from_rule, is_terminal,
    lemma_first_intro, lemma_first_terminal, lemma_follow_intro, lemma_follow_start, Symbol, EOF,
    EPSILON,
};
use crate::parsers::accepts::{lemma_edge_target, lemma_lengths};
use crate::parsers::items::automaton::EdgeView;
use crate::parsers::items::graph::CanonicalCollectionGraph;
use crate::parsers::items::model::{
    advance, closure, expects, goto, initial, is_accept, is_final, lemma_closure_holds_items,
    lemma_closure_predicts, predicts, LR0Item,
};
use crate::parsers::items::shape::{edge_sound, has_edge_on, state_expects};
use crate::parsers::lalr1::{before_dot, has_edge, preds};
use crate::parsers::lr::{
    action_of, arity, begin, child_entry, exhausted_error, parsed, reduced, reducible, run,
    state_below, step, Config, Input, Outcome, StackItem,
};
use crate::parsers::sorted::{built, first_item, lemma_edge_action};
use crate::parsers::table::{
    edge_action, entry, look_of, reduce_action, ParseTableAction, ParseTableLR, ReduceLookahead,
};
use crate::tokenizer::error::SyntaxError;
use crate::tokenizer::tokenizer::{best_match, lemma_best_match, scan, Scan};

verus! {

/// What the tokenizer finds from position `p` of the input.
pub open spec fn found_at(input: Input, p: int) -> Scan {
    scan(input.file, input.types, input.source, p)
}

/// The positions `cuts` part the stretch from `from` to `to` for the
/// symbols of production `i`, which has `x` on the left.
pub open spec fn parts(grammar: &Grammar, i: int, cuts: Seq<int>, x: Symbol, from: int, to: int) -> bool {
    &&& 1 <= i < grammar@.len()
    &&& grammar@[i].left == x
    &&& cuts.len() == arity(grammar, i) + 1
    &&& cuts[0] == from
    &&& cuts.last() == to
}

/// Symbol `x` derives the tokens between the positions `from` and `to` of
/// the input, by a tree of at most the given height: a terminal derives
/// the one token of its kind, a nonterminal what the symbols of the
/// right-hand side of one of its productions derive one after the other.
pub open spec fn derives(
    grammar: &Grammar,
    input: Input,
    x: Symbol,
    from: int,
    to: int,
    height: nat,
) -> bool
    decreases height,
{
    if is_terminal(x) {
        found_at(input, from) matches Scan::Token(t, next) && t.token == x && next == to
    } else if height == 0 {
        false
    } else {
        exists|i: int, cuts: Seq<int>|
            #[trigger] parts(grammar, i, cuts, x, from, to) && forall|k: int|
                0 <= k < arity(grammar, i) ==> derives(
                    grammar,
                    input,
                    grammar@[i].right[k],
                    #[trigger] cuts[k],
                    cuts[k + 1],
                    (height - 1) as nat,
                )
    }
}

/// Production `i` derives the tokens between the first and the last of
/// the positions `cuts`, its symbol number `k` those between `cuts[k]` and
/// `cuts[k + 1]`, each by a tree of at most the given height.
pub open spec fn expands(grammar: &Grammar, input: Input, i: int, cuts: Seq<int>, height: nat) -> bool {
    &&& 1 <= i < grammar@.len()
    &&& cuts.len() == arity(grammar, i) + 1
    &&& forall|k: int|
        0 <= k < arity(grammar, i) ==> derives(
            grammar,
            input,
            grammar@[i].right[k],
            #[trigger] cuts[k],
            cuts[k + 1],
            height,
        )
}

/// A production by which a nonterminal derives what it derives, and the
/// positions between its parts.
pub proof fn lemma_derives_by(
    grammar: &Grammar,
    input: Input,
    x: Symbol,
    from: int,
    to: int,
    height: nat,
) -> (r: (int, Seq<int>))
    requires
        !is_terminal(x),
        derives(grammar, input, x, from, to, height),
    ensures
        height > 0,
        parts(grammar, r.0, r.1, x, from, to),
        expands(grammar, input, r.0, r.1, (height - 1) as nat),
{
    choose|i: int, cuts: Seq<int>|
        #[trigger] parts(grammar, i, cuts, x, from, to) && forall|k: int|
            0 <= k < arity(grammar, i) ==> derives(
                grammar,
                input,
                grammar@[i].right[k],
                #[trigger] cuts[k],
                cuts[k + 1],
                (height - 1) as nat,
            )
}

/// The token types with a name are named after terminals other than
/// epsilon.
pub open spec fn plainly_named(input: Input) -> bool {
    forall|i: int|
        0 <= i < input.types.len() && (#[trigger] input.types[i]).name.len() > 0 ==> is_terminal(
            input.types[i].name,
        ) && input.types[i].name != EPSILON@
}

/// The kind of a token that the tokenizer can find: end-of-input, or the
/// name of a token type.
pub open spec fn token_kind(input: Input, t: Symbol) -> bool {
    t == EOF@ || exists|i: int|
        0 <= i < input.types.len() && (#[trigger] input.types[i]).name == t && t.len() > 0
}

/// End-of-input and epsilon are different symbols.
pub proof fn lemma_markers_differ()
    ensures
        EOF@ != EPSILON@,
{
    reveal_strlit("$");
    reveal_strlit("ε");
    assert(EOF@[0] == '$');
    assert(EPSILON@[0] == 'ε');
}

/// Every token that the tokenizer finds is of a kind that it can find,
/// which is a terminal other than epsilon.
pub proof fn lemma_found_kind(input: Input, p: int)
    requires
        plainly_named(input),
    ensures
        found_at(input, p) matches Scan::Token(t, next) ==> token_kind(input, t.token)
            && is_terminal(t.token) && t.token != EPSILON@,
    decreases input.source.len() - p,
{
    lemma_markers_differ();
    if 0 <= p < input.source.len() {
        let rest = input.source.subrange(p, input.source.len() as int);
        lemma_best_match(input.types, rest, input.types.len() as int);
        match best_match(input.types, rest, input.types.len() as int) {
            None => {},
            Some((i, text)) => {
                if !(text.len() == 0 || p + text.len() > input.source.len()) {
                    if input.types[i].name.len() == 0 {
                        lemma_found_kind(input, p + text.len());
                    } else {
                        assert(token_kind(input, input.types[i].name));
                    }
                }
            },
        }
    }
}

/// What is known of the first token of a derivation: the derivation is
/// empty and epsilon is in FIRST of the symbol, or the kind of the token
/// at its start is.
pub open spec fn starts_with(grammar: &Grammar, input: Input, x: Symbol, from: int, to: int) -> bool {
    ||| to == from && !is_terminal(x) && first_facts(grammar@).contains((x, EPSILON@))
    ||| found_at(input, from) matches Scan::Token(t, next) && t.token != EPSILON@ && first_facts(
        grammar@,
    ).contains((x, t.token))
}

/// The first token of what a symbol derives is of a kind in FIRST of the
/// symbol.
pub proof fn lemma_derives_first(
    grammar: &Grammar,
    input: Input,
    x: Symbol,
    from: int,
    to: int,
    height: nat,
)
    requires
        grammar.wf(),
        plainly_named(input),
        derives(grammar, input, x, from, to, height),
    ensures
        starts_with(grammar, input, x, from, to),
    decreases height, 0nat,
{
    if is_terminal(x) {
        lemma_found_kind(input, from);
        lemma_first_terminal(grammar@, x);
        assert(crate::grammar::model::first_set(grammar@, x).contains(x));
    } else {
        let (i, cuts) = lemma_derives_by(grammar, input, x, from, to, height);
        lemma_expands_first(grammar, input, i, cuts, (height - 1) as nat, 0);
    }
}

/// The first token of what a production derives from its symbol number
/// `k` on, where all before derive nothing, is of a kind in FIRST of the
/// left-hand side.
proof fn lemma_expands_first(
    grammar: &Grammar,
    input: Input,
    i: int,
    cuts: Seq<int>,
    height: nat,
    k: int,
)
    requires
        grammar.wf(),
        plainly_named(input),
        expands(grammar, input, i, cuts, height),
        0 <= k <= arity(grammar, i),
        cuts[k] == cuts[0],
        eps_between(grammar@[i].right, first_facts(grammar@), 0, k),
    ensures
        starts_with(grammar, input, grammar@[i].left, cuts[0], cuts.last()),
    decreases height, arity(grammar, i) - k + 1,
{
    let rules = grammar@;
    let right = rules[i].right;
    let n = arity(grammar, i);
    assert(!is_terminal(rules[i].left));
    if k == n {
        if right == seq![EPSILON@] {
            lemma_first_terminal(rules, EPSILON@);
            assert(crate::grammar::model::first_set(rules, EPSILON@).contains(EPSILON@));
            assert(right[0] == EPSILON@);
            assert(eps_between(right, first_facts(rules), 0, 1));
            assert(first_from_rule(right, first_facts(rules), 1, EPSILON@));
            lemma_first_intro(rules, i, 1, EPSILON@);
        } else {
            assert(first_from_rule(right, first_facts(rules), n, EPSILON@));
            lemma_first_intro(rules, i, n, EPSILON@);
        }
    } else {
        assert(derives(grammar, input, right[k], cuts[k], cuts[k + 1], height));
        lemma_derives_first(grammar, input, right[k], cuts[k], cuts[k + 1], height);
        if cuts[k + 1] == cuts[k] && !is_terminal(right[k]) && first_facts(rules).contains(
            (right[k], EPSILON@),
        ) {
            lemma_expands_first(grammar, input, i, cuts, height, k + 1);
        } else {
            let t = found_at(input, cuts[k])->Token_0;
            assert(first_from_rule(right, first_facts(rules), k, t.token));
            lemma_first_intro(rules, i, k, t.token);
        }
    }
}

/// What is known of the token behind symbol number `k` of a production
/// in a derivation: there is one, and its kind follows the symbol if the
/// symbol is a nonterminal.
pub open spec fn followed(grammar: &Grammar, input: Input, i: int, k: int, at: int) -> bool {
    found_at(input, at) matches Scan::Token(t, next) && (!is_terminal(grammar@[i].right[k])
        ==> follow_facts(grammar@, grammar.start()).contains((grammar@[i].right[k], t.token)))
}

/// In a derivation by a production whose left-hand side is followed by
/// the token behind it, each symbol of the right-hand side is followed by
/// the token behind it.
pub proof fn lemma_expands_follow(
    grammar: &Grammar,
    input: Input,
    i: int,
    cuts: Seq<int>,
    height: nat,
    k: int,
    m: int,
)
    requires
        grammar.wf(),
        plainly_named(input),
        expands(grammar, input, i, cuts, height),
        0 <= k < m <= arity(grammar, i),
        cuts[m] == cuts[k + 1],
        eps_between(grammar@[i].right, first_facts(grammar@), k + 1, m),
        found_at(input, cuts.last()) matches Scan::Token(t, next) && follow_facts(
            grammar@,
            grammar.start(),
        ).contains((grammar@[i].left, t.token)),
    ensures
        followed(grammar, input, i, k, cuts[k + 1]),
    decreases arity(grammar, i) - m,
{
    let rules = grammar@;
    let right = rules[i].right;
    let n = arity(grammar, i);
    let start = grammar.start();
    assert(right.len() == n);
    if m == n {
        let t = found_at(input, cuts.last())->Token_0;
        if !is_terminal(right[k]) {
            assert(follow_from_rule(rules, follow_facts(rules, start), i, k, n, t.token));
            lemma_follow_intro(rules, start, i, k, n, t.token);
        }
    } else {
        assert(derives(grammar, input, right[m], cuts[m], cuts[m + 1], height));
        lemma_derives_first(grammar, input, right[m], cuts[m], cuts[m + 1], height);
        if cuts[m + 1] == cuts[m] && !is_terminal(right[m]) && first_facts(rules).contains(
            (right[m], EPSILON@),
        ) {
            lemma_expands_follow(grammar, input, i, cuts, height, k, m + 1);
        } else {
            let t = found_at(input, cuts[m])->Token_0;
            if !is_terminal(right[k]) {
                assert(follow_from_rule(rules, follow_facts(rules, start), i, k, m, t.token));
                lemma_follow_intro(rules, start, i, k, m, t.token);
            }
        }
    }
}

/// The accept item: the augmented rule with the dot behind the start
/// symbol.
pub open spec fn accept_item() -> LR0Item {
    LR0Item { rule_index: 0, dot_index: 1 }
}

/// Nothing but the reduction by the rule of `item` wants the cell of state
/// `s` and terminal `t`: the state has no transition on `t`, it does not
/// hold the accept item, and its other final items with `t` in their
/// lookahead sets are of the same rule.
pub open spec fn wanted_once<L: ReduceLookahead>(
    strategy: &L,
    grammar: &Grammar,
    collection: &CanonicalCollectionGraph,
    s: int,
    item: LR0Item,
    t: Symbol,
) -> bool {
    &&& !has_edge_on(collection.edges()[s], t)
    &&& !collection.states()[s].contains(accept_item())
    &&& forall|other: LR0Item|
        #![trigger strategy.lookahead(grammar, collection, s, other)]
        collection.states()[s].contains(other) && is_final(grammar@, other) && strategy.lookahead(
            grammar,
            collection,
            s,
            other,
        ).contains(t) ==> other.rule_index == item.rule_index
}

/// No cell of the table is wanted by two actions: a reduction shares its
/// cell with no transition, no acceptance and no reduction by another
/// rule, and no state that accepts has a transition on end-of-input.
pub open spec fn conflict_free<L: ReduceLookahead>(
    strategy: &L,
    grammar: &Grammar,
    collection: &CanonicalCollectionGraph,
) -> bool {
    &&& forall|s: int, item: LR0Item, t: Symbol|
        0 <= s < collection.count() && collection.states()[s].contains(item) && is_final(
            grammar@,
            item,
        ) && !is_accept(item) && strategy.lookahead(grammar, collection, s, item).contains(t)
            ==> #[trigger] wanted_once(strategy, grammar, collection, s, item, t)
    &&& forall|s: int|
        0 <= s < collection.count() && (#[trigger] collection.states()[s]).contains(accept_item())
            ==> !has_edge_on(collection.edges()[s], EOF@)
}

/// Where a transition is on the symbol, the table finds one.
proof fn lemma_edge_found(edges: Seq<EdgeView>, x: Symbol)
    requires
        has_edge_on(edges, x),
    ensures
        edge_action(edges, x) is Some,
    decreases edges.len(),
{
    let k = choose|k: int| 0 <= k < edges.len() && (#[trigger] edges[k]).symbol == x;
    if edges.last().symbol != x {
        assert(edges.drop_last()[k].symbol == x);
        lemma_edge_found(edges.drop_last(), x);
    }
}

/// The entry of a state on a symbol that it expects: the shift or the
/// goto to the state that holds the closure of the goto.
pub proof fn lemma_expected_entry<L: ReduceLookahead>(
    table: &ParseTableLR,
    grammar: &Grammar,
    collection: &CanonicalCollectionGraph,
    strategy: &L,
    s: int,
    x: Symbol,
) -> (to: int)
    requires
        built(table, grammar, collection, strategy),
        0 <= s < collection.count(),
        state_expects(grammar@, collection.states()[s], x),
    ensures
        has_edge(collection, s, x, to),
        0 <= to < collection.count(),
        collection.states()[to] == closure(grammar@, goto(grammar@, collection.states()[s], x)),
        table.lookup(s as usize, x) == if is_terminal(x) {
            ParseTableAction::Shift(to as usize)
        } else {
            ParseTableAction::Goto(to as usize)
        },
{
    let edges = collection.edges()[s];
    assert(has_edge_on(edges, x));
    let k = choose|k: int| 0 <= k < edges.len() && (#[trigger] edges[k]).symbol == x;
    lemma_edge_found(edges, x);
    lemma_edge_target(edges, x);
    lemma_edge_action(edges, x);
    assert(edge_sound(grammar@, collection.states(), s, edges[k]));
    assert(table.lookup(s as usize, x) == entry(
        grammar,
        collection.state_seq(s),
        edges,
        look_of(strategy, grammar, collection, s),
        x,
    ));
    edges[k].to
}

/// Where exactly the final items of one rule have the symbol in their
/// lookahead sets, the table reduces by that rule.
proof fn lemma_reduce_picks(
    grammar: &Grammar,
    items: Seq<LR0Item>,
    look: spec_fn(LR0Item) -> Set<Symbol>,
    t: Symbol,
    r: usize,
)
    requires
        exists|k: int|
            0 <= k < items.len() && is_final(grammar@, #[trigger] items[k]) && look(
                items[k],
            ).contains(t),
        forall|k: int|
            0 <= k < items.len() && is_final(grammar@, #[trigger] items[k]) && look(
                items[k],
            ).contains(t) ==> items[k].rule_index == r,
    ensures
        reduce_action(grammar, items, look, t) == ParseTableAction::Reduce(r),
    decreases items.len(),
{
    let k = choose|k: int|
        0 <= k < items.len() && is_final(grammar@, #[trigger] items[k]) && look(items[k]).contains(
            t,
        );
    if is_final(grammar@, items.last()) && look(items.last()).contains(t) {
        assert(items[items.len() - 1].rule_index == r);
    } else {
        let rest = items.drop_last();
        assert(rest[k] == items[k]);
        assert forall|j: int|
            0 <= j < rest.len() && is_final(grammar@, #[trigger] rest[j]) && look(rest[j]).contains(
                t,
            ) implies rest[j].rule_index == r by {
            assert(rest[j] == items[j]);
        }
        lemma_reduce_picks(grammar, rest, look, t, r);
    }
}

/// The entry of a state on a terminal in the lookahead set of one of its
/// final items, in a table without conflicts: the reduction by the rule
/// of the item.
pub proof fn lemma_final_entry<L: ReduceLookahead>(
    table: &ParseTableLR,
    grammar: &Grammar,
    collection: &CanonicalCollectionGraph,
    strategy: &L,
    s: int,
    item: LR0Item,
    t: Symbol,
)
    requires
        built(table, grammar, collection, strategy),
        conflict_free(strategy, grammar, collection),
        0 <= s < collection.count(),
        collection.states()[s].contains(item),
        is_final(grammar@, item),
        !is_accept(item),
        strategy.lookahead(grammar, collection, s, item).contains(t),
    ensures
        table.lookup(s as usize, t) == ParseTableAction::Reduce(item.rule_index),
{
    let edges = collection.edges()[s];
    let items = collection.state_seq(s);
    let look = look_of(strategy, grammar, collection, s);
    assert(wanted_once(strategy, grammar, collection, s, item, t));
    lemma_edge_target(edges, t);
    if edge_action(edges, t) is Some {
        let k = choose|k: int| 0 <= k < edges.len() && (#[trigger] edges[k]).symbol == t;
        assert(has_edge_on(edges, t));
    }
    assert(collection.states()[s] == items.to_set());
    assert forall|a: LR0Item| !(items.contains(a) && is_accept(a)) by {
        if items.contains(a) && is_accept(a) {
            assert(a == accept_item());
            assert(items.to_set().contains(a));
        }
    }
    assert(items.contains(item));
    let k0 = choose|k: int| 0 <= k < items.len() && items[k] == item;
    assert(is_final(grammar@, items[k0]) && look(items[k0]).contains(t));
    assert forall|k: int|
        0 <= k < items.len() && is_final(grammar@, #[trigger] items[k]) && look(items[k]).contains(
            t,
        ) implies items[k].rule_index == item.rule_index by {
        assert(items.to_set().contains(items[k]));
        assert(strategy.lookahead(grammar, collection, s, items[k]).contains(t));
    }
    lemma_reduce_picks(grammar, items, look, t, item.rule_index);
    assert(table.lookup(s as usize, t) == entry(grammar, items, edges, look, t));
}

/// The entry of a state that holds the accept item on end-of-input, in a
/// table without conflicts: it accepts.
pub proof fn lemma_accept_entry<L: ReduceLookahead>(
    table: &ParseTableLR,
    grammar: &Grammar,
    collection: &CanonicalCollectionGraph,
    strategy: &L,
    s: int,
)
    requires
        built(table, grammar, collection, strategy),
        conflict_free(strategy, grammar, collection),
        0 <= s < collection.count(),
        collection.states()[s].contains(accept_item()),
    ensures
        table.lookup(s as usize, EOF@) == ParseTableAction::Accept,
{
    let edges = collection.edges()[s];
    let items = collection.state_seq(s);
    let look = look_of(strategy, grammar, collection, s);
    lemma_edge_target(edges, EOF@);
    if edge_action(edges, EOF@) is Some {
        let k = choose|k: int| 0 <= k < edges.len() && (#[trigger] edges[k]).symbol == EOF@;
        assert(has_edge_on(edges, EOF@));
    }
    assert(collection.states()[s] == items.to_set());
    assert(items.contains(accept_item()) && is_accept(accept_item()));
    assert(table.lookup(s as usize, EOF@) == entry(grammar, items, edges, look, EOF@));
}

/// The item of rule `i` with the dot before symbol number `m`.
pub open spec fn item_at(i: int, m: int) -> LR0Item {
    LR0Item { rule_index: i as usize, dot_index: m as usize }
}

/// With each item that expects a nonterminal, the set holds the first
/// items of the rules of that nonterminal.
pub open spec fn closed(grammar: &Grammar, items: Set<LR0Item>) -> bool {
    forall|item: LR0Item, r: int|
        items.contains(item) && #[trigger] predicts(grammar@, item, r) ==> items.contains(
            initial(r),
        )
}

/// Every closure is closed.
pub proof fn lemma_closure_closed(grammar: &Grammar, kernel: Set<LR0Item>)
    ensures
        closed(grammar, closure(grammar@, kernel)),
{
    let items = closure(grammar@, kernel);
    assert forall|item: LR0Item, r: int|
        items.contains(item) && #[trigger] predicts(grammar@, item, r) implies items.contains(
        initial(r),
    ) by {
        lemma_closure_predicts(grammar@, kernel, item, r);
    }
}

/// Behind each of the later symbols of a production stands a token, if
/// one stands behind the last.
pub proof fn lemma_expands_token(
    grammar: &Grammar,
    input: Input,
    i: int,
    cuts: Seq<int>,
    height: nat,
    k: int,
)
    requires
        grammar.wf(),
        plainly_named(input),
        expands(grammar, input, i, cuts, height),
        0 <= k <= arity(grammar, i),
        found_at(input, cuts.last()) is Token,
    ensures
        found_at(input, cuts[k]) is Token,
    decreases arity(grammar, i) - k,
{
    if k < arity(grammar, i) {
        lemma_expands_token(grammar, input, i, cuts, height, k + 1);
        assert(derives(grammar, input, grammar@[i].right[k], cuts[k], cuts[k + 1], height));
        lemma_derives_first(grammar, input, grammar@[i].right[k], cuts[k], cuts[k + 1], height);
    }
}

/// The nonterminal number `k` of production `i` is read from state `q`,
/// which the symbols before it lead to from state `q0`, in a derivation
/// by the production with the positions `cuts`.
pub open spec fn part_case(
    grammar: &Grammar,
    collection: &CanonicalCollectionGraph,
    input: Input,
    i: int,
    cuts: Seq<int>,
    height: nat,
    k: int,
    q0: int,
    q: int,
) -> bool {
    &&& expands(grammar, input, i, cuts, height)
    &&& 0 <= k < arity(grammar, i)
    &&& !is_terminal(grammar@[i].right[k])
    &&& 0 <= q0 < collection.count()
    &&& 0 <= q < collection.count()
    &&& collection.states()[q0].contains(initial(i))
    &&& collection.states()[q].contains(item_at(i, k))
    &&& preds(collection, q, grammar@[i].right.subrange(0, k)).contains(q0)
}

/// Where `waits` says that a kind of token is awaited behind the
/// left-hand side of a production read from a state, it says so of the
/// kind of the token behind each nonterminal of the right-hand side, read
/// from the state that the symbols before it lead to.
pub open spec fn hands_down(
    grammar: &Grammar,
    collection: &CanonicalCollectionGraph,
    input: Input,
    waits: spec_fn(int, Symbol, Symbol) -> bool,
) -> bool {
    forall|i: int, cuts: Seq<int>, height: nat, k: int, q0: int, q: int|
        #![trigger part_case(grammar, collection, input, i, cuts, height, k, q0, q)]
        part_case(grammar, collection, input, i, cuts, height, k, q0, q) && (found_at(
            input,
            cuts.last(),
        ) matches Scan::Token(t, next) && waits(q0, grammar@[i].left, t.token)) ==> (found_at(
            input,
            cuts[k + 1],
        ) matches Scan::Token(t, next) && waits(q, grammar@[i].right[k], t.token))
}

/// The lookahead sets of the strategy hold, for a final item of a
/// production in a state, every kind of token that `waits` says is
/// awaited behind the left-hand side read from a state from which the
/// right-hand side leads to that state.
pub open spec fn reduces_where_awaited<L: ReduceLookahead>(
    strategy: &L,
    grammar: &Grammar,
    collection: &CanonicalCollectionGraph,
    input: Input,
    waits: spec_fn(int, Symbol, Symbol) -> bool,
) -> bool {
    forall|q0: int, s: int, item: LR0Item, t: Symbol|
        #![trigger waits(q0, grammar@[item.rule_index as int].left, t), strategy.lookahead(grammar, collection, s, item)]
        0 <= s < collection.count() && collection.states()[s].contains(item) && is_final(
            grammar@,
            item,
        ) && 1 <= item.rule_index < grammar@.len() && 0 <= q0 < collection.count()
            && collection.states()[q0].contains(initial(item.rule_index as int)) && preds(
            collection,
            s,
            before_dot(grammar, item),
        ).contains(q0) && token_kind(input, t) && waits(
            q0,
            grammar@[item.rule_index as int].left,
            t,
        ) ==> strategy.lookahead(grammar, collection, s, item).contains(t)
}

/// The lookahead sets of the strategy hold, for a final item of a
/// production, every kind of token that follows the left-hand side.
pub open spec fn reduces_where_followed<L: ReduceLookahead>(
    strategy: &L,
    grammar: &Grammar,
    collection: &CanonicalCollectionGraph,
    input: Input,
) -> bool {
    forall|s: int, item: LR0Item, t: Symbol|
        0 <= s < collection.count() && collection.states()[s].contains(item) && is_final(
            grammar@,
            item,
        ) && 1 <= item.rule_index < grammar@.len() && token_kind(input, t) && follow_facts(
            grammar@,
            grammar.start(),
        ).contains((grammar@[item.rule_index as int].left, t))
            ==> #[trigger] strategy.lookahead(grammar, collection, s, item).contains(t)
}

/// The engine has failed because the tree has outgrown the graph.
pub open spec fn outgrown(grammar: &Grammar, input: Input, o: Outcome) -> bool {
    o matches Outcome::Fail(e) && exists|c: Config, r: int|
        #![trigger exhausted_error(input, c), arity(grammar, r)]
        0 <= r < grammar@.len() && c.links.len() + arity(grammar, r) > GRAPH_LIMIT && e
            == exhausted_error(input, c)
}

/// After `n` moves the engine has stopped for want of room: the tree has
/// outgrown the graph, or the moves are used up.
pub open spec fn stopped(
    table: &ParseTableLR,
    grammar: &Grammar,
    input: Input,
    cursor: int,
    n: nat,
) -> bool {
    outgrown(grammar, input, run(table, grammar, input, cursor, n)) || (n >= GRAPH_LIMIT && run(
        table,
        grammar,
        input,
        cursor,
        n,
    ) is Go)
}

/// After `n` moves the engine is ready to read what `x` derives from
/// position `from`: a closed state that expects `x` is on top of the
/// stack, and the engine looks at the token found at `from`.
pub open spec fn ready_for(
    grammar: &Grammar,
    collection: &CanonicalCollectionGraph,
    input: Input,
    c: Config,
    n: nat,
    x: Symbol,
    from: int,
) -> bool {
    &&& c.stack.len() >= 1
    &&& c.stack.last() is State
    &&& c.stack.last()->State_0 < collection.count()
    &&& closed(grammar, collection.states()[c.stack.last()->State_0 as int])
    &&& state_expects(grammar@, collection.states()[c.stack.last()->State_0 as int], x)
    &&& found_at(input, from) == Scan::Token(c.lookahead, c.cursor)
    &&& c.nodes.len() <= n
}

/// The engine has read what `x` derives: on the stack of `before` stand
/// a node and the state that the state on top of `before` leads to on
/// `x`.
pub open spec fn moved_over(
    grammar: &Grammar,
    collection: &CanonicalCollectionGraph,
    before: Config,
    after: Config,
    x: Symbol,
) -> bool {
    let base = before.stack.len() as int;
    &&& after.stack.len() == base + 2
    &&& after.stack.take(base) == before.stack
    &&& after.stack[base] is Node
    &&& after.stack[base]->Node_0 < after.nodes.len()
    &&& after.stack[base + 1] is State
    &&& after.stack[base + 1]->State_0 < collection.count()
    &&& has_edge(
        collection,
        before.stack.last()->State_0 as int,
        x,
        after.stack[base + 1]->State_0 as int,
    )
    &&& collection.states()[after.stack[base + 1]->State_0 as int] == closure(
        grammar@,
        goto(grammar@, collection.states()[before.stack.last()->State_0 as int], x),
    )
    &&& after.nodes.len() >= before.nodes.len()
}

/// What reading a symbol comes to: the engine has stopped for want of
/// room, or it has read the symbol and looks at the token behind it.
pub open spec fn read_over(
    table: &ParseTableLR,
    grammar: &Grammar,
    collection: &CanonicalCollectionGraph,
    input: Input,
    cursor: int,
    before: Config,
    x: Symbol,
    to: int,
    r: (nat, Config),
) -> bool {
    stopped(table, grammar, input, cursor, r.0) || (run(table, grammar, input, cursor, r.0)
        == Outcome::Go(r.1) && moved_over(grammar, collection, before, r.1, x) && found_at(input, to)
        == Scan::Token(r.1.lookahead, r.1.cursor) && r.1.nodes.len() <= r.0)
}

/// From a configuration that is ready for a symbol, the engine reads
/// what the symbol derives, if the token behind it is awaited there.
pub proof fn lemma_symbol_read<L: ReduceLookahead>(
    table: &ParseTableLR,
    grammar: &Grammar,
    collection: &CanonicalCollectionGraph,
    strategy: &L,
    waits: spec_fn(int, Symbol, Symbol) -> bool,
    input: Input,
    cursor: int,
    n: nat,
    c: Config,
    x: Symbol,
    from: int,
    to: int,
    height: nat,
) -> (r: (nat, Config))
    requires
        built(table, grammar, collection, strategy),
        conflict_free(strategy, grammar, collection),
        reduces_where_awaited(strategy, grammar, collection, input, waits),
        hands_down(grammar, collection, input, waits),
        plainly_named(input),
        run(table, grammar, input, cursor, n) == Outcome::Go(c),
        ready_for(grammar, collection, input, c, n, x, from),
        derives(grammar, input, x, from, to, height),
        found_at(input, to) matches Scan::Token(t, next) && (!is_terminal(x) ==> waits(
            c.stack.last()->State_0 as int,
            x,
            t.token,
        )),
    ensures
        read_over(table, grammar, collection, input, cursor, c, x, to, r),
    decreases height, 0nat,
{
    let q = c.stack.last()->State_0;
    let base = c.stack.len() as int;
    if n >= GRAPH_LIMIT {
        (n, c)
    } else if is_terminal(x) {
        let s2 = lemma_expected_entry(table, grammar, collection, strategy, q as int, x);
        assert(action_of(table, grammar, c) == ParseTableAction::Shift(s2 as usize));
        let next = step(table, grammar, input, c);
        assert(run(table, grammar, input, cursor, n + 1) == next);
        let c2 = next->Go_0;
        assert(c2.stack == c.stack.push(StackItem::Node(c.nodes.len() as usize)).push(
            StackItem::State(s2 as usize),
        ));
        assert(c2.stack.take(base) =~= c.stack);
        lemma_closure_closed(grammar, goto(grammar@, collection.states()[q as int], x));
        (n + 1, c2)
    } else {
        let (i, cuts) = lemma_derives_by(grammar, input, x, from, to, height);
        let state = collection.states()[q as int];
        let item = choose|t: LR0Item| state.contains(t) && #[trigger] expects(grammar@, t, x);
        assert(predicts(grammar@, item, i));
        assert(state.contains(initial(i)));
        assert(c.stack.take(base) =~= c.stack);
        assert(grammar@[i].right.subrange(0, 0) =~= Seq::<Symbol>::empty());
        assert(preds(collection, q as int, grammar@[i].right.subrange(0, 0)).contains(q as int));
        lemma_parts_read(
            table,
            grammar,
            collection,
            strategy,
            waits,
            input,
            cursor,
            c,
            i,
            cuts,
            (height - 1) as nat,
            0,
            n,
            c,
        )
    }
}

/// The engine has read the first `m` symbols of production `i` since
/// configuration `c0`: their nodes stand on the stack of `c0`, each
/// followed by a state, and the state on top, to which these symbols
/// lead from the state on top of `c0`, holds the item of the production
/// with the dot before symbol number `m`.
pub open spec fn midway(
    grammar: &Grammar,
    collection: &CanonicalCollectionGraph,
    c0: Config,
    c: Config,
    i: int,
    m: int,
) -> bool {
    let base = c0.stack.len() as int;
    &&& c.stack.len() == base + 2 * m
    &&& c.stack.take(base) == c0.stack
    &&& forall|k: int|
        0 <= k < m ==> (#[trigger] c.stack[base + 2 * k]) is Node && c.stack[base + 2 * k]->Node_0
            < c.nodes.len()
    &&& c.stack.last() is State
    &&& c.stack.last()->State_0 < collection.count()
    &&& closed(grammar, collection.states()[c.stack.last()->State_0 as int])
    &&& collection.states()[c.stack.last()->State_0 as int].contains(item_at(i, m))
    &&& collection.states()[c0.stack.last()->State_0 as int].contains(initial(i))
    &&& preds(collection, c.stack.last()->State_0 as int, grammar@[i].right.subrange(0, m)).contains(
        c0.stack.last()->State_0 as int,
    )
    &&& c.nodes.len() >= c0.nodes.len()
}

/// After one more symbol of the production was read from a configuration
/// midway through it, the engine is midway behind that symbol.
proof fn lemma_midway_next(
    grammar: &Grammar,
    collection: &CanonicalCollectionGraph,
    c0: Config,
    c: Config,
    c1: Config,
    i: int,
    m: int,
)
    requires
        1 <= i < grammar@.len(),
        0 <= m < arity(grammar, i),
        grammar@[i].right[m] != EPSILON@,
        midway(grammar, collection, c0, c, i, m),
        moved_over(grammar, collection, c, c1, grammar@[i].right[m]),
    ensures
        midway(grammar, collection, c0, c1, i, m + 1),
{
    let rules = grammar@;
    let right = rules[i].right;
    let base = c0.stack.len() as int;
    let top = c.stack.len() as int;
    let q = c.stack.last()->State_0;
    let state = collection.states()[q as int];
    let item = item_at(i, m);
    lemma_lengths(grammar, i);
    assert(right.len() == arity(grammar, i));
    assert(expects(rules, item, right[m]));
    assert(c1.stack.last() == c1.stack[top + 1]);
    assert(goto(rules, state, right[m]).contains(advance(item)));
    lemma_closure_holds_items(rules, goto(rules, state, right[m]));
    lemma_closure_closed(grammar, goto(rules, state, right[m]));
    assert(advance(item) == item_at(i, m + 1));
    assert(c1.stack.take(top) == c.stack);
    assert(c1.stack.take(base) =~= c.stack.take(base));
    assert forall|k: int| 0 <= k < m + 1 implies (#[trigger] c1.stack[base + 2 * k]) is Node
        && c1.stack[base + 2 * k]->Node_0 < c1.nodes.len() by {
        if k < m {
            assert(c1.stack.take(top)[base + 2 * k] == c.stack[base + 2 * k]);
        }
    }
    let alpha = right.subrange(0, m + 1);
    assert(alpha.last() == right[m]);
    assert(alpha.drop_last() =~= right.subrange(0, m));
    assert(alpha != seq![EPSILON@]) by {
        if alpha == seq![EPSILON@] {
            assert(alpha[0] == EPSILON@);
        }
    }
    let q1 = c1.stack.last()->State_0 as int;
    assert(has_edge(collection, q as int, alpha.last(), q1));
    assert(preds(collection, q1, alpha).contains(c0.stack.last()->State_0 as int));
}

/// From a configuration behind the last symbol of a production, the
/// engine reduces by the production and goes to the state that the state
/// on top of `c0` leads to on the left-hand side.
proof fn lemma_reduce_read<L: ReduceLookahead>(
    table: &ParseTableLR,
    grammar: &Grammar,
    collection: &CanonicalCollectionGraph,
    strategy: &L,
    waits: spec_fn(int, Symbol, Symbol) -> bool,
    input: Input,
    cursor: int,
    c0: Config,
    i: int,
    to: int,
    n: nat,
    c: Config,
) -> (r: (nat, Config))
    requires
        built(table, grammar, collection, strategy),
        conflict_free(strategy, grammar, collection),
        reduces_where_awaited(strategy, grammar, collection, input, waits),
        plainly_named(input),
        1 <= i < grammar@.len(),
        c0.stack.len() >= 1,
        c0.stack.last() is State,
        c0.stack.last()->State_0 < collection.count(),
        state_expects(
            grammar@,
            collection.states()[c0.stack.last()->State_0 as int],
            grammar@[i].left,
        ),
        waits(c0.stack.last()->State_0 as int, grammar@[i].left, c.lookahead.token),
        run(table, grammar, input, cursor, n) == Outcome::Go(c),
        midway(grammar, collection, c0, c, i, arity(grammar, i)),
        found_at(input, to) == Scan::Token(c.lookahead, c.cursor),
        c.nodes.len() <= n,
        n < GRAPH_LIMIT,
    ensures
        read_over(table, grammar, collection, input, cursor, c0, grammar@[i].left, to, r),
{
    let rules = grammar@;
    let left = rules[i].left;
    let count = arity(grammar, i);
    let base = c0.stack.len() as int;
    let q = c.stack.last()->State_0;
    let q0 = c0.stack.last()->State_0;
    let item = item_at(i, count);
    let t = c.lookahead;
    lemma_lengths(grammar, i);
    lemma_found_kind(input, to);
    assert(is_final(rules, item));
    assert(!is_accept(item));
    assert(before_dot(grammar, item) == rules[i].right.subrange(0, count));
    assert(waits(q0 as int, rules[item.rule_index as int].left, t.token));
    assert(strategy.lookahead(grammar, collection, q as int, item).contains(t.token));
    lemma_final_entry(table, grammar, collection, strategy, q as int, item, t.token);
    assert(action_of(table, grammar, c) == ParseTableAction::Reduce(i as usize));
    assert(c.stack.len() - 2 * count == base);
    assert forall|k: int| 0 <= k < count implies (#[trigger] child_entry(c.stack, count, k))
        is Node && child_entry(c.stack, count, k)->Node_0 < c.nodes.len() by {
        assert(child_entry(c.stack, count, k) == c.stack[base + 2 * k]);
    }
    assert(reducible(c, count));
    let next = step(table, grammar, input, c);
    assert(run(table, grammar, input, cursor, n + 1) == next);
    if c.links.len() + count > GRAPH_LIMIT {
        assert(next == Outcome::Fail(exhausted_error(input, c)));
        assert(outgrown(grammar, input, next));
        (n + 1, c)
    } else {
        let c1 = reduced(grammar, c, i as usize);
        assert(next == Outcome::Go(c1));
        let id = c.nodes.len();
        assert(c1.stack =~= c0.stack.push(StackItem::Node(id as usize)));
        assert(c1.stack.take(base) =~= c0.stack);
        if n + 1 >= GRAPH_LIMIT {
            (n + 1, c1)
        } else {
            lemma_goto_read(table, grammar, collection, strategy, input, cursor, c0, i, to, n + 1, c1)
        }
    }
}

/// From a configuration with the node of a production on the stack of
/// `c0`, the engine goes to the state that the state on top of `c0` leads
/// to on the left-hand side of the production.
proof fn lemma_goto_read<L: ReduceLookahead>(
    table: &ParseTableLR,
    grammar: &Grammar,
    collection: &CanonicalCollectionGraph,
    strategy: &L,
    input: Input,
    cursor: int,
    c0: Config,
    i: int,
    to: int,
    n: nat,
    c1: Config,
) -> (r: (nat, Config))
    requires
        built(table, grammar, collection, strategy),
        1 <= i < grammar@.len(),
        c0.stack.len() >= 1,
        c0.stack.last() is State,
        c0.stack.last()->State_0 < collection.count(),
        state_expects(
            grammar@,
            collection.states()[c0.stack.last()->State_0 as int],
            grammar@[i].left,
        ),
        run(table, grammar, input, cursor, n) == Outcome::Go(c1),
        c1.stack.len() == c0.stack.len() + 1,
        c1.stack.take(c0.stack.len() as int) == c0.stack,
        c1.stack.last() is Node,
        c1.stack.last()->Node_0 < c1.nodes.len(),
        c1.nodes[c1.stack.last()->Node_0 as int].rule_index == i,
        c1.nodes.len() >= c0.nodes.len(),
        found_at(input, to) == Scan::Token(c1.lookahead, c1.cursor),
        c1.nodes.len() <= n,
    ensures
        read_over(table, grammar, collection, input, cursor, c0, grammar@[i].left, to, r),
{
    let left = grammar@[i].left;
    let base = c0.stack.len() as int;
    let q0 = c0.stack.last()->State_0;
    let s2 = lemma_expected_entry(table, grammar, collection, strategy, q0 as int, left);
    reveal_with_fuel(state_below, 3);
    assert(c1.stack[base - 1] == c1.stack.take(base)[base - 1]);
    assert(state_below(c1.stack, c1.stack.len() as int) == Some(q0));
    assert(action_of(table, grammar, c1) == ParseTableAction::Goto(s2 as usize));
    let last = step(table, grammar, input, c1);
    assert(run(table, grammar, input, cursor, n + 1) == last);
    let c2 = last->Go_0;
    assert(c2.stack == c1.stack.push(StackItem::State(s2 as usize)));
    assert(c2.stack.take(base) =~= c1.stack.take(base));
    lemma_closure_closed(grammar, goto(grammar@, collection.states()[q0 as int], left));
    (n + 1, c2)
}

/// From a configuration midway through a production, the engine reads
/// the rest of what the production derives, reduces by it and goes to the
/// state that the state on top of `c0` leads to on the left-hand side.
pub proof fn lemma_parts_read<L: ReduceLookahead>(
    table: &ParseTableLR,
    grammar: &Grammar,
    collection: &CanonicalCollectionGraph,
    strategy: &L,
    waits: spec_fn(int, Symbol, Symbol) -> bool,
    input: Input,
    cursor: int,
    c0: Config,
    i: int,
    cuts: Seq<int>,
    height: nat,
    m: int,
    n: nat,
    c: Config,
) -> (r: (nat, Config))
    requires
        built(table, grammar, collection, strategy),
        conflict_free(strategy, grammar, collection),
        reduces_where_awaited(strategy, grammar, collection, input, waits),
        hands_down(grammar, collection, input, waits),
        plainly_named(input),
        expands(grammar, input, i, cuts, height),
        c0.stack.len() >= 1,
        c0.stack.last() is State,
        c0.stack.last()->State_0 < collection.count(),
        state_expects(
            grammar@,
            collection.states()[c0.stack.last()->State_0 as int],
            grammar@[i].left,
        ),
        found_at(input, cuts.last()) matches Scan::Token(t, next) && waits(
            c0.stack.last()->State_0 as int,
            grammar@[i].left,
            t.token,
        ),
        0 <= m <= arity(grammar, i),
        run(table, grammar, input, cursor, n) == Outcome::Go(c),
        midway(grammar, collection, c0, c, i, m),
        found_at(input, cuts[m]) == Scan::Token(c.lookahead, c.cursor),
        c.nodes.len() <= n,
    ensures
        read_over(table, grammar, collection, input, cursor, c0, grammar@[i].left, cuts.last(), r),
    decreases height, arity(grammar, i) - m + 1,
{
    let rules = grammar@;
    let right = rules[i].right;
    let count = arity(grammar, i);
    let q = c.stack.last()->State_0;
    let q0 = c0.stack.last()->State_0;
    lemma_lengths(grammar, i);
    if n >= GRAPH_LIMIT {
        (n, c)
    } else if m < count {
        assert(right.len() == count);
        assert(expects(rules, item_at(i, m), right[m]));
        assert(derives(grammar, input, right[m], cuts[m], cuts[m + 1], height));
        lemma_expands_token(grammar, input, i, cuts, height, m + 1);
        if is_terminal(right[m]) {
            lemma_found_kind(input, cuts[m]);
        } else {
            assert(part_case(grammar, collection, input, i, cuts, height, m, q0 as int, q as int));
        }
        let r1 = lemma_symbol_read(
            table,
            grammar,
            collection,
            strategy,
            waits,
            input,
            cursor,
            n,
            c,
            right[m],
            cuts[m],
            cuts[m + 1],
            height,
        );
        if stopped(table, grammar, input, cursor, r1.0) {
            r1
        } else {
            lemma_midway_next(grammar, collection, c0, c, r1.1, i, m);
            lemma_parts_read(
                table,
                grammar,
                collection,
                strategy,
                waits,
                input,
                cursor,
                c0,
                i,
                cuts,
                height,
                m + 1,
                r1.0,
                r1.1,
            )
        }
    } else {
        lemma_reduce_read(
            table,
            grammar,
            collection,
            strategy,
            waits,
            input,
            cursor,
            c0,
            i,
            cuts.last(),
            n,
            c,
        )
    }
}

/// The tokens of the input from position `cursor` to position `end` are
/// a sentence of the grammar: the start symbol derives them, by a tree of
/// at most the given height, and behind them the tokenizer finds the end
/// of the input.
pub open spec fn sentence(grammar: &Grammar, input: Input, cursor: int, end: int, height: nat) -> bool {
    derives(grammar, input, grammar.start(), cursor, end, height) && (found_at(input, end)
        matches Scan::Token(t, next) && t.token == EOF@)
}

/// Once the engine has accepted or failed, it stays as it is.
pub proof fn lemma_run_stays(
    table: &ParseTableLR,
    grammar: &Grammar,
    input: Input,
    cursor: int,
    n: nat,
    k: nat,
)
    requires
        !(run(table, grammar, input, cursor, n) is Go),
    ensures
        run(table, grammar, input, cursor, n + k) == run(table, grammar, input, cursor, n),
    decreases k,
{
    if k > 0 {
        lemma_run_stays(table, grammar, input, cursor, n, (k - 1) as nat);
        assert(n + k - 1 == n + (k - 1) as nat);
    }
}

/// While the engine goes on after some moves, it went on after fewer.
pub proof fn lemma_go_before(
    table: &ParseTableLR,
    grammar: &Grammar,
    input: Input,
    cursor: int,
    n: nat,
    k: nat,
)
    requires
        run(table, grammar, input, cursor, n + k) is Go,
    ensures
        run(table, grammar, input, cursor, n) is Go,
{
    if !(run(table, grammar, input, cursor, n) is Go) {
        lemma_run_stays(table, grammar, input, cursor, n, k);
    }
}

/// With a table without conflicts whose reductions stand wherever a token
/// is awaited, the engine accepts every sentence of the grammar, unless it
/// stops for want of room: for some number of moves it has accepted after
/// them, or has stopped.
pub proof fn lemma_sentence_accepted<L: ReduceLookahead>(
    table: &ParseTableLR,
    grammar: &Grammar,
    collection: &CanonicalCollectionGraph,
    strategy: &L,
    waits: spec_fn(int, Symbol, Symbol) -> bool,
    input: Input,
    cursor: int,
    end: int,
    height: nat,
) -> (n: nat)
    requires
        built(table, grammar, collection, strategy),
        conflict_free(strategy, grammar, collection),
        reduces_where_awaited(strategy, grammar, collection, input, waits),
        hands_down(grammar, collection, input, waits),
        waits(0, grammar.start(), EOF@),
        plainly_named(input),
        sentence(grammar, input, cursor, end, height),
    ensures
        run(table, grammar, input, cursor, n) is Accept || stopped(table, grammar, input, cursor, n),
{
    let rules = grammar@;
    let start = grammar.start();
    lemma_derives_first(grammar, input, start, cursor, end, height);
    let c0 = begin(input, cursor)->Go_0;
    assert(run(table, grammar, input, cursor, 0) == Outcome::Go(c0));
    let kernel = set![first_item()];
    lemma_closure_closed(grammar, kernel);
    lemma_closure_holds_items(rules, kernel);
    assert(kernel.contains(first_item()));
    assert(rules[0].right == seq![start]);
    assert(rules[0].right[0] == start);
    assert(!is_terminal(start));
    assert(expects(rules, first_item(), start));
    let r = lemma_symbol_read(
        table,
        grammar,
        collection,
        strategy,
        waits,
        input,
        cursor,
        0,
        c0,
        start,
        cursor,
        end,
        height,
    );
    if stopped(table, grammar, input, cursor, r.0) {
        r.0
    } else if r.0 >= GRAPH_LIMIT {
        r.0
    } else {
        let c = r.1;
        let s = c.stack[2]->State_0;
        assert(c.stack.last() == c.stack[2]);
        assert(goto(rules, collection.states()[0], start).contains(advance(first_item())));
        lemma_closure_holds_items(rules, goto(rules, collection.states()[0], start));
        assert(advance(first_item()) == accept_item());
        lemma_accept_entry(table, grammar, collection, strategy, s as int);
        assert(action_of(table, grammar, c) == ParseTableAction::Accept);
        assert(run(table, grammar, input, cursor, r.0 + 1) == step(table, grammar, input, c));
        r.0 + 1
    }
}

/// What a parse of a sentence hands out, with a table without conflicts
/// whose reductions stand wherever a token is awaited: a tree, unless the
/// engine has stopped for want of room.
pub proof fn lemma_sentence_parsed<L: ReduceLookahead>(
    table: &ParseTableLR,
    grammar: &Grammar,
    collection: &CanonicalCollectionGraph,
    strategy: &L,
    waits: spec_fn(int, Symbol, Symbol) -> bool,
    input: Input,
    cursor: int,
    end: int,
    height: nat,
    n: nat,
    r: Result<Derivation, SyntaxError>,
)
    requires
        built(table, grammar, collection, strategy),
        conflict_free(strategy, grammar, collection),
        reduces_where_awaited(strategy, grammar, collection, input, waits),
        hands_down(grammar, collection, input, waits),
        waits(0, grammar.start(), EOF@),
        plainly_named(input),
        sentence(grammar, input, cursor, end, height),
        parsed(table, grammar, input, cursor, n, r),
    ensures
        r is Ok || stopped(table, grammar, input, cursor, n),
{
    let m = lemma_sentence_accepted(
        table,
        grammar,
        collection,
        strategy,
        waits,
        input,
        cursor,
        end,
        height,
    );
    let here = run(table, grammar, input, cursor, n);
    let there = run(table, grammar, input, cursor, m);
    if !(here is Go) {
        if m >= n {
            lemma_run_stays(table, grammar, input, cursor, n, (m - n) as nat);
        } else if !(there is Go) {
            lemma_run_stays(table, grammar, input, cursor, m, (n - m) as nat);
        } else {
            lemma_go_before(table, grammar, input, cursor, m, (n - m) as nat);
        }
    }
}

/// A kind of token is awaited behind a symbol wherever it follows the
/// symbol, whatever the state.
pub open spec fn follows(grammar: &Grammar) -> spec_fn(int, Symbol, Symbol) -> bool {
    |q: int, x: Symbol, t: Symbol| follow_facts(grammar@, grammar.start()).contains((x, t))
}

/// What a parse of a sentence hands out, with a table without conflicts
/// whose reductions stand wherever a token follows the left-hand side: a
/// tree, unless the engine has stopped for want of room.
pub proof fn lemma_followed_sentence_parsed<L: ReduceLookahead>(
    table: &ParseTableLR,
    grammar: &Grammar,
    collection: &CanonicalCollectionGraph,
    strategy: &L,
    input: Input,
    cursor: int,
    end: int,
    height: nat,
    n: nat,
    r: Result<Derivation, SyntaxError>,
)
    requires
        built(table, grammar, collection, strategy),
        conflict_free(strategy, grammar, collection),
        reduces_where_followed(strategy, grammar, collection, input),
        plainly_named(input),
        sentence(grammar, input, cursor, end, height),
        parsed(table, grammar, input, cursor, n, r),
    ensures
        r is Ok || stopped(table, grammar, input, cursor, n),
{
    let waits = follows(grammar);
    let start = grammar.start();
    assert(!is_terminal(start));
    lemma_follow_start(grammar@, start);
    assert(crate::grammar::model::follow_set(grammar@, start, start).contains(EOF@));
    assert(waits(0, start, EOF@));
    assert forall|i: int, cuts: Seq<int>, height: nat, k: int, q0: int, q: int|
        #![trigger part_case(grammar, collection, input, i, cuts, height, k, q0, q)]
        part_case(grammar, collection, input, i, cuts, height, k, q0, q) && (found_at(
            input,
            cuts.last(),
        ) matches Scan::Token(t, next) && waits(q0, grammar@[i].left, t.token)) implies (found_at(
        input,
        cuts[k + 1],
    ) matches Scan::Token(t, next) && waits(q, grammar@[i].right[k], t.token)) by {
        lemma_expands_follow(grammar, input, i, cuts, height, k, k + 1);
        assert(followed(grammar, input, i, k, cuts[k + 1]));
    }
    assert(hands_down(grammar, collection, input, waits));
    assert forall|q0: int, s: int, item: LR0Item, t: Symbol|
        #![trigger waits(q0, grammar@[item.rule_index as int].left, t), strategy.lookahead(grammar, collection, s, item)]
        0 <= s < collection.count() && collection.states()[s].contains(item) && is_final(
            grammar@,
            item,
        ) && 1 <= item.rule_index < grammar@.len() && token_kind(input, t) && waits(
            q0,
            grammar@[item.rule_index as int].left,
            t,
        ) implies strategy.lookahead(grammar, collection, s, item).contains(t) by {}
    assert(reduces_where_awaited(strategy, grammar, collection, input, waits));
    lemma_sentence_parsed(
        table,
        grammar,
        collection,
        strategy,
        waits,
        input,
        cursor,
        end,
        height,
        n,
        r,
    );
}

} // verus!
