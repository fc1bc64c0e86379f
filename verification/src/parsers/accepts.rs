//! What acceptance means for the parsers of this library: a parser that
//! accepts has one tree on its stack and looks at the end of the input, so
//! the leaves of the tree it hands out are the tokens of the input.

use vstd::prelude::*;
use crate::fixpoint::lemma_lfp_unfold;
use crate::grammar::Grammar;
use crate::grammar::derivation::{Derivation, GRAPH_LIMIT};
use crate::grammar::model::{Symbol, EOF};
use crate::parsers::items::automaton::EdgeView;
use crate::parsers::items::graph::CanonicalCollectionGraph;
use crate::parsers::items::model::{
    advance, closure, closure_step, expects, goto, initial, is_accept, lemma_closure_monotone,
    predicts, LR0Item,
};
use crate::parsers::items::shape::{edge_sound, is_automaton};
use crate::parsers::lalr1::{has_edge, GrammarParserLALR1, Lalr};
use crate::parsers::leaves::{
    consumed, in_step, lemma_leaves_are_tokens, orderly, position_behind, sorted, taken, yield_of,
};
use crate::parsers::lr::{
    action_of, inline_input, parsed, reduced, run, state_below, step, Config, Input, Outcome,
    StackItem,
};
use crate::parsers::lr0::{EveryTerminal, GrammarParserLR0};
use crate::parsers::slr1::{FollowOfLeft, GrammarParserSLR1};
use crate::parsers::sorted::{
    built, first_item, lemma_edge_action, lemma_lalr1_built, lemma_lr0_built, lemma_reduce_other,
    lemma_slr1_built, lemma_table_sorted,
};
use crate::parsers::table::{
    edge_action, entry, look_of, ParseTableAction, ParseTableLR, ReduceLookahead,
};

verus! {

/// The augmented start symbol stands in no right-hand side.
pub open spec fn start_unused(grammar: &Grammar) -> bool {
    forall|i: int, j: int|
        0 <= i < grammar@.len() && 0 <= j < grammar@[i].right.len() ==> (
        #[trigger] grammar@[i].right[j]) != grammar@[0].left
}

/// The action of a transition names the target of a transition on the
/// symbol.
pub proof fn lemma_edge_target(edges: Seq<EdgeView>, y: Symbol)
    ensures
        edge_action(edges, y) matches Some(a) ==> exists|k: int|
            0 <= k < edges.len() && (#[trigger] edges[k]).symbol == y && (a
                == ParseTableAction::Shift(edges[k].to as usize) || a == ParseTableAction::Goto(
                edges[k].to as usize,
            )),
    decreases edges.len(),
{
    if edges.len() > 0 {
        if edges.last().symbol == y {
            assert(edges[edges.len() - 1].symbol == y);
        } else {
            lemma_edge_target(edges.drop_last(), y);
            if edge_action(edges, y) is Some {
                let a = edge_action(edges, y)->0;
                let rest = edges.drop_last();
                let k = choose|k: int|
                    0 <= k < rest.len() && (#[trigger] rest[k]).symbol == y && (a
                        == ParseTableAction::Shift(rest[k].to as usize) || a
                        == ParseTableAction::Goto(rest[k].to as usize));
                assert(edges[k] == rest[k]);
            }
        }
    }
}

/// A shift or a goto among the entries of a state is the action of one of
/// its transitions on the symbol; an accept is on end-of-input and in a
/// state that holds the accept item.
pub proof fn lemma_entry_kinds(
    grammar: &Grammar,
    items: Seq<LR0Item>,
    edges: Seq<EdgeView>,
    look: spec_fn(LR0Item) -> Set<Symbol>,
    y: Symbol,
)
    ensures
        entry(grammar, items, edges, look, y) is Shift || entry(grammar, items, edges, look, y) is Goto
            ==> edge_action(edges, y) == Some(entry(grammar, items, edges, look, y)),
        entry(grammar, items, edges, look, y) is Accept ==> y == EOF@ && exists|t: LR0Item|
            items.contains(t) && is_accept(t),
{
    lemma_edge_action(edges, y);
    lemma_reduce_other(grammar, items, look, y);
}

/// An item of a closure that does not stand in the set that was closed is
/// the first item of a rule that an item of the closure predicts.
pub proof fn lemma_closure_kernel(grammar: &Grammar, items: Set<LR0Item>, t: LR0Item)
    requires
        closure(grammar@, items).contains(t),
        !items.contains(t),
    ensures
        exists|item: LR0Item, r: int|
            closure(grammar@, items).contains(item) && #[trigger] predicts(grammar@, item, r) && t
                == initial(r),
{
    let step = closure_step(grammar@, items);
    lemma_closure_monotone(grammar@, items);
    lemma_lfp_unfold(step, t);
}

/// The lengths of a grammar fit the machine.
pub proof fn lemma_lengths(grammar: &Grammar, i: int)
    requires
        0 <= i < grammar@.len(),
    ensures
        grammar@.len() <= usize::MAX,
        grammar@[i].right.len() <= usize::MAX,
{
    assert(grammar.rules@.len() == grammar.rules.len());
    assert(grammar@[i] == grammar.rules@[i]@);
    assert(grammar.rules@[i].right@.len() == grammar.rules@[i].right.len());
}

/// Where the augmented start symbol stands in no right-hand side, the
/// closure of a goto does not hold the first item of the augmented rule.
pub proof fn lemma_target_lacks_first_item(grammar: &Grammar, state: Set<LR0Item>, x: Symbol)
    requires
        grammar.wf(),
        start_unused(grammar),
    ensures
        !closure(grammar@, goto(grammar@, state, x)).contains(first_item()),
{
    let moved = goto(grammar@, state, x);
    let t = first_item();
    if closure(grammar@, moved).contains(t) {
        if moved.contains(t) {
            let item = choose|item: LR0Item|
                state.contains(item) && #[trigger] expects(grammar@, item, x) && t == advance(item);
            lemma_lengths(grammar, item.rule_index as int);
            assert(false);
        } else {
            lemma_closure_kernel(grammar, moved, t);
            let (item, r) = choose|item: LR0Item, r: int|
                closure(grammar@, moved).contains(item) && #[trigger] predicts(grammar@, item, r)
                    && t == initial(r);
            lemma_lengths(grammar, 0);
            assert(r == 0);
            assert(expects(grammar@, item, grammar@[0].left));
            assert(grammar@[item.rule_index as int].right[item.dot_index as int] == grammar@[0].left);
            assert(false);
        }
    }
}

/// The state at position `p` of the stack was reached by a transition from
/// the state two entries below it.
pub open spec fn linked_at(collection: &CanonicalCollectionGraph, stack: Seq<StackItem>, p: int) -> bool {
    stack[p] is State && stack[p - 2] is State && exists|x: Symbol|
        #[trigger] has_edge(collection, stack[p - 2]->State_0 as int, x, stack[p]->State_0 as int)
}

/// Every state on the stack but the lowest was reached by a transition
/// from the state two entries below it.
pub open spec fn linked(collection: &CanonicalCollectionGraph, stack: Seq<StackItem>) -> bool {
    forall|p: int| 2 <= p < stack.len() && p % 2 == 0 ==> #[trigger] linked_at(collection, stack, p)
}

/// Every shift and every goto of the table leads to the target of a
/// transition from the state of the entry on the symbol of the entry.
pub open spec fn moves_along_edges(table: &ParseTableLR, collection: &CanonicalCollectionGraph) -> bool {
    forall|i: usize, y: Symbol|
        (#[trigger] table.lookup(i, y)) is Shift || table.lookup(i, y) is Goto ==> has_edge(
            collection,
            i as int,
            y,
            match table.lookup(i, y) {
                ParseTableAction::Shift(s) => s as int,
                ParseTableAction::Goto(s) => s as int,
                other => 0,
            },
        )
}

/// A stack that agrees with a linked stack below `upto` is linked below
/// `upto`.
proof fn lemma_linked_prefix(
    collection: &CanonicalCollectionGraph,
    old_stack: Seq<StackItem>,
    new_stack: Seq<StackItem>,
    upto: int,
    p: int,
)
    requires
        linked(collection, old_stack),
        upto <= old_stack.len(),
        upto <= new_stack.len(),
        forall|k: int| 0 <= k < upto ==> new_stack[k] == old_stack[k],
        2 <= p < upto,
        p % 2 == 0,
    ensures
        linked_at(collection, new_stack, p),
{
    assert(linked_at(collection, old_stack, p));
    assert(new_stack[p] == old_stack[p]);
    assert(new_stack[p - 2] == old_stack[p - 2]);
}

/// The target of a shift or a goto of a built table is reached by a
/// transition from the state of the entry.
proof fn lemma_move_follows_edge<L: ReduceLookahead>(
    table: &ParseTableLR,
    grammar: &Grammar,
    collection: &CanonicalCollectionGraph,
    strategy: &L,
    i: usize,
    y: Symbol,
    s: usize,
)
    requires
        built(table, grammar, collection, strategy),
        table.lookup(i, y) == ParseTableAction::Shift(s) || table.lookup(i, y)
            == ParseTableAction::Goto(s),
    ensures
        has_edge(collection, i as int, y, s as int),
{
    let edges = collection.edges()[i as int];
    lemma_entry_kinds(
        grammar,
        collection.state_seq(i as int),
        edges,
        look_of(strategy, grammar, collection, i as int),
        y,
    );
    lemma_edge_target(edges, y);
    let a = table.lookup(i, y);
    let k = choose|k: int|
        0 <= k < edges.len() && (#[trigger] edges[k]).symbol == y && (a == ParseTableAction::Shift(
            edges[k].to as usize,
        ) || a == ParseTableAction::Goto(edges[k].to as usize));
    assert(collection.edges()[i as int][k] == edges[k]);
    assert(0 <= edges[k].to < collection.count());
    assert(collection.count() == collection.edges@.len());
    assert(collection.edges@.len() == collection.edges.len());
}

/// The shifts and gotos of a built table go along the transitions of the
/// automaton.
proof fn lemma_moves_along_edges<L: ReduceLookahead>(
    table: &ParseTableLR,
    grammar: &Grammar,
    collection: &CanonicalCollectionGraph,
    strategy: &L,
)
    requires
        built(table, grammar, collection, strategy),
    ensures
        moves_along_edges(table, collection),
{
    assert forall|i: usize, y: Symbol|
        (#[trigger] table.lookup(i, y)) is Shift || table.lookup(i, y) is Goto implies has_edge(
        collection,
        i as int,
        y,
        match table.lookup(i, y) {
            ParseTableAction::Shift(s) => s as int,
            ParseTableAction::Goto(s) => s as int,
            other => 0,
        },
    ) by {
        match table.lookup(i, y) {
            ParseTableAction::Shift(s) => {
                lemma_move_follows_edge(table, grammar, collection, strategy, i, y, s);
            },
            ParseTableAction::Goto(s) => {
                lemma_move_follows_edge(table, grammar, collection, strategy, i, y, s);
            },
            other => {},
        }
    }
}

/// A goto keeps the stack linked.
proof fn lemma_goto_linked(
    table: &ParseTableLR,
    grammar: &Grammar,
    collection: &CanonicalCollectionGraph,
    input: Input,
    c: Config,
)
    requires
        moves_along_edges(table, collection),
        orderly(grammar, c),
        linked(collection, c.stack),
        c.stack.len() % 2 == 0,
        action_of(table, grammar, c) is Goto,
    ensures
        linked(collection, c.stack.push(StackItem::State(action_of(table, grammar, c)->Goto_0))),
{
    let len = c.stack.len() as int;
    assert(c.stack[len - 1] == c.stack.last());
    assert(c.stack[len - 1] is Node);
    assert(c.stack[len - 2] is State);
    assert(state_below(c.stack, len) == state_below(c.stack, len - 1));
    let i = c.stack[len - 2]->State_0;
    let id = c.stack.last()->Node_0;
    let left = grammar@[c.nodes[id as int].rule_index as int].left;
    assert(action_of(table, grammar, c) == table.lookup(i, left));
    let s = table.lookup(i, left)->Goto_0;
    let next = c.stack.push(StackItem::State(s));
    assert(has_edge(collection, i as int, left, s as int));
    assert forall|p: int| 2 <= p < next.len() && p % 2 == 0 implies #[trigger] linked_at(
        collection,
        next,
        p,
    ) by {
        if p < len {
            lemma_linked_prefix(collection, c.stack, next, len, p);
        } else {
            assert(next[p] == StackItem::State(s));
            assert(next[p - 2] == c.stack[len - 2]);
            assert(has_edge(
                collection,
                next[p - 2]->State_0 as int,
                left,
                next[p]->State_0 as int,
            ));
        }
    }
}

/// A shift keeps the stack linked.
proof fn lemma_shift_linked(
    table: &ParseTableLR,
    grammar: &Grammar,
    collection: &CanonicalCollectionGraph,
    c: Config,
    node: StackItem,
)
    requires
        moves_along_edges(table, collection),
        orderly(grammar, c),
        linked(collection, c.stack),
        c.stack.len() % 2 == 1,
        action_of(table, grammar, c) is Shift,
        node is Node,
    ensures
        linked(
            collection,
            c.stack.push(node).push(StackItem::State(action_of(table, grammar, c)->Shift_0)),
        ),
{
    let len = c.stack.len() as int;
    assert(c.stack[len - 1] == c.stack.last());
    assert(c.stack[len - 1] is State);
    let i = c.stack.last()->State_0;
    assert(action_of(table, grammar, c) == table.lookup(i, c.lookahead.token));
    let s = table.lookup(i, c.lookahead.token)->Shift_0;
    let next = c.stack.push(node).push(StackItem::State(s));
    assert(has_edge(collection, i as int, c.lookahead.token, s as int));
    assert forall|p: int| 2 <= p < next.len() && p % 2 == 0 implies #[trigger] linked_at(
        collection,
        next,
        p,
    ) by {
        if p < len {
            lemma_linked_prefix(collection, c.stack, next, len, p);
        } else {
            assert(p == len + 1);
            assert(next[p] == StackItem::State(s));
            assert(next[p - 2] == c.stack[len - 1]);
            assert(has_edge(
                collection,
                next[p - 2]->State_0 as int,
                c.lookahead.token,
                next[p]->State_0 as int,
            ));
        }
    }
}

/// A reduction keeps the stack linked.
proof fn lemma_reduce_linked(
    collection: &CanonicalCollectionGraph,
    stack: Seq<StackItem>,
    base: int,
    node: StackItem,
)
    requires
        linked(collection, stack),
        0 <= base <= stack.len(),
        base % 2 == 1,
    ensures
        linked(collection, stack.take(base).push(node)),
{
    let next = stack.take(base).push(node);
    assert forall|p: int| 2 <= p < next.len() && p % 2 == 0 implies #[trigger] linked_at(
        collection,
        next,
        p,
    ) by {
        assert(p < base);
        lemma_linked_prefix(collection, stack, next, base, p);
    }
}

/// A move of the engine with a well sorted table whose shifts and gotos go
/// along the transitions keeps the stack linked.
proof fn lemma_step_linked(
    table: &ParseTableLR,
    grammar: &Grammar,
    collection: &CanonicalCollectionGraph,
    input: Input,
    c: Config,
)
    requires
        grammar.wf(),
        moves_along_edges(table, collection),
        sorted(table, grammar, input),
        orderly(grammar, c),
        linked(collection, c.stack),
        step(table, grammar, input, c) is Go,
    ensures
        linked(collection, step(table, grammar, input, c)->Go_0.stack),
{
    let next = step(table, grammar, input, c)->Go_0;
    let len = c.stack.len() as int;
    match action_of(table, grammar, c) {
        ParseTableAction::Goto(s) => {
            assert(len % 2 == 0) by {
                if len % 2 == 1 {
                    assert(c.stack[len - 1] == c.stack.last());
                    assert(c.stack[len - 1] is State);
                }
            }
            lemma_goto_linked(table, grammar, collection, input, c);
        },
        ParseTableAction::Shift(s) => {
            assert(len % 2 == 1) by {
                if len % 2 == 0 {
                    lemma_node_on_top_gives_goto(table, grammar, input, c);
                }
            }
            lemma_shift_linked(
                table,
                grammar,
                collection,
                c,
                StackItem::Node(c.nodes.len() as usize),
            );
        },
        ParseTableAction::Reduce(r) => {
            assert(len % 2 == 1) by {
                if len % 2 == 0 {
                    lemma_node_on_top_gives_goto(table, grammar, input, c);
                }
            }
            assert(next == reduced(grammar, c, r));
            let n = crate::parsers::lr::arity(grammar, r as int);
            lemma_reduce_linked(
                collection,
                c.stack,
                len - 2 * n,
                StackItem::Node(c.nodes.len() as usize),
            );
        },
        other => {},
    }
}

/// With a node on top of an orderly stack a well sorted table gives a goto
/// or rejects.
proof fn lemma_node_on_top_gives_goto(
    table: &ParseTableLR,
    grammar: &Grammar,
    input: Input,
    c: Config,
)
    requires
        sorted(table, grammar, input),
        orderly(grammar, c),
        c.stack.len() % 2 == 0,
    ensures
        action_of(table, grammar, c) is Goto || action_of(table, grammar, c) is Reject,
{
    let len = c.stack.len() as int;
    assert(c.stack[len - 1] == c.stack.last());
    assert(c.stack[len - 1] is Node);
    assert(c.stack[len - 2] is State);
    assert(state_below(c.stack, len) == state_below(c.stack, len - 1));
}

/// With a built table the stack is linked in every configuration that the
/// engine reaches.
proof fn lemma_run_linked<L: ReduceLookahead>(
    table: &ParseTableLR,
    grammar: &Grammar,
    collection: &CanonicalCollectionGraph,
    strategy: &L,
    input: Input,
    cursor: int,
    n: nat,
)
    requires
        built(table, grammar, collection, strategy),
        sorted(table, grammar, input),
        n <= GRAPH_LIMIT,
    ensures
        run(table, grammar, input, cursor, n) matches Outcome::Go(c) ==> linked(collection, c.stack),
        run(table, grammar, input, cursor, n) matches Outcome::Accept(root, c) ==> linked(
            collection,
            c.stack,
        ),
    decreases n,
{
    if n > 0 {
        let m = (n - 1) as nat;
        lemma_run_linked(table, grammar, collection, strategy, input, cursor, m);
        lemma_leaves_are_tokens(table, grammar, input, cursor, m);
        lemma_moves_along_edges(table, grammar, collection, strategy);
        match run(table, grammar, input, cursor, m) {
            Outcome::Go(c) => {
                if step(table, grammar, input, c) is Go {
                    lemma_step_linked(table, grammar, collection, input, c);
                }
            },
            other => {},
        }
    }
}

/// A parser with a built table for a grammar whose augmented start symbol
/// stands in no right-hand side accepts only with one tree on its stack and
/// only when it looks at end-of-input.
pub proof fn lemma_accepts_one_tree<L: ReduceLookahead>(
    table: &ParseTableLR,
    grammar: &Grammar,
    collection: &CanonicalCollectionGraph,
    strategy: &L,
    input: Input,
    cursor: int,
    n: nat,
)
    requires
        built(table, grammar, collection, strategy),
        sorted(table, grammar, input),
        start_unused(grammar),
        n <= GRAPH_LIMIT,
        run(table, grammar, input, cursor, n) is Accept,
    ensures
        run(table, grammar, input, cursor, n)->Accept_1.stack.len() == 3,
        run(table, grammar, input, cursor, n)->Accept_1.lookahead.token == EOF@,
{
    let c = run(table, grammar, input, cursor, n)->Accept_1;
    lemma_run_linked(table, grammar, collection, strategy, input, cursor, n);
    lemma_leaves_are_tokens(table, grammar, input, cursor, n);
    lemma_accept_came_from_step(table, grammar, input, cursor, n);
    let len = c.stack.len() as int;
    assert(c.stack[len - 1] == c.stack.last());
    assert(len % 2 == 1) by {
        if len % 2 == 0 {
            assert(c.stack[len - 2] is State);
        }
    }
    assert(c.stack[len - 1] is State);
    let q = c.stack.last()->State_0;
    let y = c.lookahead.token;
    assert(action_of(table, grammar, c) == table.lookup(q, y));
    assert(q < collection.count());
    let items = collection.state_seq(q as int);
    lemma_entry_kinds(
        grammar,
        items,
        collection.edges()[q as int],
        look_of(strategy, grammar, collection, q as int),
        y,
    );
    let t = choose|t: LR0Item| items.contains(t) && is_accept(t);
    assert(items.to_set().contains(t));
    assert(collection.states()[q as int].contains(t));
    if len >= 5 {
        assert(linked_at(collection, c.stack, len - 1));
        assert(linked_at(collection, c.stack, len - 3));
        let p = c.stack[len - 3]->State_0 as int;
        let x = choose|x: Symbol| #[trigger] has_edge(collection, p, x, q as int);
        lemma_edge_is_goto(grammar, collection, p, x, q as int);
        let from = collection.states()[p];
        let moved = goto(grammar@, from, x);
        if !moved.contains(t) {
            lemma_closure_kernel(grammar, moved, t);
        }
        let item = choose|item: LR0Item|
            from.contains(item) && #[trigger] expects(grammar@, item, x) && t == advance(item);
        lemma_lengths(grammar, item.rule_index as int);
        assert(item == first_item());
        assert(c.stack[len - 3] is State);
        let lower = c.stack[len - 5]->State_0 as int;
        let via = choose|via: Symbol| #[trigger] has_edge(collection, lower, via, p);
        lemma_edge_is_goto(grammar, collection, lower, via, p);
        lemma_target_lacks_first_item(grammar, collection.states()[lower], via);
    }
}

/// The state that a transition leads to is the closure of the goto.
proof fn lemma_edge_is_goto(
    grammar: &Grammar,
    collection: &CanonicalCollectionGraph,
    from: int,
    x: Symbol,
    to: int,
)
    requires
        is_automaton(grammar@, first_item(), collection.states(), collection.edges()),
        has_edge(collection, from, x, to),
    ensures
        collection.states()[to] == closure(grammar@, goto(grammar@, collection.states()[from], x)),
{
    let edges = collection.edges();
    let k = choose|k: int|
        0 <= k < edges[from].len() && (#[trigger] edges[from][k]).symbol == x && edges[from][k].to
            == to;
    assert(edge_sound(grammar@, collection.states(), from, edges[from][k]));
}

/// Where the engine has accepted, it did so by a move with the action
/// `Accept` from the configuration it hands out, with a node below the top
/// of the stack.
proof fn lemma_accept_came_from_step(
    table: &ParseTableLR,
    grammar: &Grammar,
    input: Input,
    cursor: int,
    n: nat,
)
    requires
        run(table, grammar, input, cursor, n) is Accept,
    ensures
        action_of(table, grammar, run(table, grammar, input, cursor, n)->Accept_1)
            == ParseTableAction::Accept,
        run(table, grammar, input, cursor, n)->Accept_1.stack.len() >= 2,
        run(table, grammar, input, cursor, n)->Accept_1.stack[run(
            table,
            grammar,
            input,
            cursor,
            n,
        )->Accept_1.stack.len() - 2] is Node,
    decreases n,
{
    if n > 0 {
        let m = (n - 1) as nat;
        match run(table, grammar, input, cursor, m) {
            Outcome::Go(c) => {},
            Outcome::Accept(root, c) => {
                lemma_accept_came_from_step(table, grammar, input, cursor, m);
            },
            Outcome::Fail(e) => {},
        }
    }
}

/// The leaves of `tree`, from left to right, are the tokens that the
/// tokenizer finds in `text` with the token types of `grammar`, in their
/// order, and behind the last of them it finds the end of the input.
pub open spec fn holds_input(grammar: &Grammar, text: Seq<char>, tree: Derivation) -> bool {
    let input = inline_input(grammar, text);
    let leaves = yield_of(tree.nodes(), tree.links(), tree.0 as int);
    &&& forall|j: nat|
        j < leaves.len() ==> (#[trigger] taken(input, 0, j)) == Some(
            (leaves[j as int], position_behind(taken(input, 0, j))),
        )
    &&& taken(input, 0, leaves.len()) matches Some(last) && last.0.token == EOF@
}

/// What a parser with a built table hands out when it accepts: for a
/// grammar whose augmented start symbol stands in no right-hand side, the
/// leaves of the tree, from left to right, are the tokens that the
/// tokenizer finds in the text, in their order, up to the end of the input.
pub proof fn lemma_accepted_tree_holds_input<L: ReduceLookahead>(
    table: &ParseTableLR,
    grammar: &Grammar,
    collection: &CanonicalCollectionGraph,
    strategy: &L,
    text: Seq<char>,
    n: nat,
    tree: Derivation,
)
    requires
        built(table, grammar, collection, strategy),
        start_unused(grammar),
        parsed(table, grammar, inline_input(grammar, text), 0, n, Ok(tree)),
    ensures
        holds_input(grammar, text, tree),
{
    let input = inline_input(grammar, text);
    lemma_table_sorted(table, grammar, collection, strategy, text);
    lemma_leaves_are_tokens(table, grammar, input, 0, n);
    lemma_accepts_one_tree(table, grammar, collection, strategy, input, 0, n);
    let c = run(table, grammar, input, 0, n)->Accept_1;
    assert(in_step(table, grammar, input, 0, n, c));
    let seen = consumed(table, grammar, input, 0, n);
    assert(yield_of(tree.nodes(), tree.links(), tree.0 as int) == seen);
}

/// The tree that the LR(0) parser hands out holds the input.
pub proof fn lemma_lr0_tree_holds_input(
    parser: &GrammarParserLR0,
    grammar: &Grammar,
    text: Seq<char>,
    n: nat,
    tree: Derivation,
)
    requires
        grammar.wf(),
        parser.wf(grammar),
        start_unused(grammar),
        parsed(&parser.parse_table(), grammar, inline_input(grammar, text), 0, n, Ok(tree)),
    ensures
        holds_input(grammar, text, tree),
{
    lemma_lr0_built(parser, grammar);
    lemma_accepted_tree_holds_input(
        &parser.parse_table(),
        grammar,
        &parser.automaton(),
        &EveryTerminal,
        text,
        n,
        tree,
    );
}

/// The tree that the SLR(1) parser hands out holds the input.
pub proof fn lemma_slr1_tree_holds_input(
    parser: &GrammarParserSLR1,
    grammar: &Grammar,
    text: Seq<char>,
    n: nat,
    tree: Derivation,
)
    requires
        grammar.wf(),
        parser.wf(grammar),
        start_unused(grammar),
        parsed(&parser.parse_table(), grammar, inline_input(grammar, text), 0, n, Ok(tree)),
    ensures
        holds_input(grammar, text, tree),
{
    lemma_slr1_built(parser, grammar);
    lemma_accepted_tree_holds_input(
        &parser.parse_table(),
        grammar,
        &parser.automaton(),
        &FollowOfLeft,
        text,
        n,
        tree,
    );
}

/// The tree that the LALR(1) parser hands out holds the input.
pub proof fn lemma_lalr1_tree_holds_input(
    parser: &GrammarParserLALR1,
    grammar: &Grammar,
    text: Seq<char>,
    n: nat,
    tree: Derivation,
)
    requires
        grammar.wf(),
        parser.wf(grammar),
        start_unused(grammar),
        parsed(&parser.parse_table(), grammar, inline_input(grammar, text), 0, n, Ok(tree)),
    ensures
        holds_input(grammar, text, tree),
{
    lemma_lalr1_built(parser, grammar);
    lemma_accepted_tree_holds_input(
        &parser.parse_table(),
        grammar,
        &parser.automaton(),
        &Lalr,
        text,
        n,
        tree,
    );
}

} // verus!
