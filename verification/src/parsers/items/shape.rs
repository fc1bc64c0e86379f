//! What the construction of the automaton yields: closed states, and for
//! each state and each symbol that one of its items expects exactly one
//! transition, to the closure of the goto.

use vstd::prelude::*;
use crate::grammar::model::{RuleView, Symbol};
use crate::parsers::items::automaton::{
    build_step, expected_symbols, number_of, ordered, seed, successors, Build, EdgeView, Pending,
};
use crate::parsers::items::model::{
    ascending, closure, expects, goto, is_final, item_valid, lemma_ascending_unique, next_symbol,
    LR0Item,
};
use crate::text::lemma_push_distinct;

verus! {

/// Some item of `state` expects `x`.
pub open spec fn state_expects(rules: Seq<RuleView>, state: Set<LR0Item>, x: Symbol) -> bool {
    exists|t: LR0Item| state.contains(t) && #[trigger] expects(rules, t, x)
}

/// The transition `e` out of state `i` is on a symbol that the state
/// expects and leads to the closure of the goto on that symbol.
pub open spec fn edge_sound(rules: Seq<RuleView>, states: Seq<Set<LR0Item>>, i: int, e: EdgeView) -> bool {
    &&& e.from == i
    &&& 0 <= e.to < states.len()
    &&& state_expects(rules, states[i], e.symbol)
    &&& states[e.to] == closure(rules, goto(rules, states[i], e.symbol))
}

/// One of the transitions is on `x`.
pub open spec fn has_edge_on(edges: Seq<EdgeView>, x: Symbol) -> bool {
    exists|k: int| 0 <= k < edges.len() && (#[trigger] edges[k]).symbol == x
}

/// The transition of state `i` on `x` is still pending.
pub open spec fn is_pending(stack: Seq<Pending>, i: int, x: Symbol) -> bool {
    exists|j: int| 0 <= j < stack.len() && (#[trigger] stack[j]).from == Some(i) && stack[j].symbol == x
}

/// A pending item set is the goto of the state it was reached from, or the
/// first item if it was reached from nowhere.
pub open spec fn pending_sound(rules: Seq<RuleView>, item: LR0Item, b: Build, p: Pending) -> bool {
    match p.from {
        Some(f) => 0 <= f < b.states.len() && state_expects(rules, b.states[f], p.symbol)
            && p.items == goto(rules, b.states[f], p.symbol),
        None => b.states.len() == 0 && p.items == set![item],
    }
}

/// No two transitions of one state are on the same symbol.
pub open spec fn edges_distinct(edges: Seq<EdgeView>) -> bool {
    forall|k1: int, k2: int|
        0 <= k1 < edges.len() && 0 <= k2 < edges.len() && (#[trigger] edges[k1]).symbol == (
        #[trigger] edges[k2]).symbol ==> k1 == k2
}

/// No two pending item sets stand for the same transition.
pub open spec fn pending_distinct(stack: Seq<Pending>) -> bool {
    forall|j1: int, j2: int|
        0 <= j1 < stack.len() && 0 <= j2 < stack.len() && (#[trigger] stack[j1]).from == (
        #[trigger] stack[j2]).from && stack[j1].symbol == stack[j2].symbol ==> j1 == j2
}

/// Every expected transition of state `i` is recorded or pending, and none
/// is both.
pub open spec fn accounted(rules: Seq<RuleView>, b: Build, i: int) -> bool {
    forall|x: Symbol|
        #![trigger has_edge_on(b.edges[i], x)]
        #![trigger is_pending(b.stack, i, x)]
        (state_expects(rules, b.states[i], x) ==> has_edge_on(b.edges[i], x) || is_pending(
            b.stack,
            i,
            x,
        )) && !(has_edge_on(b.edges[i], x) && is_pending(b.stack, i, x))
}

/// What holds of the construction after every move.
pub open spec fn shaped(rules: Seq<RuleView>, item: LR0Item, b: Build) -> bool {
    &&& b.states.len() == b.edges.len()
    &&& b.states.no_duplicates()
    &&& b.states.len() == 0 ==> b.stack == seed(item).stack
    &&& b.states.len() > 0 ==> b.states[0] == closure(rules, set![item])
    &&& forall|i: int, k: int|
        0 <= i < b.edges.len() && 0 <= k < b.edges[i].len() ==> edge_sound(
            rules,
            b.states,
            i,
            #[trigger] b.edges[i][k],
        )
    &&& forall|i: int| 0 <= i < b.edges.len() ==> edges_distinct(#[trigger] b.edges[i])
    &&& forall|j: int| 0 <= j < b.stack.len() ==> pending_sound(rules, item, b, #[trigger] b.stack[j])
    &&& pending_distinct(b.stack)
    &&& forall|i: int| 0 <= i < b.states.len() ==> #[trigger] accounted(rules, b, i)
}

/// The automaton of `rules` from `item`. State 0 is the closure of `item`;
/// the states are closures and differ from each other; each transition is
/// on a symbol that its source expects and leads to the closure of the
/// goto; and each state has exactly one transition on each symbol that it
/// expects.
pub open spec fn is_automaton(
    rules: Seq<RuleView>,
    item: LR0Item,
    states: Seq<Set<LR0Item>>,
    edges: Seq<Seq<EdgeView>>,
) -> bool {
    &&& states.len() == edges.len()
    &&& states.len() > 0
    &&& states.no_duplicates()
    &&& states[0] == closure(rules, set![item])
    &&& forall|i: int, k: int|
        0 <= i < edges.len() && 0 <= k < edges[i].len() ==> edge_sound(
            rules,
            states,
            i,
            #[trigger] edges[i][k],
        )
    &&& forall|i: int| 0 <= i < edges.len() ==> edges_distinct(#[trigger] edges[i])
    &&& forall|i: int, x: Symbol|
        0 <= i < states.len() && state_expects(rules, states[i], x) ==> #[trigger] has_edge_on(
            edges[i],
            x,
        )
}

/// The expected symbols are those that some item expects, each once.
pub proof fn lemma_expected_symbols(rules: Seq<RuleView>, items: Seq<LR0Item>)
    ensures
        expected_symbols(rules, items).no_duplicates(),
        forall|x: Symbol|
            expected_symbols(rules, items).contains(x) <==> exists|k: int|
                0 <= k < items.len() && #[trigger] expects(rules, items[k], x),
    decreases items.len(),
{
    if items.len() > 0 {
        let rest = items.drop_last();
        lemma_expected_symbols(rules, rest);
        let before = expected_symbols(rules, rest);
        let t = items.last();
        let all = expected_symbols(rules, items);
        if item_valid(rules, t) && !is_final(rules, t) {
            lemma_push_distinct(before, next_symbol(rules, t));
        }
        assert forall|x: Symbol| all.contains(x) <==> exists|k: int|
            0 <= k < items.len() && #[trigger] expects(rules, items[k], x) by {
            if all.contains(x) {
                if before.contains(x) {
                    let k = choose|k: int| 0 <= k < rest.len() && #[trigger] expects(rules, rest[k], x);
                    assert(expects(rules, items[k], x));
                } else {
                    assert(all.to_set().contains(x));
                    assert(expects(rules, items[items.len() - 1], x));
                }
            }
            if exists|k: int| 0 <= k < items.len() && #[trigger] expects(rules, items[k], x) {
                let k = choose|k: int| 0 <= k < items.len() && #[trigger] expects(rules, items[k], x);
                if k < rest.len() {
                    assert(expects(rules, rest[k], x));
                    assert(before.contains(x));
                    assert(before.to_set().contains(x));
                    if item_valid(rules, t) && !is_final(rules, t) {
                        assert(all.to_set().contains(x));
                    }
                } else {
                    assert(all.to_set().contains(x));
                }
            }
        }
    }
}

/// The construction starts in shape.
pub proof fn lemma_seed_shaped(rules: Seq<RuleView>, item: LR0Item)
    ensures
        shaped(rules, item, seed(item)),
{
    let b = seed(item);
    assert(b.stack[0].from is None);
}

/// A move keeps the construction in shape.
pub proof fn lemma_step_shaped(rules: Seq<RuleView>, item: LR0Item, b: Build, order: Seq<LR0Item>)
    requires
        shaped(rules, item, b),
        b.stack.len() > 0,
        ascending(order),
        order.to_set() == closure(rules, b.stack.last().items),
    ensures
        shaped(rules, item, build_step(rules, b)),
{
    let top = b.stack.last();
    let rest = b.stack.drop_last();
    let state = closure(rules, top.items);
    let known = b.states.contains(state);
    let id = number_of(b.states, state);
    let n = build_step(rules, b);
    let last = b.stack.len() - 1;
    assert(b.stack[last] == top);
    assert(pending_sound(rules, item, b, b.stack[last]));
    lemma_ascending_unique(order, ordered(state));
    let symbols = expected_symbols(rules, order);
    lemma_expected_symbols(rules, order);
    let next = successors(rules, state, id);
    assert(next.len() == symbols.len());
    // the states
    if !known {
        assert forall|i: int, j: int|
            0 <= i < n.states.len() && 0 <= j < n.states.len() && i != j implies n.states[i]
            != n.states[j] by {
            if i < b.states.len() && j < b.states.len() {
            } else if i < b.states.len() {
                assert(b.states[i] != state);
            } else {
                assert(b.states[j] != state);
            }
        }
    }
    assert(n.states.len() == n.edges.len());
    if b.states.len() == 0 {
        assert(top.from is None);
        assert(!known);
        assert(n.states[0] == state);
    } else {
        assert(top.from is Some);
        assert(n.states[0] == b.states[0]);
    }
    let grown = if known {
        b.edges
    } else {
        b.edges.push(Seq::empty())
    };
    // the stack
    assert forall|j: int| 0 <= j < n.stack.len() implies pending_sound(
        rules,
        item,
        n,
        #[trigger] n.stack[j],
    ) by {
        if j < rest.len() {
            assert(n.stack[j] == b.stack[j]);
            assert(pending_sound(rules, item, b, b.stack[j]));
            assert(b.stack[j].from is Some) by {
                if b.states.len() == 0 {
                    assert(b.stack.len() == 1);
                }
            }
            let f = b.stack[j].from->0;
            assert(n.states[f] == b.states[f]);
        } else {
            let k = j - rest.len();
            assert(!known);
            assert(n.stack[j] == next[k]);
            assert(symbols.contains(symbols[k]));
            let w = choose|w: int| 0 <= w < order.len() && #[trigger] expects(rules, order[w], symbols[k]);
            assert(order.to_set().contains(order[w]));
            assert(n.states[id] == state);
        }
    }
    assert forall|j1: int, j2: int|
        0 <= j1 < n.stack.len() && 0 <= j2 < n.stack.len() && (#[trigger] n.stack[j1]).from == (
        #[trigger] n.stack[j2]).from && n.stack[j1].symbol == n.stack[j2].symbol implies j1
        == j2 by {
        if j1 < rest.len() && j2 < rest.len() {
            assert(n.stack[j1] == b.stack[j1] && n.stack[j2] == b.stack[j2]);
        } else if j1 >= rest.len() && j2 >= rest.len() {
            assert(n.stack[j1] == next[j1 - rest.len()]);
            assert(n.stack[j2] == next[j2 - rest.len()]);
        } else {
            let (old_j, new_j) = if j1 < rest.len() {
                (j1, j2)
            } else {
                (j2, j1)
            };
            assert(n.stack[old_j] == b.stack[old_j]);
            assert(n.stack[new_j] == next[new_j - rest.len()]);
            assert(pending_sound(rules, item, b, b.stack[old_j]));
            assert(n.stack[new_j].from == Some(id));
        }
    }
    // the edges
    assert forall|i: int, k: int|
        0 <= i < n.edges.len() && 0 <= k < n.edges[i].len() implies edge_sound(
        rules,
        n.states,
        i,
        #[trigger] n.edges[i][k],
    ) by {
        if top.from == Some(i) && k == grown[i].len() {
            assert(n.edges[i][k] == EdgeView { from: i, to: id, symbol: top.symbol });
            assert(n.states[i] == b.states[i]);
            if known {
                assert(b.states[id] == state);
            }
            assert(n.states[id] == state);
        } else {
            assert(i < b.edges.len());
            assert(n.edges[i][k] == b.edges[i][k]);
            assert(edge_sound(rules, b.states, i, b.edges[i][k]));
            assert(n.states[i] == b.states[i]);
            assert(n.states[b.edges[i][k].to] == b.states[b.edges[i][k].to]);
        }
    }
    assert forall|i: int| 0 <= i < n.edges.len() implies edges_distinct(#[trigger] n.edges[i]) by {
        if i < b.edges.len() {
            assert(edges_distinct(b.edges[i]));
            if top.from == Some(i) {
                assert(accounted(rules, b, i));
                assert(is_pending(b.stack, i, top.symbol));
                assert(!has_edge_on(b.edges[i], top.symbol));
                assert forall|k1: int, k2: int|
                    0 <= k1 < n.edges[i].len() && 0 <= k2 < n.edges[i].len() && (
                    #[trigger] n.edges[i][k1]).symbol == (#[trigger] n.edges[i][k2]).symbol implies k1
                    == k2 by {
                    if k1 < b.edges[i].len() {
                        assert(n.edges[i][k1] == b.edges[i][k1]);
                    }
                    if k2 < b.edges[i].len() {
                        assert(n.edges[i][k2] == b.edges[i][k2]);
                    }
                }
            } else {
                assert(n.edges[i] == b.edges[i]);
            }
        }
    }
    // the account
    assert forall|i: int| 0 <= i < n.states.len() implies #[trigger] accounted(rules, n, i) by {
        assert forall|x: Symbol|
            #![trigger has_edge_on(n.edges[i], x)]
            #![trigger is_pending(n.stack, i, x)]
            (state_expects(rules, n.states[i], x) ==> has_edge_on(n.edges[i], x) || is_pending(
                n.stack,
                i,
                x,
            )) && !(has_edge_on(n.edges[i], x) && is_pending(n.stack, i, x)) by {
            if i < b.states.len() {
                assert(accounted(rules, b, i));
                assert(n.states[i] == b.states[i]);
                let moved = top.from == Some(i) && top.symbol == x;
                // pending before and after
                if is_pending(b.stack, i, x) && !moved {
                    let j = choose|j: int|
                        0 <= j < b.stack.len() && (#[trigger] b.stack[j]).from == Some(i)
                            && b.stack[j].symbol == x;
                    assert(j < rest.len());
                    assert(n.stack[j] == b.stack[j]);
                    assert(is_pending(n.stack, i, x));
                }
                if is_pending(n.stack, i, x) {
                    let j = choose|j: int|
                        0 <= j < n.stack.len() && (#[trigger] n.stack[j]).from == Some(i)
                            && n.stack[j].symbol == x;
                    if j < rest.len() {
                        assert(n.stack[j] == b.stack[j]);
                        assert(is_pending(b.stack, i, x));
                        if moved {
                            assert(b.stack[j].from == b.stack[last].from);
                        }
                    } else {
                        assert(n.stack[j] == next[j - rest.len()]);
                    }
                }
                // edges before and after
                if has_edge_on(b.edges[i], x) {
                    let k = choose|k: int| 0 <= k < b.edges[i].len() && (#[trigger] b.edges[i][k]).symbol == x;
                    assert(n.edges[i][k] == b.edges[i][k]);
                    assert(has_edge_on(n.edges[i], x));
                }
                if moved {
                    assert(n.edges[i][grown[i].len() as int].symbol == x);
                    assert(has_edge_on(n.edges[i], x));
                    assert(is_pending(b.stack, i, x));
                }
                if has_edge_on(n.edges[i], x) && !moved {
                    let k = choose|k: int| 0 <= k < n.edges[i].len() && (#[trigger] n.edges[i][k]).symbol == x;
                    if k < b.edges[i].len() {
                        assert(n.edges[i][k] == b.edges[i][k]);
                    }
                    assert(has_edge_on(b.edges[i], x));
                }
            } else {
                assert(!known && i == id);
                assert(n.states[i] == state);
                assert(top.from != Some(i)) by {
                    if top.from is Some {
                        assert(top.from->0 < b.states.len());
                    }
                }
                assert(n.edges[i] =~= Seq::<EdgeView>::empty());
                if state_expects(rules, state, x) {
                    let t = choose|t: LR0Item| state.contains(t) && #[trigger] expects(rules, t, x);
                    assert(order.contains(t));
                    let w = choose|w: int| 0 <= w < order.len() && order[w] == t;
                    assert(expects(rules, order[w], x));
                    assert(symbols.contains(x));
                    let k = choose|k: int| 0 <= k < symbols.len() && symbols[k] == x;
                    assert(n.stack[rest.len() + k] == next[k]);
                    assert(is_pending(n.stack, i, x));
                }
            }
        }
    }
}

/// A construction in shape that has nothing pending is the automaton.
pub proof fn lemma_shaped_automaton(rules: Seq<RuleView>, item: LR0Item, b: Build)
    requires
        shaped(rules, item, b),
        b.stack.len() == 0,
    ensures
        is_automaton(rules, item, b.states, b.edges),
{
    assert(b.states.len() > 0) by {
        if b.states.len() == 0 {
            assert(seed(item).stack.len() == 1);
        }
    }
    assert forall|i: int, x: Symbol|
        0 <= i < b.states.len() && state_expects(rules, b.states[i], x) implies #[trigger] has_edge_on(
        b.edges[i],
        x,
    ) by {
        assert(accounted(rules, b, i));
        assert(!is_pending(b.stack, i, x));
    }
}

} // verus!
