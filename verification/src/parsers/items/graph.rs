//! States of the item automaton, and the automaton itself: the canonical
//! collection of item sets with its transitions.

use vstd::prelude::*;
use vstd::string::StringExecFns;
use bimap::BiHashMap;
use crate::grammar::Grammar;
use crate::parsers::items::automaton::{
    build_step, expected_symbols, is_collection, lemma_states_bound, number_of, ordered, run, seed,
    state_bound, successors, EdgeView, Pending,
};
use crate::parsers::items::lr::{item_text, items_known, items_valid, ClosurableItem, LRItem};
use crate::parsers::items::lr0::lemma_final_by_numbers;
use crate::parsers::items::model::{
    advance, ascending, closure, expects, goto, is_accept, is_final, item_valid,
    lemma_ascending_unique, lemma_closure_valid, LR0Item,
};
use crate::parsers::items::set::ItemSet;
use crate::parsers::items::shape::{
    is_automaton, lemma_seed_shaped, lemma_shaped_automaton, lemma_step_shaped, shaped,
};
use crate::parsers::items::store::{store_find, store_get, store_insert, store_new, stored};
use crate::text::StringSet;

verus! {

/// A state of the automaton: a set of items, and whether the set has been
/// closed.
pub struct GraphState {
    pub(crate) items: ItemSet,
    pub(crate) is_closured: bool,
}

/// A transition of the automaton.
pub struct GraphEdge {
    pub from: usize,
    pub to: usize,
    pub symbol: String,
}

impl View for GraphEdge {
    type V = EdgeView;

    open spec fn view(&self) -> EdgeView {
        EdgeView { from: self.from as int, to: self.to as int, symbol: self.symbol@ }
    }
}

/// The texts of the items, each followed by a line break.
pub open spec fn lines(grammar: &Grammar, items: Seq<LR0Item>) -> Seq<char>
    decreases items.len(),
{
    if items.len() == 0 {
        Seq::empty()
    } else {
        lines(grammar, items.drop_last()) + item_text(grammar, items.last()) + "\n"@
    }
}

impl GraphState {
    /// The items of the state.
    pub open(crate) spec fn items(&self) -> Set<LR0Item> {
        self.items@
    }

    /// The items of the state in ascending order.
    pub open(crate) spec fn seq(&self) -> Seq<LR0Item> {
        self.items.seq()
    }

    /// Whether the state has been closed.
    pub open(crate) spec fn closed(&self) -> bool {
        self.is_closured
    }

    /// The items stand in ascending order.
    pub open(crate) spec fn wf(&self) -> bool {
        self.items.wf()
    }

    /// A state with the given items, not yet closed.
    pub fn new(items: ItemSet) -> (state: Self)
        requires
            items.wf(),
        ensures
            state.wf(),
            state.items() == items@,
            state.seq() == items.seq(),
            !state.closed(),
    {
        GraphState { items, is_closured: false }
    }

    /// Closes the state, unless it is closed already.
    pub fn closure(&mut self, grammar: &Grammar)
        requires
            grammar.wf(),
            old(self).wf(),
            items_known(grammar, old(self).items()),
        ensures
            final(self).wf(),
            final(self).closed(),
            old(self).closed() ==> final(self).items() == old(self).items(),
            !old(self).closed() ==> final(self).items() == closure(grammar@, old(self).items()),
    {
        if self.is_closured {
            return;
        }
        LR0Item::closure(grammar, &mut self.items);
        self.is_closured = true;
    }

    /// The items that expect `symbol`, each moved over it; not closed.
    pub fn goto(&self, grammar: &Grammar, symbol: &str) -> (r: ItemSet)
        requires
            grammar.wf(),
            self.wf(),
            items_known(grammar, self.items()),
        ensures
            r.wf(),
            r@ == goto(grammar@, self.items(), symbol@),
    {
        LR0Item::goto(grammar, &self.items, symbol)
    }

    /// Whether the two states have the same items.
    pub fn equals(&self, other: &GraphState) -> (r: bool)
        requires
            self.wf(),
            other.wf(),
        ensures
            r == (self.items() == other.items()),
    {
        self.items.same_items(&other.items)
    }

    /// Whether the state has been closed.
    pub fn is_closured(&self) -> (r: bool)
        ensures
            r == self.closed(),
    {
        self.is_closured
    }

    /// Whether some item of the state is final.
    pub fn is_final(&self, grammar: &Grammar) -> (r: bool)
        requires
            grammar.wf(),
            items_known(grammar, self.items()),
        ensures
            r == exists|t: LR0Item| self.items().contains(t) && is_final(grammar@, t),
    {
        let mut k: usize = 0;
        while k < self.items.len()
            invariant
                grammar.wf(),
                items_known(grammar, self.items()),
                k <= self.seq().len(),
                forall|j: int| 0 <= j < k ==> !is_final(grammar@, #[trigger] self.seq()[j]),
            decreases self.seq().len() - k,
        {
            let item = self.items.get(k);
            if item.is_final(grammar) {
                return true;
            }
            k += 1;
        }
        proof {
            if exists|t: LR0Item| self.items().contains(t) && is_final(grammar@, t) {
                let t = choose|t: LR0Item| self.items().contains(t) && is_final(grammar@, t);
                let j = choose|j: int| 0 <= j < self.seq().len() && self.seq()[j] == t;
                assert(!is_final(grammar@, self.seq()[j]));
            }
        }
        false
    }

    /// Whether the state holds the accept item.
    pub fn is_accept(&self, grammar: &Grammar) -> (r: bool)
        ensures
            r == exists|t: LR0Item| self.items().contains(t) && is_accept(t),
    {
        let mut k: usize = 0;
        while k < self.items.len()
            invariant
                k <= self.seq().len(),
                forall|j: int| 0 <= j < k ==> !is_accept(#[trigger] self.seq()[j]),
            decreases self.seq().len() - k,
        {
            let item = self.items.get(k);
            if item.is_accept(grammar) {
                return true;
            }
            k += 1;
        }
        proof {
            if exists|t: LR0Item| self.items().contains(t) && is_accept(t) {
                let t = choose|t: LR0Item| self.items().contains(t) && is_accept(t);
                let j = choose|j: int| 0 <= j < self.seq().len() && self.seq()[j] == t;
                assert(!is_accept(self.seq()[j]));
            }
        }
        false
    }

    /// The items of the state.
    pub fn get_items(&self) -> (items: &ItemSet)
        ensures
            items@ == self.items(),
            items.seq() == self.seq(),
            self.wf() ==> items.wf(),
    {
        &self.items
    }

    /// The items in text, one to a line.
    pub fn to_string(&self, grammar: &Grammar) -> (s: String)
        requires
            items_valid(grammar, self.items()),
        ensures
            s@ == lines(grammar, self.seq()),
    {
        let mut s = String::new();
        let mut k: usize = 0;
        while k < self.items.len()
            invariant
                items_valid(grammar, self.items()),
                k <= self.seq().len(),
                s@ == lines(grammar, self.seq().take(k as int)),
            decreases self.seq().len() - k,
        {
            let item = self.items.get(k);
            proof {
                assert(self.seq().take(k + 1).drop_last() =~= self.seq().take(k as int));
            }
            let text = item.to_string(grammar);
            s.append(text.as_str());
            s.append("\n");
            k += 1;
        }
        assert(self.seq().take(self.seq().len() as int) =~= self.seq());
        s
    }
}

/// An item set that waits to become a state.
pub struct PendingSet {
    pub items: ItemSet,
    pub from: Option<usize>,
    pub symbol: String,
}

impl View for PendingSet {
    type V = Pending;

    open spec fn view(&self) -> Pending {
        Pending {
            items: self.items@,
            from: match self.from {
                Some(f) => Some(f as int),
                None => None,
            },
            symbol: self.symbol@,
        }
    }
}

/// The pending item sets that a stack stands for.
pub open spec fn pending_views(stack: Seq<PendingSet>) -> Seq<Pending> {
    stack.map_values(|p: PendingSet| p@)
}

/// The transitions that rows of edges stand for.
pub open spec fn edge_rows(edges: Seq<Vec<GraphEdge>>) -> Seq<Seq<EdgeView>> {
    edges.map_values(|row: Vec<GraphEdge>| row@.map_values(|e: GraphEdge| e@))
}

/// The items that a list of pairs stands for.
pub open spec fn items_of(pairs: Seq<(usize, usize)>) -> Seq<LR0Item> {
    pairs.map_values(|p: (usize, usize)| LR0Item { rule_index: p.0, dot_index: p.1 })
}

/// The items of a set as a list of pairs.
fn to_pairs(items: &ItemSet) -> (pairs: Vec<(usize, usize)>)
    ensures
        items_of(pairs@) == items.seq(),
{
    let mut pairs: Vec<(usize, usize)> = Vec::new();
    let mut k: usize = 0;
    while k < items.len()
        invariant
            k <= items.seq().len(),
            pairs@.len() == k,
            forall|j: int| 0 <= j < k ==> items_of(pairs@)[j] == items.seq()[j],
        decreases items.seq().len() - k,
    {
        let item = items.get(k);
        pairs.push((item.rule_index, item.dot_index));
        k += 1;
    }
    assert(items_of(pairs@) =~= items.seq());
    pairs
}

/// Equal item lists stand for equal lists of pairs.
proof fn lemma_items_of_injective(a: Seq<(usize, usize)>, b: Seq<(usize, usize)>)
    requires
        items_of(a) == items_of(b),
    ensures
        a == b,
{
    assert(a.len() == items_of(a).len());
    assert(b.len() == items_of(b).len());
    assert forall|i: int| 0 <= i < a.len() implies a[i] == b[i] by {
        assert(items_of(a)[i] == LR0Item { rule_index: a[i].0, dot_index: a[i].1 });
        assert(items_of(b)[i] == LR0Item { rule_index: b[i].0, dot_index: b[i].1 });
        assert(a[i].0 == b[i].0 && a[i].1 == b[i].1);
    }
    assert(a =~= b);
}

/// The symbols that the items of `state` expect, in order of first
/// occurrence.
fn expected(grammar: &Grammar, state: &ItemSet) -> (symbols: StringSet)
    requires
        grammar.wf(),
        items_valid(grammar, state@),
    ensures
        symbols.wf(),
        symbols@ == expected_symbols(grammar@, state.seq()),
{
    let mut symbols = StringSet::new();
    let mut k: usize = 0;
    while k < state.len()
        invariant
            grammar.wf(),
            items_valid(grammar, state@),
            k <= state.seq().len(),
            symbols.wf(),
            symbols@ == expected_symbols(grammar@, state.seq().take(k as int)),
        decreases state.seq().len() - k,
    {
        let item = state.get(k);
        proof {
            assert(state.seq().take(k + 1).drop_last() =~= state.seq().take(k as int));
            assert(item_valid(grammar@, item));
            lemma_final_by_numbers(grammar, item);
        }
        if !item.is_final(grammar) {
            let rule = grammar.get_rule(item.rule_index);
            assert(rule@.right[item.dot_index as int] == rule.right@[item.dot_index as int]@);
            symbols.insert(rule.right[item.dot_index].clone());
        }
        k += 1;
    }
    assert(state.seq().take(state.seq().len() as int) =~= state.seq());
    symbols
}

/// The canonical collection: the states of the item automaton, numbered in
/// the order in which they were found, and the transitions out of each.
pub struct CanonicalCollectionGraph {
    pub(crate) states: BiHashMap<usize, Vec<(usize, usize)>>,
    pub(crate) edges: Vec<Vec<GraphEdge>>,
}

impl CanonicalCollectionGraph {
    /// The number of states.
    pub open(crate) spec fn count(&self) -> nat {
        self.edges@.len()
    }

    /// The items of state `i` in ascending order.
    pub open(crate) spec fn state_seq(&self, i: int) -> Seq<LR0Item> {
        items_of(stored(self.states)[i as usize])
    }

    /// The item sets of the states, by number.
    pub open(crate) spec fn states(&self) -> Seq<Set<LR0Item>> {
        Seq::new(self.count(), |i: int| self.state_seq(i).to_set())
    }

    /// The transitions out of each state, in the order in which they were
    /// recorded.
    pub open(crate) spec fn edges(&self) -> Seq<Seq<EdgeView>> {
        edge_rows(self.edges@)
    }

    /// The states are numbered without gaps, hold valid items in ascending
    /// order and differ from each other; every transition is recorded at
    /// its source and leads to a state.
    pub open(crate) spec fn wf(&self, grammar: &Grammar) -> bool {
        &&& forall|i: usize| stored(self.states).contains_key(i) <==> i < self.count()
        &&& forall|i: int| 0 <= i < self.count() ==> ascending(#[trigger] self.state_seq(i))
        &&& forall|i: int, t: LR0Item|
            0 <= i < self.count() && (#[trigger] self.states()[i]).contains(t)
                ==> #[trigger] item_valid(grammar@, t)
        &&& self.states().no_duplicates()
        &&& forall|i: int, k: int|
            0 <= i < self.count() && 0 <= k < self.edges()[i].len() ==> (
            #[trigger] self.edges()[i][k]).from == i && 0 <= self.edges()[i][k].to < self.count()
    }

    /// The number of states.
    pub fn state_count(&self) -> (n: usize)
        ensures
            n == self.count(),
    {
        self.edges.len()
    }

    /// The state with number `id`: its items, closed.
    pub fn state(&self, grammar: &Grammar, id: usize) -> (state: GraphState)
        requires
            self.wf(grammar),
            id < self.count(),
        ensures
            state.wf(),
            state.closed(),
            state.seq() == self.state_seq(id as int),
            state.items() == self.states()[id as int],
            items_valid(grammar, state.items()),
    {
        let mut items: Vec<LR0Item> = Vec::new();
        match store_get(&self.states, id) {
            Some(pairs) => {
                let mut k: usize = 0;
                while k < pairs.len()
                    invariant
                        k <= pairs@.len(),
                        items@.len() == k,
                        forall|j: int| 0 <= j < k ==> items@[j] == items_of(pairs@)[j],
                    decreases pairs@.len() - k,
                {
                    items.push(LR0Item { rule_index: pairs[k].0, dot_index: pairs[k].1 });
                    k += 1;
                }
                assert(items@ =~= self.state_seq(id as int));
            },
            None => {},
        }
        assert(ascending(self.state_seq(id as int)));
        let state = GraphState { items: ItemSet { items }, is_closured: true };
        assert forall|t: LR0Item| state.items().contains(t) implies #[trigger] item_valid(
            grammar@,
            t,
        ) by {
            assert(self.states()[id as int].contains(t));
        }
        state
    }

    /// The transitions out of the state with number `id`, in the order in
    /// which they were recorded.
    pub fn edges_from(&self, id: usize) -> (row: &Vec<GraphEdge>)
        requires
            id < self.count(),
        ensures
            row@.map_values(|e: GraphEdge| e@) == self.edges()[id as int],
    {
        &self.edges[id]
    }

    /// Builds the automaton of `grammar` from `initial_item`.
    pub fn new(grammar: &Grammar, initial_item: LR0Item) -> (c: Self)
        requires
            grammar.wf(),
            item_valid(grammar@, initial_item),
        ensures
            c.wf(grammar),
            is_collection(grammar@, initial_item, c.states(), c.edges()),
            is_automaton(grammar@, initial_item, c.states(), c.edges()),
    {
        let ghost rules = grammar@;
        let mut first = ItemSet::new();
        first.insert(initial_item);
        let mut stack: Vec<PendingSet> = Vec::new();
        stack.push(PendingSet { items: first, from: None, symbol: String::new() });
        let mut c = CanonicalCollectionGraph { states: store_new(), edges: Vec::new() };
        let ghost mut b = seed(initial_item);
        let ghost mut moves: nat = 0;
        let total = grammar.get_rules().len();
        proof {
            assert(rules.len() == total);
            assert(pending_views(stack@) =~= b.stack);
            assert(c.states() =~= b.states);
            assert(c.edges() =~= b.edges);
            lemma_states_bound(rules, b.states);
            lemma_seed_shaped(rules, initial_item);
        }
        while stack.len() > 0
            invariant
                grammar.wf(),
                shaped(rules, initial_item, b),
                rules == grammar@,
                rules.len() == total,
                b == run(rules, seed(initial_item), moves),
                c.wf(grammar),
                c.states() == b.states,
                c.edges() == b.edges,
                pending_views(stack@) == b.stack,
                b.states.len() <= state_bound(rules),
                forall|j: int|
                    0 <= j < stack@.len() ==> (#[trigger] stack@[j]).items.wf() && items_valid(
                        grammar,
                        stack@[j].items@,
                    ) && (stack@[j].from matches Some(f) ==> f < c.count()),
            decreases state_bound(rules) - b.states.len(), stack@.len(),
        {
            let ghost before = b;
            let ghost old_stack = stack@;
            let ghost old_c = c;
            let top = stack.pop().unwrap();
            proof {
                assert(top == old_stack[old_stack.len() - 1]);
                assert(top@ == before.stack.last());
                assert(pending_views(stack@) =~= before.stack.drop_last());
            }
            let PendingSet { items, from, symbol } = top;
            let mut state = items;
            let ghost raw = state@;
            proof {
                assert(items_valid(grammar, raw));
                assert forall|t: LR0Item| raw.contains(t) implies (#[trigger] t.rule_index)
                    < grammar@.len() by {
                    assert(item_valid(grammar@, t));
                }
            }
            LR0Item::closure(grammar, &mut state);
            proof {
                lemma_closure_valid(rules, raw);
                assert(items_valid(grammar, state@));
            }
            let key = to_pairs(&state);
            let found = store_find(&c.states, &key);
            let ghost known = before.states.contains(state@);
            proof {
                if known {
                    let i = choose|i: int| 0 <= i < before.states.len() && before.states[i] == state@;
                    assert(old_c.states()[i] == old_c.state_seq(i).to_set());
                    lemma_ascending_unique(old_c.state_seq(i), state.seq());
                    lemma_items_of_injective(stored(old_c.states)[i as usize], key@);
                    assert(stored(old_c.states).contains_key(i as usize));
                }
                match found {
                    Some(i) => {
                        assert(old_c.states()[i as int] == old_c.state_seq(i as int).to_set());
                        assert(before.states[i as int] == state@);
                        assert(number_of(before.states, state@) == i);
                    },
                    None => {},
                }
            }
            let id = match found {
                Some(i) => i,
                None => {
                    assert(!known);
                    let id = c.edges.len();
                    store_insert(&mut c.states, id, key);
                    c.edges.push(Vec::new());
                    proof {
                        assert(c.state_seq(id as int) == state.seq());
                        assert forall|i: int| 0 <= i < old_c.count() implies c.state_seq(i)
                            == old_c.state_seq(i) by {}
                        assert(c.states() =~= before.states.push(state@));
                        assert(c.edges@[id as int]@.len() == 0);
                        assert(c.edges()[id as int] =~= Seq::<EdgeView>::empty());
                        assert forall|i: int| 0 <= i < old_c.count() implies c.edges()[i]
                            == before.edges[i] by {
                            assert(c.edges@[i] == old_c.edges@[i]);
                            assert(old_c.edges()[i] == before.edges[i]);
                        }
                        assert(c.edges() =~= before.edges.push(Seq::empty()));
                        assert forall|i: int| 0 <= i < c.count() implies ascending(
                            #[trigger] c.state_seq(i),
                        ) by {
                            if i < old_c.count() {
                                assert(ascending(old_c.state_seq(i)));
                            }
                        }
                        assert forall|i: int, t: LR0Item|
                            0 <= i < c.count() && (#[trigger] c.states()[i]).contains(
                                t,
                            ) implies #[trigger] item_valid(grammar@, t) by {
                            if i < old_c.count() {
                                assert(old_c.states()[i].contains(t));
                            } else {
                                assert(state@.contains(t));
                            }
                        }
                        assert forall|i: int, k: int|
                            0 <= i < c.count() && 0 <= k < c.edges()[i].len() implies (
                            #[trigger] c.edges()[i][k]).from == i && 0 <= c.edges()[i][k].to
                                < c.count() by {
                            assert(old_c.edges()[i][k] == c.edges()[i][k]);
                        }
                        assert(c.wf(grammar));
                        lemma_states_bound(rules, c.states());
                    }
                    let symbols = expected(grammar, &state);
                    proof {
                        lemma_ascending_unique(state.seq(), ordered(state@));
                    }
                    let ghost next = successors(rules, state@, id as int);
                    let ghost base = stack@;
                    let mut k: usize = 0;
                    while k < symbols.len()
                        invariant
                            grammar.wf(),
                            rules == grammar@,
                            state.wf(),
                            items_valid(grammar, state@),
                            symbols@ == expected_symbols(rules, ordered(state@)),
                            next == successors(rules, state@, id as int),
                            k <= symbols@.len(),
                            id < c.count(),
                            pending_views(stack@) == pending_views(base) + next.take(k as int),
                            forall|j: int|
                                0 <= j < stack@.len() ==> (#[trigger] stack@[j]).items.wf()
                                    && items_valid(grammar, stack@[j].items@) && (
                                stack@[j].from matches Some(f) ==> f < c.count()),
                        decreases symbols@.len() - k,
                    {
                        let symbol = symbols.get(k);
                        let moved = LR0Item::goto(grammar, &state, symbol.as_str());
                        proof {
                            assert forall|t: LR0Item| moved@.contains(t) implies #[trigger] item_valid(
                                rules,
                                t,
                            ) by {
                                let item = choose|item: LR0Item|
                                    state@.contains(item) && #[trigger] expects(
                                        rules,
                                        item,
                                        symbol@,
                                    ) && t == advance(item);
                            }
                        }
                        let ghost prior = stack@;
                        stack.push(PendingSet { items: moved, from: Some(id), symbol: symbol.clone() });
                        proof {
                            assert(next.take(k + 1) =~= next.take(k as int).push(next[k as int]));
                            assert(pending_views(stack@) =~= pending_views(prior).push(
                                next[k as int],
                            ));
                        }
                        k += 1;
                    }
                    proof {
                        assert(next.take(symbols@.len() as int) =~= next);
                    }
                    id
                },
            };
            let ghost grown = c.edges();
            let ghost mid = c;
            let ghost label = symbol@;
            assert(id < c.count());
            match from {
                Some(f) => {
                    let ghost row = c.edges@[f as int]@;
                    let edge = GraphEdge { from: f, to: id, symbol };
                    c.edges[f].push(edge);
                    proof {
                        let added = EdgeView { from: f as int, to: id as int, symbol: label };
                        assert(c.edges@[f as int]@ =~= row.push(edge));
                        assert(c.edges@.len() == mid.edges@.len());
                        assert(c.edges()[f as int] =~= grown[f as int].push(added));
                        assert forall|i: int| 0 <= i < c.count() && i != f implies c.edges()[i]
                            == grown[i] by {
                            assert(c.edges@[i] == mid.edges@[i]);
                        }
                        assert(c.edges() =~= grown.update(f as int, grown[f as int].push(added)));
                        assert forall|i: int| 0 <= i < mid.count() implies c.state_seq(i)
                            == mid.state_seq(i) by {}
                        assert(c.states() =~= mid.states());
                        assert forall|i: int, k: int|
                            0 <= i < c.count() && 0 <= k < c.edges()[i].len() implies (
                            #[trigger] c.edges()[i][k]).from == i && 0 <= c.edges()[i][k].to
                                < c.count() by {
                            if i == f && k == grown[f as int].len() {
                            } else {
                                assert(mid.edges()[i][k] == c.edges()[i][k]);
                            }
                        }
                        assert(c.wf(grammar));
                    }
                },
                None => {},
            }
            proof {
                lemma_step_shaped(rules, initial_item, before, state.seq());
                b = build_step(rules, before);
                moves = moves + 1;
                assert(c.states() =~= b.states);
                assert(c.edges() =~= b.edges);
                assert(pending_views(stack@) =~= b.stack);
            }
        }
        proof {
            lemma_shaped_automaton(rules, initial_item, b);
        }
        c
    }
}

} // verus!
