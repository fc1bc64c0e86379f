//! The LALR(1) parser: the lookahead set of a reduction is found by going
//! back through the automaton to where the rule was predicted, and from
//! there forward over nullable symbols.

use vstd::prelude::*;
use crate::fixpoint::cell;
use crate::grammar::Grammar;
use crate::grammar::model::{
    all_in, augmented_symbol, is_terminal, nullable_set, Symbol, EOF, EPSILON,
};
use crate::parsers::items::automaton::is_collection;
use crate::parsers::items::graph::{CanonicalCollectionGraph, GraphEdge};
use crate::parsers::items::lr::LRItem;
use crate::parsers::items::lr0::{lemma_expects_by_numbers, lemma_final_by_numbers};
use crate::parsers::items::model::{
    closure, expects, goto, is_accept, is_final, item_valid, LR0Item,
};
use crate::parsers::items::shape::{edge_sound, has_edge_on, is_automaton, state_expects};
use crate::parsers::lr::GrammarParserLR;
use crate::parsers::table::{entry, look_of, ParseTableAction, ParseTableLR, ReduceLookahead};
use crate::reach::{edges_of, explore, nodes_of, reach, sized, Explorer};
use crate::text::{lemma_push_distinct, owned, same, StringSet};

verus! {

/// A nonterminal together with the number of a state.
pub type Place = (Seq<char>, int);

/// State `from` has a transition on `symbol` to state `to`.
pub open spec fn has_edge(c: &CanonicalCollectionGraph, from: int, symbol: Symbol, to: int) -> bool {
    0 <= from < c.count() && 0 <= to < c.count() && exists|k: int|
        0 <= k < c.edges()[from].len() && (#[trigger] c.edges()[from][k]).symbol == symbol
            && c.edges()[from][k].to == to
}

/// The states from which the symbols of `alpha`, taken in order, lead to
/// `state`.
pub open spec fn preds(c: &CanonicalCollectionGraph, state: int, alpha: Seq<Symbol>) -> Set<int>
    decreases alpha.len(),
{
    if alpha.len() == 0 || alpha == seq![EPSILON@] {
        set![state]
    } else {
        Set::new(
            |p: int|
                exists|s: int|
                    #[trigger] has_edge(c, s, alpha.last(), state) && preds(
                        c,
                        s,
                        alpha.drop_last(),
                    ).contains(p),
        )
    }
}

/// What stands before the dot of `item`.
pub open spec fn before_dot(grammar: &Grammar, item: LR0Item) -> Seq<Symbol> {
    grammar@[item.rule_index as int].right.subrange(0, item.dot_index as int)
}

/// What stands after the symbol behind the dot of `item`.
pub open spec fn after_next(grammar: &Grammar, item: LR0Item) -> Seq<Symbol> {
    let right = grammar@[item.rule_index as int].right;
    right.subrange(item.dot_index + 1, right.len() as int)
}

/// Item `t` of state `a.1` expects the nonterminal `a.0` with only
/// nullable symbols after it, and `b` is the left-hand side of its rule at
/// a state from which what stands before its dot leads to `a.1`.
pub open spec fn passes(
    grammar: &Grammar,
    c: &CanonicalCollectionGraph,
    a: Place,
    b: Place,
    t: LR0Item,
) -> bool {
    &&& 0 <= a.1 < c.count()
    &&& c.states()[a.1].contains(t)
    &&& expects(grammar@, t, a.0)
    &&& all_in(after_next(grammar, t), nullable_set(grammar@))
    &&& b.0 == grammar@[t.rule_index as int].left
    &&& preds(c, a.1, before_dot(grammar, t)).contains(b.1)
}

/// From place `a` the search for lookaheads goes on at place `b`.
pub open spec fn place_edge(grammar: &Grammar, c: &CanonicalCollectionGraph) -> spec_fn(
    Place,
    Place,
) -> bool {
    |a: Place, b: Place| exists|t: LR0Item| #[trigger] passes(grammar, c, a, b, t)
}

/// The places at which the search starts for `item` in state `state`: the
/// left-hand side of its rule at the states from which what stands before
/// its dot leads to `state`.
pub open spec fn first_places(
    grammar: &Grammar,
    c: &CanonicalCollectionGraph,
    state: int,
    item: LR0Item,
) -> Set<Place> {
    Set::new(
        |n: Place|
            n.0 == grammar@[item.rule_index as int].left && preds(
                c,
                state,
                before_dot(grammar, item),
            ).contains(n.1),
    )
}

/// All places of the search for `item` in state `state`.
pub open spec fn places(
    grammar: &Grammar,
    c: &CanonicalCollectionGraph,
    state: int,
    item: LR0Item,
) -> Set<Place> {
    reach(first_places(grammar, c, state, item), place_edge(grammar, c))
}

/// The state holds the accept item.
pub open spec fn accepting(c: &CanonicalCollectionGraph, q: int) -> bool {
    exists|t: LR0Item| c.states()[q].contains(t) && is_accept(t)
}

/// A symbol over which the forward search passes: a nullable symbol that
/// is not a terminal other than epsilon.
pub open spec fn skipped(grammar: &Grammar, x: Symbol) -> bool {
    !(x != EPSILON@ && is_terminal(x)) && nullable_set(grammar@).contains(x)
}

/// Item `t` of state `q`, which does not accept, expects the skipped
/// symbol `x`, on which `q` has a transition to `q2`.
pub open spec fn slides(
    grammar: &Grammar,
    c: &CanonicalCollectionGraph,
    q: int,
    q2: int,
    t: LR0Item,
) -> bool {
    &&& 0 <= q < c.count()
    &&& !accepting(c, q)
    &&& c.states()[q].contains(t)
    &&& item_valid(grammar@, t)
    &&& !is_final(grammar@, t)
    &&& skipped(grammar, grammar@[t.rule_index as int].right[t.dot_index as int])
    &&& has_edge(c, q, grammar@[t.rule_index as int].right[t.dot_index as int], q2)
}

/// From state `q` the forward search goes on at state `q2`.
pub open spec fn slide_edge(grammar: &Grammar, c: &CanonicalCollectionGraph) -> spec_fn(
    int,
    int,
) -> bool {
    |q: int, q2: int| exists|t: LR0Item| #[trigger] slides(grammar, c, q, q2, t)
}

/// The states at which the forward search starts: those reached from a
/// place's state on the place's nonterminal.
pub open spec fn first_states(c: &CanonicalCollectionGraph, from: Set<Place>) -> Set<int> {
    Set::new(|q: int| exists|n: Place| from.contains(n) && #[trigger] has_edge(c, n.1, n.0, q))
}

/// State `q` contributes `y`: end-of-input if it accepts, and otherwise a
/// terminal other than epsilon that one of its items expects.
pub open spec fn offers(grammar: &Grammar, c: &CanonicalCollectionGraph, q: int, y: Symbol) -> bool {
    &&& 0 <= q < c.count()
    &&& if accepting(c, q) {
        y == EOF@
    } else {
        y != EPSILON@ && is_terminal(y) && exists|t: LR0Item|
            c.states()[q].contains(t) && #[trigger] expects(grammar@, t, y)
    }
}

/// The LALR(1) lookahead set of `item` in state `state`: nothing for a rule
/// of the augmented start symbol, and otherwise what the states of the
/// forward search contribute.
pub open spec fn lalr_lookahead(
    grammar: &Grammar,
    c: &CanonicalCollectionGraph,
    state: int,
    item: LR0Item,
) -> Set<Symbol> {
    if grammar@[item.rule_index as int].left == augmented_symbol(grammar.start()) {
        Set::empty()
    } else {
        let seen = reach(
            first_states(c, places(grammar, c, state, item)),
            slide_edge(grammar, c),
        );
        Set::new(|y: Symbol| exists|q: int| seen.contains(q) && #[trigger] offers(grammar, c, q, y))
    }
}

/// In the automaton of a grammar, a state has a transition on a symbol to
/// another exactly when one of its items expects the symbol and the other
/// state is the closure of the goto on it.
pub proof fn lemma_edges_are_gotos(
    grammar: &Grammar,
    c: &CanonicalCollectionGraph,
    item: LR0Item,
    from: int,
    symbol: Symbol,
    to: int,
)
    requires
        is_automaton(grammar@, item, c.states(), c.edges()),
        0 <= from < c.count(),
        0 <= to < c.count(),
    ensures
        has_edge(c, from, symbol, to) <==> state_expects(grammar@, c.states()[from], symbol)
            && c.states()[to] == closure(grammar@, goto(grammar@, c.states()[from], symbol)),
{
    let states = c.states();
    let edges = c.edges();
    if has_edge(c, from, symbol, to) {
        let k = choose|k: int|
            0 <= k < edges[from].len() && (#[trigger] edges[from][k]).symbol == symbol
                && edges[from][k].to == to;
        assert(edge_sound(grammar@, states, from, edges[from][k]));
    }
    if state_expects(grammar@, states[from], symbol) && states[to] == closure(
        grammar@,
        goto(grammar@, states[from], symbol),
    ) {
        assert(has_edge_on(edges[from], symbol));
        let k = choose|k: int| 0 <= k < edges[from].len() && (#[trigger] edges[from][k]).symbol == symbol;
        assert(edge_sound(grammar@, states, from, edges[from][k]));
        assert(states[edges[from][k].to] == states[to]);
    }
}

/// The states of `preds` are states of the automaton.
pub proof fn lemma_preds_in_range(c: &CanonicalCollectionGraph, state: int, alpha: Seq<Symbol>, p: int)
    requires
        0 <= state < c.count(),
        preds(c, state, alpha).contains(p),
    ensures
        0 <= p < c.count(),
    decreases alpha.len(),
{
    if alpha.len() == 0 || alpha == seq![EPSILON@] {
    } else {
        let s = choose|s: int|
            #[trigger] has_edge(c, s, alpha.last(), state) && preds(
                c,
                s,
                alpha.drop_last(),
            ).contains(p);
        lemma_preds_in_range(c, s, alpha.drop_last(), p);
    }
}

/// The targets of the transitions of state `from` on the symbol with
/// number `x`.
fn targets(grammar: &Grammar, c: &CanonicalCollectionGraph, from: usize, x: usize) -> (out: Vec<usize>)
    requires
        grammar.wf(),
        c.wf(grammar),
        from < c.count(),
        x < grammar.table.size(),
    ensures
        forall|k: int|
            0 <= k < out@.len() ==> has_edge(c, from as int, grammar.table.names@[x as int], (#[trigger] out@[k]) as int),
        forall|q: int|
            has_edge(c, from as int, grammar.table.names@[x as int], q) ==> out@.contains(q as usize),
{
    let row = c.edges_from(from);
    let name = grammar.table.names.get(x);
    let ghost edges = c.edges()[from as int];
    let mut out: Vec<usize> = Vec::new();
    let mut k: usize = 0;
    while k < row.len()
        invariant
            c.wf(grammar),
            from < c.count(),
            edges == c.edges()[from as int],
            edges == row@.map_values(|e: GraphEdge| e@),
            name@ == grammar.table.names@[x as int],
            k <= row@.len(),
            forall|j: int| 0 <= j < out@.len() ==> has_edge(c, from as int, name@, (#[trigger] out@[j]) as int),
            forall|j: int|
                0 <= j < k && (#[trigger] edges[j]).symbol == name@ ==> out@.contains(edges[j].to as usize),
        decreases row@.len() - k,
    {
        let edge = &row[k];
        assert(edges[k as int] == edge@);
        if same(edge.symbol.as_str(), name.as_str()) {
            let ghost before = out@;
            out.push(edge.to);
            proof {
                assert(c.edges()[from as int][k as int].to == edge.to);
                assert(has_edge(c, from as int, name@, edge.to as int));
                assert forall|j: int| 0 <= j < out@.len() implies has_edge(
                    c,
                    from as int,
                    name@,
                    (#[trigger] out@[j]) as int,
                ) by {
                    if j < before.len() {
                        assert(out@[j] == before[j]);
                    }
                }
                assert forall|j: int|
                    0 <= j < k + 1 && (#[trigger] edges[j]).symbol == name@ implies out@.contains(
                    edges[j].to as usize,
                ) by {
                    if j < k {
                        let i = choose|i: int| 0 <= i < before.len() && before[i] == edges[j].to as usize;
                        assert(out@[i] == before[i]);
                    } else {
                        assert(out@[before.len() as int] == edge.to);
                    }
                }
            }
        }
        k += 1;
    }
    proof {
        assert forall|q: int| has_edge(c, from as int, name@, q) implies out@.contains(
            q as usize,
        ) by {
            let j = choose|j: int|
                0 <= j < c.edges()[from as int].len() && (#[trigger] c.edges()[from as int][j]).symbol
                    == name@ && c.edges()[from as int][j].to == q;
            assert(edges[j].symbol == name@);
        }
    }
    out
}

/// The states from which the first `upto` symbols of rule `rule` lead to
/// `state`.
fn pred(grammar: &Grammar, c: &CanonicalCollectionGraph, state: usize, rule: usize, upto: usize) -> (out: Vec<usize>)
    requires
        grammar.wf(),
        c.wf(grammar),
        state < c.count(),
        rule < grammar@.len(),
        upto <= grammar@[rule as int].right.len(),
    ensures
        forall|k: int|
            0 <= k < out@.len() ==> (#[trigger] out@[k]) < c.count() && preds(
                c,
                state as int,
                grammar@[rule as int].right.subrange(0, upto as int),
            ).contains(out@[k] as int),
        forall|p: int|
            preds(c, state as int, grammar@[rule as int].right.subrange(0, upto as int)).contains(p)
                ==> out@.contains(p as usize),
    decreases upto,
{
    let ghost right = grammar@[rule as int].right;
    let ghost alpha = right.subrange(0, upto as int);
    proof {
        assert(grammar.table.right_ok(grammar@, rule as int));
    }
    let row = &grammar.table.rights[rule];
    let mut out: Vec<usize> = Vec::new();
    if upto == 0 || (upto == 1 && row[0] == grammar.table.eps) {
        out.push(state);
        proof {
            if upto == 1 {
                assert(alpha =~= seq![EPSILON@]);
            }
            assert(out@[0] == state);
        }
        return out;
    }
    proof {
        if alpha == seq![EPSILON@] {
            assert(alpha[0] == EPSILON@);
            assert(grammar.table.names@[row@[0] as int] == grammar.table.names@[grammar.table.eps as int]);
        }
        assert(alpha.drop_last() =~= right.subrange(0, upto - 1));
        assert(alpha.last() == right[upto - 1]);
    }
    let last = row[upto - 1];
    let count = c.state_count();
    let mut s: usize = 0;
    while s < count
        invariant
            grammar.wf(),
            c.wf(grammar),
            state < c.count(),
            count == c.count(),
            rule < grammar@.len(),
            0 < upto <= right.len(),
            right == grammar@[rule as int].right,
            alpha == right.subrange(0, upto as int),
            alpha.len() > 0 && alpha != seq![EPSILON@],
            alpha.drop_last() == right.subrange(0, upto - 1),
            last < grammar.table.size(),
            grammar.table.names@[last as int] == alpha.last(),
            s <= count,
            forall|k: int|
                0 <= k < out@.len() ==> (#[trigger] out@[k]) < c.count() && preds(
                    c,
                    state as int,
                    alpha,
                ).contains(out@[k] as int),
            forall|p: int, q: int|
                0 <= q < s && #[trigger] has_edge(c, q, alpha.last(), state as int) && #[trigger] preds(
                    c,
                    q,
                    alpha.drop_last(),
                ).contains(p) ==> out@.contains(p as usize),
        decreases count - s,
    {
        let reached = targets(grammar, c, s, last);
        let mut hit = false;
        let mut k: usize = 0;
        while k < reached.len()
            invariant
                k <= reached@.len(),
                hit == exists|j: int| 0 <= j < k && reached@[j] == state,
            decreases reached@.len() - k,
        {
            if reached[k] == state {
                hit = true;
            }
            k += 1;
        }
        proof {
            if has_edge(c, s as int, alpha.last(), state as int) {
                assert(reached@.contains(state));
            }
            if hit {
                let j = choose|j: int| 0 <= j < reached@.len() && reached@[j] == state;
                assert(has_edge(c, s as int, alpha.last(), reached@[j] as int));
            }
        }
        if hit {
            let more = pred(grammar, c, s, rule, upto - 1);
            let ghost before = out@;
            let mut m: usize = 0;
            while m < more.len()
                invariant
                    m <= more@.len(),
                    out@ == before + more@.take(m as int),
                decreases more@.len() - m,
            {
                out.push(more[m]);
                assert(more@.take(m + 1) =~= more@.take(m as int).push(more@[m as int]));
                m += 1;
            }
            proof {
                assert(more@.take(more@.len() as int) =~= more@);
                assert forall|k: int| 0 <= k < out@.len() implies (#[trigger] out@[k]) < c.count()
                    && preds(c, state as int, alpha).contains(out@[k] as int) by {
                    if k >= before.len() {
                        assert(out@[k] == more@[k - before.len()]);
                        assert(has_edge(c, s as int, alpha.last(), state as int));
                    } else {
                        assert(out@[k] == before[k]);
                    }
                }
                assert forall|p: int, q: int|
                    0 <= q < s + 1 && #[trigger] has_edge(c, q, alpha.last(), state as int)
                        && #[trigger] preds(c, q, alpha.drop_last()).contains(p) implies out@.contains(
                    p as usize,
                ) by {
                    if q < s {
                        let i = choose|i: int| 0 <= i < before.len() && before[i] == p as usize;
                        assert(out@[i] == before[i]);
                    } else {
                        let i = choose|i: int| 0 <= i < more@.len() && more@[i] == p as usize;
                        assert(out@[before.len() + i] == more@[i]);
                    }
                }
            }
        }
        s += 1;
    }
    proof {
        assert forall|p: int| preds(c, state as int, alpha).contains(p) implies out@.contains(
            p as usize,
        ) by {
            let q = choose|q: int|
                #[trigger] has_edge(c, q, alpha.last(), state as int) && preds(
                    c,
                    q,
                    alpha.drop_last(),
                ).contains(p);
            assert(preds(c, q, alpha.drop_last()).contains(p));
        }
    }
    out
}

/// The graph of places: its cells are a symbol number and a state number.
pub struct PlaceGraph<'a> {
    pub grammar: &'a Grammar,
    pub collection: &'a CanonicalCollectionGraph,
}

/// Whether every symbol after the one behind the dot of `item` is nullable.
fn rest_nullable(grammar: &Grammar, item: LR0Item) -> (r: bool)
    requires
        grammar.wf(),
        item_valid(grammar@, item),
        !is_final(grammar@, item),
    ensures
        r == all_in(after_next(grammar, item), nullable_set(grammar@)),
{
    proof {
        lemma_final_by_numbers(grammar, item);
        assert(grammar.table.right_ok(grammar@, item.rule_index as int));
    }
    let row = &grammar.table.rights[item.rule_index];
    let ghost right = grammar@[item.rule_index as int].right;
    let ghost rest = after_next(grammar, item);
    assert(item.dot_index < row.len());
    let mut j: usize = item.dot_index + 1;
    while j < row.len()
        invariant
            grammar.wf(),
            item.rule_index < grammar@.len(),
            row@ == grammar.table.rights@[item.rule_index as int]@,
            right == grammar@[item.rule_index as int].right,
            row@.len() == right.len(),
            rest == after_next(grammar, item),
            item.dot_index < j <= row@.len(),
            forall|k: int|
                item.dot_index < k < j ==> nullable_set(grammar@).contains(#[trigger] right[k]),
        decreases row@.len() - j,
    {
        assert(grammar.table.right_ok(grammar@, item.rule_index as int));
        let x = row[j];
        assert(grammar.table.names@[x as int] == right[j as int]);
        if !grammar.nullable[x] {
            assert(rest[j - item.dot_index - 1] == right[j as int]);
            return false;
        }
        j += 1;
    }
    proof {
        assert forall|k: int| 0 <= k < rest.len() implies nullable_set(grammar@).contains(
            #[trigger] rest[k],
        ) by {
            assert(rest[k] == right[item.dot_index + 1 + k]);
        }
    }
    true
}

impl<'a> Explorer<Place> for PlaceGraph<'a> {
    closed spec fn ok(&self) -> bool {
        self.grammar.wf() && self.collection.wf(self.grammar)
    }

    closed spec fn rows(&self) -> nat {
        self.grammar.table.size()
    }

    closed spec fn cols(&self) -> nat {
        self.collection.count()
    }

    closed spec fn node(&self, r: int, c: int) -> Place {
        (self.grammar.table.names@[r], c)
    }

    closed spec fn edge(&self, a: Place, b: Place) -> bool {
        exists|t: LR0Item| #[trigger] passes(self.grammar, self.collection, a, b, t)
    }

    proof fn lemma_cells(&self) {
        let grammar = self.grammar;
        let c = self.collection;
        assert forall|r: int, col: int, n: Place|
            0 <= r < self.rows() && 0 <= col < self.cols() && #[trigger] self.edge(
                self.node(r, col),
                n,
            ) implies exists|r2: int, c2: int|
            0 <= r2 < self.rows() && 0 <= c2 < self.cols() && n == #[trigger] self.node(r2, c2) by {
            let t = choose|t: LR0Item| #[trigger] passes(grammar, c, self.node(r, col), n, t);
            assert(grammar.table.left_ok(grammar@, t.rule_index as int));
            lemma_preds_in_range(c, col, before_dot(grammar, t), n.1);
            assert(n == self.node(grammar.table.lefts@[t.rule_index as int] as int, n.1));
        }
    }

    fn successors(&self, r: usize, c: usize) -> (next: Vec<(usize, usize)>) {
        let grammar = self.grammar;
        let collection = self.collection;
        let state = collection.state(grammar, c);
        let items = state.get_items();
        let ghost a = self.node(r as int, c as int);
        let mut next: Vec<(usize, usize)> = Vec::new();
        let mut k: usize = 0;
        while k < items.len()
            invariant
                grammar.wf(),
                collection.wf(grammar),
                grammar == self.grammar,
                collection == self.collection,
                r < grammar.table.size(),
                c < collection.count(),
                a == self.node(r as int, c as int),
                items@ == collection.states()[c as int],
                k <= items.seq().len(),
                forall|j: int|
                    0 <= j < next@.len() ==> (#[trigger] next@[j]).0 < self.rows() && next@[j].1
                        < self.cols() && self.edge(a, self.node(next@[j].0 as int, next@[j].1 as int)),
                forall|j: int, r2: int, c2: int|
                    0 <= j < k && 0 <= r2 < self.rows() && 0 <= c2 < self.cols() && #[trigger] passes(
                        grammar,
                        collection,
                        a,
                        self.node(r2, c2),
                        items.seq()[j],
                    ) ==> next@.contains((r2 as usize, c2 as usize)),
            decreases items.seq().len() - k,
        {
            let item = items.get(k);
            let ghost before = next@;
            proof {
                assert(item_valid(grammar@, item));
                lemma_expects_by_numbers(grammar, item, r as int);
                lemma_final_by_numbers(grammar, item);
                assert(grammar.table.left_ok(grammar@, item.rule_index as int));
            }
            let row = &grammar.table.rights[item.rule_index];
            if item.dot_index < row.len() && !(row.len() == 1 && row[0] == grammar.table.eps)
                && row[item.dot_index] == r && rest_nullable(grammar, item) {
                let left = grammar.table.lefts[item.rule_index];
                let found = pred(grammar, collection, c, item.rule_index, item.dot_index);
                let mut m: usize = 0;
                while m < found.len()
                    invariant
                        m <= found@.len(),
                        next@.len() == before.len() + m,
                        forall|j: int| 0 <= j < before.len() ==> next@[j] == before[j],
                        forall|j: int| 0 <= j < m ==> next@[before.len() + j] == (left, found@[j]),
                    decreases found@.len() - m,
                {
                    next.push((left, found[m]));
                    m += 1;
                }
                proof {
                    assert forall|j: int| 0 <= j < next@.len() implies (#[trigger] next@[j]).0
                        < self.rows() && next@[j].1 < self.cols() && self.edge(
                        a,
                        self.node(next@[j].0 as int, next@[j].1 as int),
                    ) by {
                        if j >= before.len() {
                            let i = j - before.len();
                            assert(next@[j] == (left, found@[i]));
                            assert(passes(
                                grammar,
                                collection,
                                a,
                                self.node(left as int, found@[i] as int),
                                item,
                            ));
                        } else {
                            assert(next@[j] == before[j]);
                        }
                    }
                    assert forall|j: int, r2: int, c2: int|
                        0 <= j < k + 1 && 0 <= r2 < self.rows() && 0 <= c2 < self.cols()
                            && #[trigger] passes(
                            grammar,
                            collection,
                            a,
                            self.node(r2, c2),
                            items.seq()[j],
                        ) implies next@.contains((r2 as usize, c2 as usize)) by {
                        if j < k {
                            assert(before.contains((r2 as usize, c2 as usize)));
                            let i = choose|i: int|
                                0 <= i < before.len() && before[i] == (r2 as usize, c2 as usize);
                            assert(next@[i] == before[i]);
                        } else {
                            assert(r2 == left);
                            assert(found@.contains(c2 as usize));
                            let i = choose|i: int| 0 <= i < found@.len() && found@[i] == c2 as usize;
                            assert(next@[before.len() + i] == (left, found@[i]));
                        }
                    }
                }
            } else {
                proof {
                    assert forall|j: int, r2: int, c2: int|
                        0 <= j < k + 1 && 0 <= r2 < self.rows() && 0 <= c2 < self.cols()
                            && #[trigger] passes(
                            grammar,
                            collection,
                            a,
                            self.node(r2, c2),
                            items.seq()[j],
                        ) implies next@.contains((r2 as usize, c2 as usize)) by {
                        assert(j < k);
                    }
                }
            }
            k += 1;
        }
        next
    }
}

/// The graph of the forward search: its cells are the state numbers, in
/// one row.
pub struct SlideGraph<'a> {
    pub grammar: &'a Grammar,
    pub collection: &'a CanonicalCollectionGraph,
}

/// Whether the search passes over the symbol with number `x`.
fn skips(grammar: &Grammar, x: usize) -> (r: bool)
    requires
        grammar.wf(),
        x < grammar.table.size(),
    ensures
        r == skipped(grammar, grammar.table.names@[x as int]),
{
    !(x != grammar.table.eps && grammar.table.kinds[x]) && grammar.nullable[x]
}

impl<'a> Explorer<int> for SlideGraph<'a> {
    closed spec fn ok(&self) -> bool {
        self.grammar.wf() && self.collection.wf(self.grammar)
    }

    closed spec fn rows(&self) -> nat {
        1
    }

    closed spec fn cols(&self) -> nat {
        self.collection.count()
    }

    closed spec fn node(&self, r: int, c: int) -> int {
        c
    }

    closed spec fn edge(&self, a: int, b: int) -> bool {
        exists|t: LR0Item| #[trigger] slides(self.grammar, self.collection, a, b, t)
    }

    proof fn lemma_cells(&self) {
        let grammar = self.grammar;
        let c = self.collection;
        assert forall|r: int, col: int, n: int|
            0 <= r < self.rows() && 0 <= col < self.cols() && #[trigger] self.edge(
                self.node(r, col),
                n,
            ) implies exists|r2: int, c2: int|
            0 <= r2 < self.rows() && 0 <= c2 < self.cols() && n == #[trigger] self.node(r2, c2) by {
            let t = choose|t: LR0Item| #[trigger] slides(grammar, c, col, n, t);
            assert(n == self.node(0, n));
        }
    }

    fn successors(&self, r: usize, c: usize) -> (next: Vec<(usize, usize)>) {
        let grammar = self.grammar;
        let collection = self.collection;
        let state = collection.state(grammar, c);
        let mut next: Vec<(usize, usize)> = Vec::new();
        if state.is_accept(grammar) {
            return next;
        }
        let items = state.get_items();
        let mut k: usize = 0;
        while k < items.len()
            invariant
                grammar.wf(),
                collection.wf(grammar),
                grammar == self.grammar,
                collection == self.collection,
                c < collection.count(),
                !accepting(collection, c as int),
                items@ == collection.states()[c as int],
                k <= items.seq().len(),
                forall|j: int|
                    0 <= j < next@.len() ==> (#[trigger] next@[j]).0 == 0 && next@[j].1
                        < collection.count() && self.edge(c as int, next@[j].1 as int),
                forall|j: int, q: int|
                    0 <= j < k && #[trigger] slides(grammar, collection, c as int, q, items.seq()[j])
                        ==> next@.contains((0usize, q as usize)),
            decreases items.seq().len() - k,
        {
            let item = items.get(k);
            let ghost before = next@;
            proof {
                assert(item_valid(grammar@, item));
                lemma_final_by_numbers(grammar, item);
                assert(grammar.table.right_ok(grammar@, item.rule_index as int));
            }
            let row = &grammar.table.rights[item.rule_index];
            if item.dot_index < row.len() && !(row.len() == 1 && row[0] == grammar.table.eps)
                && skips(grammar, row[item.dot_index]) {
                let x = row[item.dot_index];
                let found = targets(grammar, collection, c, x);
                let mut m: usize = 0;
                while m < found.len()
                    invariant
                        m <= found@.len(),
                        next@.len() == before.len() + m,
                        forall|j: int| 0 <= j < before.len() ==> next@[j] == before[j],
                        forall|j: int| 0 <= j < m ==> next@[before.len() + j] == (0usize, found@[j]),
                    decreases found@.len() - m,
                {
                    next.push((0, found[m]));
                    m += 1;
                }
                proof {
                    assert forall|j: int| 0 <= j < next@.len() implies (#[trigger] next@[j]).0 == 0
                        && next@[j].1 < collection.count() && self.edge(
                        c as int,
                        next@[j].1 as int,
                    ) by {
                        if j >= before.len() {
                            let i = j - before.len();
                            assert(next@[j] == (0usize, found@[i]));
                            assert(has_edge(
                                collection,
                                c as int,
                                grammar.table.names@[x as int],
                                found@[i] as int,
                            ));
                            assert(slides(grammar, collection, c as int, found@[i] as int, item));
                        } else {
                            assert(next@[j] == before[j]);
                        }
                    }
                    assert forall|j: int, q: int|
                        0 <= j < k + 1 && #[trigger] slides(
                            grammar,
                            collection,
                            c as int,
                            q,
                            items.seq()[j],
                        ) implies next@.contains((0usize, q as usize)) by {
                        if j < k {
                            assert(before.contains((0usize, q as usize)));
                            let i = choose|i: int|
                                0 <= i < before.len() && before[i] == (0usize, q as usize);
                            assert(next@[i] == before[i]);
                        } else {
                            assert(found@.contains(q as usize));
                            let i = choose|i: int| 0 <= i < found@.len() && found@[i] == q as usize;
                            assert(next@[before.len() + i] == (0usize, found@[i]));
                        }
                    }
                }
            } else {
                proof {
                    assert forall|j: int, q: int|
                        0 <= j < k + 1 && #[trigger] slides(
                            grammar,
                            collection,
                            c as int,
                            q,
                            items.seq()[j],
                        ) implies next@.contains((0usize, q as usize)) by {
                        assert(j < k);
                    }
                }
            }
            k += 1;
        }
        proof {
            assert forall|r2: int, c2: int|
                0 <= r2 < self.rows() && 0 <= c2 < self.cols() && self.edge(
                    self.node(r as int, c as int),
                    #[trigger] self.node(r2, c2),
                ) implies next@.contains((r2 as usize, c2 as usize)) by {
                let t = choose|t: LR0Item| #[trigger] slides(grammar, collection, c as int, c2, t);
                let j = choose|j: int| 0 <= j < items.seq().len() && items.seq()[j] == t;
                assert(slides(grammar, collection, c as int, c2, items.seq()[j]));
            }
        }
        next
    }
}

/// One of the first `upto` states is seen and contributes `y`.
pub open spec fn gathered(
    grammar: &Grammar,
    c: &CanonicalCollectionGraph,
    seen: Set<int>,
    upto: int,
    y: Symbol,
) -> bool {
    exists|s: int| 0 <= s < upto && seen.contains(s) && #[trigger] offers(grammar, c, s, y)
}

/// One of the first `upto` items expects `y`.
pub open spec fn expected_by(grammar: &Grammar, items: Seq<LR0Item>, upto: int, y: Symbol) -> bool {
    exists|j: int| 0 <= j < upto && #[trigger] expects(grammar@, items[j], y)
}

/// Adds to `set` what state `q` contributes.
fn offer(grammar: &Grammar, collection: &CanonicalCollectionGraph, q: usize, set: &mut StringSet)
    requires
        grammar.wf(),
        collection.wf(grammar),
        q < collection.count(),
        old(set).wf(),
    ensures
        final(set).wf(),
        forall|y: Symbol|
            #[trigger] final(set)@.to_set().contains(y) <==> old(set)@.to_set().contains(y) || offers(
                grammar,
                collection,
                q as int,
                y,
            ),
{
    let current = collection.state(grammar, q);
    let ghost before = set@.to_set();
    if current.is_accept(grammar) {
        proof {
            lemma_push_distinct(set@, EOF@);
        }
        set.insert(owned(EOF));
        return;
    }
    let items = current.get_items();
    let mut k: usize = 0;
    while k < items.len()
        invariant
            grammar.wf(),
            collection.wf(grammar),
            q < collection.count(),
            !accepting(collection, q as int),
            items@ == collection.states()[q as int],
            k <= items.seq().len(),
            set.wf(),
            forall|y: Symbol|
                #[trigger] set@.to_set().contains(y) <==> before.contains(y) || (y != EPSILON@
                    && is_terminal(y) && expected_by(grammar, items.seq(), k as int, y)),
        decreases items.seq().len() - k,
    {
        let t = items.get(k);
        let ghost prior = set@.to_set();
        proof {
            assert(item_valid(grammar@, t));
            lemma_final_by_numbers(grammar, t);
            assert(grammar.table.right_ok(grammar@, t.rule_index as int));
        }
        let row = &grammar.table.rights[t.rule_index];
        let mut added = false;
        if t.dot_index < row.len() && !(row.len() == 1 && row[0] == grammar.table.eps) {
            let sym = row[t.dot_index];
            proof {
                lemma_expects_by_numbers(grammar, t, sym as int);
            }
            if sym != grammar.table.eps && grammar.table.kinds[sym] {
                proof {
                    lemma_push_distinct(set@, grammar.table.names@[sym as int]);
                }
                set.insert(grammar.table.names.get(sym).clone());
                added = true;
            }
        }
        proof {
            assert forall|y: Symbol|
                #[trigger] set@.to_set().contains(y) <==> before.contains(y) || (y != EPSILON@
                    && is_terminal(y) && expected_by(grammar, items.seq(), k + 1, y)) by {
                if expected_by(grammar, items.seq(), k + 1, y) {
                    let j = choose|j: int| 0 <= j < k + 1 && #[trigger] expects(grammar@, items.seq()[j], y);
                    if j < k {
                        assert(expected_by(grammar, items.seq(), k as int, y));
                    }
                }
                if expected_by(grammar, items.seq(), k as int, y) {
                    let j = choose|j: int| 0 <= j < k && #[trigger] expects(grammar@, items.seq()[j], y);
                    assert(expects(grammar@, items.seq()[j], y));
                }
                if expects(grammar@, t, y) {
                    assert(expects(grammar@, items.seq()[k as int], y));
                }
                if prior.contains(y) {
                }
            }
        }
        k += 1;
    }
    proof {
        assert forall|y: Symbol|
            #[trigger] set@.to_set().contains(y) <==> before.contains(y) || offers(
                grammar,
                collection,
                q as int,
                y,
            ) by {
            if expected_by(grammar, items.seq(), items.seq().len() as int, y) {
                let j = choose|j: int|
                    0 <= j < items.seq().len() && #[trigger] expects(grammar@, items.seq()[j], y);
                assert(items.seq().contains(items.seq()[j]));
                assert(items@.contains(items.seq()[j]));
            }
            if offers(grammar, collection, q as int, y) {
                let t = choose|t: LR0Item|
                    collection.states()[q as int].contains(t) && #[trigger] expects(grammar@, t, y);
                assert(items.seq().contains(t));
                let j = choose|j: int| 0 <= j < items.seq().len() && items.seq()[j] == t;
                assert(expects(grammar@, items.seq()[j], y));
            }
        }
    }
}

/// The LALR(1) lookahead set of `item` in the state with number `state`.
pub fn lalr(grammar: &Grammar, collection: &CanonicalCollectionGraph, state: usize, item: LR0Item) -> (set: StringSet)
    requires
        grammar.wf(),
        collection.wf(grammar),
        state < collection.count(),
        item_valid(grammar@, item),
    ensures
        set.wf(),
        set@.to_set() == lalr_lookahead(grammar, collection, state as int, item),
{
    let mut set = StringSet::new();
    proof {
        assert(grammar.table.left_ok(grammar@, item.rule_index as int));
        assert(grammar.table.left_ok(grammar@, 0));
    }
    let left = grammar.table.lefts[item.rule_index];
    if left == grammar.table.lefts[0] {
        assert(set@.to_set() =~= Set::<Symbol>::empty());
        return set;
    }
    let count = collection.state_count();
    let size = grammar.table.names.len();
    let places_graph = PlaceGraph { grammar, collection };
    let slide_graph = SlideGraph { grammar, collection };
    let found = pred(grammar, collection, state, item.rule_index, item.dot_index);
    let mut roots: Vec<(usize, usize)> = Vec::new();
    let mut k: usize = 0;
    while k < found.len()
        invariant
            k <= found@.len(),
            roots@.len() == k,
            forall|j: int| 0 <= j < k ==> roots@[j] == (left, #[trigger] found@[j]),
        decreases found@.len() - k,
    {
        roots.push((left, found[k]));
        k += 1;
    }
    let ghost begin = first_places(grammar, collection, state as int, item);
    let ghost step = place_edge(grammar, collection);
    proof {
        assert forall|n: Place| nodes_of(&places_graph, roots@).contains(n) == begin.contains(n) by {
            if nodes_of(&places_graph, roots@).contains(n) {
                let j = choose|j: int|
                    0 <= j < roots@.len() && n == places_graph.node(
                        (#[trigger] roots@[j]).0 as int,
                        roots@[j].1 as int,
                    );
                assert(roots@[j] == (left, found@[j]));
            }
            if begin.contains(n) {
                lemma_preds_in_range(collection, state as int, before_dot(grammar, item), n.1);
                assert(found@.contains(n.1 as usize));
                let j = choose|j: int| 0 <= j < found@.len() && found@[j] == n.1 as usize;
                assert(roots@[j] == (left, found@[j]));
                assert(n == places_graph.node(roots@[j].0 as int, roots@[j].1 as int));
            }
        }
        assert(nodes_of(&places_graph, roots@) =~= begin);
        assert forall|a: Place, b: Place| #[trigger] edges_of(&places_graph)(a, b) == step(a, b) by {
            assert(edges_of(&places_graph)(a, b) == places_graph.edge(a, b));
            if places_graph.edge(a, b) {
                let t = choose|t: LR0Item|
                    #[trigger] passes(places_graph.grammar, places_graph.collection, a, b, t);
                assert(passes(grammar, collection, a, b, t));
            }
            if step(a, b) {
                let t = choose|t: LR0Item| #[trigger] passes(grammar, collection, a, b, t);
                assert(passes(places_graph.grammar, places_graph.collection, a, b, t));
            }
        }
        assert(edges_of(&places_graph) =~= step);
        assert forall|j: int| 0 <= j < roots@.len() implies (#[trigger] roots@[j]).0 < size
            && roots@[j].1 < count by {
            assert(roots@[j] == (left, found@[j]));
        }
    }
    let seen_places = explore(&places_graph, size, count, &roots);
    let ghost all_places = places(grammar, collection, state as int, item);
    proof {
        crate::reach::lemma_reach_within_grid(&places_graph, roots@);
    }
    let mut starts: Vec<(usize, usize)> = Vec::new();
    let mut x: usize = 0;
    while x < size
        invariant
            grammar.wf(),
            collection.wf(grammar),
            size == grammar.table.size(),
            count == collection.count(),
            x <= size,
            sized(&places_graph, seen_places@),
            places_graph.rows() == size,
            places_graph.cols() == count,
            forall|j: int| 0 <= j < starts@.len() ==> (#[trigger] starts@[j]).0 == 0 && starts@[j].1 < count,
            forall|j: int|
                0 <= j < starts@.len() ==> first_states(collection, all_places).contains(
                    (#[trigger] starts@[j]).1 as int,
                ),
            forall|a: int, s: int, q: int|
                0 <= a < x && 0 <= s < count && cell(seen_places@, a, s) && #[trigger] has_edge(
                    collection,
                    s,
                    grammar.table.names@[a],
                    q,
                ) ==> starts@.contains((0usize, q as usize)),
            forall|a: int, s: int|
                0 <= a < size && 0 <= s < count ==> #[trigger] cell(seen_places@, a, s)
                    == all_places.contains((grammar.table.names@[a], s)),
        decreases size - x,
    {
        let mut s: usize = 0;
        while s < count
            invariant
                grammar.wf(),
                collection.wf(grammar),
                size == grammar.table.size(),
                count == collection.count(),
                x < size,
                s <= count,
                sized(&places_graph, seen_places@),
                places_graph.rows() == size,
                places_graph.cols() == count,
                forall|j: int|
                    0 <= j < starts@.len() ==> (#[trigger] starts@[j]).0 == 0 && starts@[j].1 < count,
                forall|j: int|
                    0 <= j < starts@.len() ==> first_states(collection, all_places).contains(
                        (#[trigger] starts@[j]).1 as int,
                    ),
                forall|a: int, s2: int, q: int|
                    0 <= a < x && 0 <= s2 < count && cell(seen_places@, a, s2) && #[trigger] has_edge(
                        collection,
                        s2,
                        grammar.table.names@[a],
                        q,
                    ) ==> starts@.contains((0usize, q as usize)),
                forall|s2: int, q: int|
                    0 <= s2 < s && cell(seen_places@, x as int, s2) && #[trigger] has_edge(
                        collection,
                        s2,
                        grammar.table.names@[x as int],
                        q,
                    ) ==> starts@.contains((0usize, q as usize)),
                forall|a: int, s2: int|
                    0 <= a < size && 0 <= s2 < count ==> #[trigger] cell(seen_places@, a, s2)
                        == all_places.contains((grammar.table.names@[a], s2)),
            decreases count - s,
        {
            assert(cell(seen_places@, x as int, s as int) == seen_places@[x as int]@[s as int]);
            let ghost before = starts@;
            if seen_places[x][s] {
                let reached = targets(grammar, collection, s, x);
                let mut m: usize = 0;
                while m < reached.len()
                    invariant
                        m <= reached@.len(),
                        starts@.len() == before.len() + m,
                        forall|j: int| 0 <= j < before.len() ==> starts@[j] == before[j],
                        forall|j: int| 0 <= j < m ==> starts@[before.len() + j] == (0usize, reached@[j]),
                    decreases reached@.len() - m,
                {
                    starts.push((0, reached[m]));
                    m += 1;
                }
                proof {
                    let n: Place = (grammar.table.names@[x as int], s as int);
                    assert(all_places.contains(n));
                    assert forall|j: int| 0 <= j < starts@.len() implies (#[trigger] starts@[j]).0
                        == 0 && starts@[j].1 < count && first_states(
                        collection,
                        all_places,
                    ).contains(starts@[j].1 as int) by {
                        if j >= before.len() {
                            let i = j - before.len();
                            assert(starts@[j] == (0usize, reached@[i]));
                            assert(has_edge(collection, n.1, n.0, reached@[i] as int));
                        } else {
                            assert(starts@[j] == before[j]);
                        }
                    }
                    assert forall|s2: int, q: int|
                        0 <= s2 < s + 1 && cell(seen_places@, x as int, s2) && #[trigger] has_edge(
                            collection,
                            s2,
                            grammar.table.names@[x as int],
                            q,
                        ) implies starts@.contains((0usize, q as usize)) by {
                        if s2 < s {
                            let i = choose|i: int|
                                0 <= i < before.len() && before[i] == (0usize, q as usize);
                            assert(starts@[i] == before[i]);
                        } else {
                            let i = choose|i: int| 0 <= i < reached@.len() && reached@[i] == q as usize;
                            assert(starts@[before.len() + i] == (0usize, reached@[i]));
                        }
                    }
                    assert forall|a: int, s2: int, q: int|
                        0 <= a < x && 0 <= s2 < count && cell(seen_places@, a, s2)
                            && #[trigger] has_edge(
                            collection,
                            s2,
                            grammar.table.names@[a],
                            q,
                        ) implies starts@.contains((0usize, q as usize)) by {
                        let i = choose|i: int| 0 <= i < before.len() && before[i] == (0usize, q as usize);
                        assert(starts@[i] == before[i]);
                    }
                }
            }
            s += 1;
        }
        x += 1;
    }
    let ghost begin2 = first_states(collection, all_places);
    let ghost step2 = slide_edge(grammar, collection);
    proof {
        assert forall|q: int| nodes_of(&slide_graph, starts@).contains(q) == begin2.contains(q) by {
            if nodes_of(&slide_graph, starts@).contains(q) {
                let j = choose|j: int|
                    0 <= j < starts@.len() && q == slide_graph.node(
                        (#[trigger] starts@[j]).0 as int,
                        starts@[j].1 as int,
                    );
                assert(begin2.contains(starts@[j].1 as int));
            }
            if begin2.contains(q) {
                let n = choose|n: Place| all_places.contains(n) && #[trigger] has_edge(collection, n.1, n.0, q);
                let (a, s) = choose|a: int, s: int|
                    0 <= a < places_graph.rows() && 0 <= s < places_graph.cols() && n
                        == #[trigger] places_graph.node(a, s);
                assert(cell(seen_places@, a, s));
                assert(has_edge(collection, s, grammar.table.names@[a], q));
                assert(starts@.contains((0usize, q as usize)));
                let j = choose|j: int| 0 <= j < starts@.len() && starts@[j] == (0usize, q as usize);
                assert(q == slide_graph.node(starts@[j].0 as int, starts@[j].1 as int));
            }
        }
        assert(nodes_of(&slide_graph, starts@) =~= begin2);
        assert forall|a: int, b: int| #[trigger] edges_of(&slide_graph)(a, b) == step2(a, b) by {
            assert(edges_of(&slide_graph)(a, b) == slide_graph.edge(a, b));
            if slide_graph.edge(a, b) {
                let t = choose|t: LR0Item|
                    #[trigger] slides(slide_graph.grammar, slide_graph.collection, a, b, t);
                assert(slides(grammar, collection, a, b, t));
            }
            if step2(a, b) {
                let t = choose|t: LR0Item| #[trigger] slides(grammar, collection, a, b, t);
                assert(slides(slide_graph.grammar, slide_graph.collection, a, b, t));
            }
        }
        assert(edges_of(&slide_graph) =~= step2);
    }
    let seen = explore(&slide_graph, 1, count, &starts);
    let ghost all_seen = reach(begin2, step2);
    let ghost wanted = lalr_lookahead(grammar, collection, state as int, item);
    proof {
        assert(grammar@[item.rule_index as int].left != augmented_symbol(grammar.start()));
    }
    let mut q: usize = 0;
    while q < count
        invariant
            grammar.wf(),
            collection.wf(grammar),
            count == collection.count(),
            q <= count,
            set.wf(),
            sized(&slide_graph, seen@),
            slide_graph.cols() == count,
            slide_graph.rows() == 1,
            forall|s: int| 0 <= s < count ==> #[trigger] cell(seen@, 0, s) == all_seen.contains(s),
            forall|y: Symbol|
                #[trigger] set@.to_set().contains(y) <==> gathered(
                    grammar,
                    collection,
                    all_seen,
                    q as int,
                    y,
                ),
        decreases count - q,
    {
        assert(cell(seen@, 0, q as int) == seen@[0]@[q as int]);
        let ghost before = set@.to_set();
        if seen[0][q] {
            offer(grammar, collection, q, &mut set);
        }
        proof {
            assert forall|y: Symbol|
                #[trigger] set@.to_set().contains(y) <==> gathered(
                    grammar,
                    collection,
                    all_seen,
                    q + 1,
                    y,
                ) by {
                if gathered(grammar, collection, all_seen, q + 1, y) {
                    let s = choose|s: int|
                        0 <= s < q + 1 && all_seen.contains(s) && #[trigger] offers(
                            grammar,
                            collection,
                            s,
                            y,
                        );
                    if s < q {
                        assert(gathered(grammar, collection, all_seen, q as int, y));
                    }
                }
                if before.contains(y) {
                    assert(gathered(grammar, collection, all_seen, q as int, y));
                    let s = choose|s: int|
                        0 <= s < q && all_seen.contains(s) && #[trigger] offers(
                            grammar,
                            collection,
                            s,
                            y,
                        );
                    assert(offers(grammar, collection, s, y));
                }
                if all_seen.contains(q as int) && offers(grammar, collection, q as int, y) {
                }
            }
        }
        q += 1;
    }
    proof {
        assert forall|y: Symbol| set@.to_set().contains(y) == wanted.contains(y) by {
            if wanted.contains(y) {
                let s = choose|s: int| all_seen.contains(s) && #[trigger] offers(grammar, collection, s, y);
                assert(0 <= s < count);
                assert(gathered(grammar, collection, all_seen, count as int, y));
            }
            if set@.to_set().contains(y) {
                assert(gathered(grammar, collection, all_seen, count as int, y));
                let s = choose|s: int|
                    0 <= s < count && all_seen.contains(s) && #[trigger] offers(
                        grammar,
                        collection,
                        s,
                        y,
                    );
                assert(offers(grammar, collection, s, y));
            }
        }
        assert(set@.to_set() =~= wanted);
    }
    set
}

/// The LALR(1) strategy.
pub struct Lalr;

impl ReduceLookahead for Lalr {
    open spec fn ready(&self, grammar: &Grammar, collection: &CanonicalCollectionGraph) -> bool {
        true
    }

    open spec fn lookahead(
        &self,
        grammar: &Grammar,
        collection: &CanonicalCollectionGraph,
        state: int,
        item: LR0Item,
    ) -> Set<Symbol> {
        lalr_lookahead(grammar, collection, state, item)
    }

    fn reduce_lookahead(
        &self,
        grammar: &Grammar,
        collection: &CanonicalCollectionGraph,
        item: &LR0Item,
        state_index: usize,
    ) -> (set: StringSet) {
        assert(item_valid(grammar@, *item));
        lalr(grammar, collection, state_index, *item)
    }
}

/// The LALR(1) parser of a grammar: its automaton and its table.
pub struct GrammarParserLALR1 {
    pub(crate) collection: CanonicalCollectionGraph,
    pub(crate) table: ParseTableLR,
}

impl GrammarParserLALR1 {
    /// The automaton and the table belong to `grammar`: the automaton is
    /// the canonical collection from the first item of the augmented rule,
    /// the table is built of it with the LALR(1) strategy.
    pub open(crate) spec fn wf(&self, grammar: &Grammar) -> bool {
        &&& self.collection.wf(grammar)
        &&& is_collection(
            grammar@,
            LR0Item { rule_index: 0, dot_index: 0 },
            self.collection.states(),
            self.collection.edges(),
        )
        &&& is_automaton(
            grammar@,
            LR0Item { rule_index: 0, dot_index: 0 },
            self.collection.states(),
            self.collection.edges(),
        )
        &&& self.table.wf()
        &&& self.table.states() == self.collection.count()
        &&& forall|s: usize, y: Symbol|
            #[trigger] self.table.lookup(s, y) == if s < self.collection.count() {
                entry(
                    grammar,
                    self.collection.state_seq(s as int),
                    self.collection.edges()[s as int],
                    look_of(&Lalr, grammar, &self.collection, s as int),
                    y,
                )
            } else {
                ParseTableAction::Reject
            }
    }

    /// The table of the parser.
    pub open(crate) spec fn parse_table(&self) -> ParseTableLR {
        self.table
    }

    /// The automaton of the parser.
    pub open(crate) spec fn automaton(&self) -> CanonicalCollectionGraph {
        self.collection
    }

    /// Builds the automaton of `grammar` and its LALR(1) table.
    pub fn from_grammar(grammar: &Grammar) -> (parser: Self)
        requires
            grammar.wf(),
        ensures
            parser.wf(grammar),
            parser.table_of() == parser.parse_table(),
    {
        let collection = CanonicalCollectionGraph::new(grammar, LR0Item::new(0, 0));
        let table = ParseTableLR::from_collection(grammar, &collection, &Lalr);
        GrammarParserLALR1 { collection, table }
    }

    /// The automaton of the parser.
    pub fn get_collection(&self) -> (collection: &CanonicalCollectionGraph)
        ensures
            *collection == self.automaton(),
    {
        &self.collection
    }
}

impl GrammarParserLR for GrammarParserLALR1 {
    open(crate) spec fn table_of(&self) -> ParseTableLR {
        self.table
    }

    fn get_parse_table(&self) -> (table: &ParseTableLR) {
        &self.table
    }
}

} // verus!
