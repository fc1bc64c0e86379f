//! The construction of the item automaton, as a machine that takes one
//! pending item set at a time, and the bound on its number of states.

use vstd::arithmetic::power2::{lemma_pow2_pos, lemma_pow2_unfold, pow2};
use vstd::prelude::*;
use vstd::set_lib::{lemma_len_subset, lemma_len_union, lemma_map_size};
use crate::grammar::model::{RuleView, Symbol};
use crate::parsers::items::model::{
    ascending, closure, goto, is_final, item_valid, next_symbol, LR0Item,
};
use crate::text::push_distinct;

verus! {

/// An item set that waits to become a state: the set, not yet closed, the
/// state it was reached from and the symbol of that transition.
pub struct Pending {
    pub items: Set<LR0Item>,
    pub from: Option<int>,
    pub symbol: Symbol,
}

/// A transition of the automaton.
pub struct EdgeView {
    pub from: int,
    pub to: int,
    pub symbol: Symbol,
}

/// The automaton under construction: the states found so far, by number,
/// the transitions out of each, and the item sets still to be looked at,
/// the next one last.
pub struct Build {
    pub states: Seq<Set<LR0Item>>,
    pub edges: Seq<Seq<EdgeView>>,
    pub stack: Seq<Pending>,
}

/// The items of `s` in ascending order.
pub open spec fn ordered(s: Set<LR0Item>) -> Seq<LR0Item> {
    choose|q: Seq<LR0Item>| ascending(q) && q.to_set() == s
}

/// The symbols behind the dots of the items that are not final, in order of
/// first occurrence.
pub open spec fn expected_symbols(rules: Seq<RuleView>, items: Seq<LR0Item>) -> Seq<Symbol>
    decreases items.len(),
{
    if items.len() == 0 {
        Seq::empty()
    } else {
        let rest = expected_symbols(rules, items.drop_last());
        let t = items.last();
        if item_valid(rules, t) && !is_final(rules, t) {
            push_distinct(rest, next_symbol(rules, t))
        } else {
            rest
        }
    }
}

/// The item sets reached from state `id` with items `state`, one for each
/// expected symbol.
pub open spec fn successors(rules: Seq<RuleView>, state: Set<LR0Item>, id: int) -> Seq<Pending> {
    let symbols = expected_symbols(rules, ordered(state));
    Seq::new(
        symbols.len(),
        |k: int| Pending { items: goto(rules, state, symbols[k]), from: Some(id), symbol: symbols[k] },
    )
}

/// The number of the state with items `s`, or the next free number.
pub open spec fn number_of(states: Seq<Set<LR0Item>>, s: Set<LR0Item>) -> int {
    if states.contains(s) {
        choose|i: int| 0 <= i < states.len() && states[i] == s
    } else {
        states.len() as int
    }
}

/// One move of the construction: the last pending item set is closed; if no
/// state has these items, it becomes the next state and its successors
/// become pending; and if it was reached from a state, the transition is
/// recorded there.
pub open spec fn build_step(rules: Seq<RuleView>, b: Build) -> Build {
    if b.stack.len() == 0 {
        b
    } else {
        let top = b.stack.last();
        let rest = b.stack.drop_last();
        let state = closure(rules, top.items);
        let known = b.states.contains(state);
        let id = number_of(b.states, state);
        let grown = if known {
            b.edges
        } else {
            b.edges.push(Seq::empty())
        };
        Build {
            states: if known {
                b.states
            } else {
                b.states.push(state)
            },
            edges: match top.from {
                Some(f) => grown.update(
                    f,
                    grown[f].push(EdgeView { from: f, to: id, symbol: top.symbol }),
                ),
                None => grown,
            },
            stack: if known {
                rest
            } else {
                rest + successors(rules, state, id)
            },
        }
    }
}

/// The construction after `n` moves.
pub open spec fn run(rules: Seq<RuleView>, b: Build, n: nat) -> Build
    decreases n,
{
    if n == 0 {
        b
    } else {
        build_step(rules, run(rules, b, (n - 1) as nat))
    }
}

/// The construction before its first move: only `item` is pending.
pub open spec fn seed(item: LR0Item) -> Build {
    Build {
        states: Seq::empty(),
        edges: Seq::empty(),
        stack: seq![Pending { items: set![item], from: None, symbol: Seq::empty() }],
    }
}

/// `states` and `edges` are what the construction from `item` ends with.
pub open spec fn is_collection(
    rules: Seq<RuleView>,
    item: LR0Item,
    states: Seq<Set<LR0Item>>,
    edges: Seq<Seq<EdgeView>>,
) -> bool {
    exists|n: nat|
        (#[trigger] run(rules, seed(item), n)).stack.len() == 0 && run(rules, seed(item), n).states
            == states && run(rules, seed(item), n).edges == edges
}

/// Once nothing is pending, further moves change nothing.
proof fn lemma_run_stays(rules: Seq<RuleView>, b: Build, n: nat, m: nat)
    requires
        n <= m,
        run(rules, b, n).stack.len() == 0,
    ensures
        run(rules, b, m) == run(rules, b, n),
    decreases m - n,
{
    if n < m {
        lemma_run_stays(rules, b, n, (m - 1) as nat);
    }
}

/// The construction has one result: the same rules and the same first item
/// give the same states, with the same numbers, and the same transitions.
pub proof fn lemma_collection_unique(
    rules: Seq<RuleView>,
    item: LR0Item,
    states1: Seq<Set<LR0Item>>,
    edges1: Seq<Seq<EdgeView>>,
    states2: Seq<Set<LR0Item>>,
    edges2: Seq<Seq<EdgeView>>,
)
    requires
        is_collection(rules, item, states1, edges1),
        is_collection(rules, item, states2, edges2),
    ensures
        states1 == states2,
        edges1 == edges2,
{
    let n1 = choose|n: nat|
        (#[trigger] run(rules, seed(item), n)).stack.len() == 0 && run(rules, seed(item), n).states
            == states1 && run(rules, seed(item), n).edges == edges1;
    let n2 = choose|n: nat|
        (#[trigger] run(rules, seed(item), n)).stack.len() == 0 && run(rules, seed(item), n).states
            == states2 && run(rules, seed(item), n).edges == edges2;
    if n1 <= n2 {
        lemma_run_stays(rules, seed(item), n1, n2);
    } else {
        lemma_run_stays(rules, seed(item), n2, n1);
    }
}

/// The sets of `family` that hold `x`, or those that do not.
pub open spec fn part(family: Set<Set<LR0Item>>, x: LR0Item, holds: bool) -> Set<Set<LR0Item>> {
    family.filter(|s: Set<LR0Item>| s.contains(x) == holds)
}

/// A family of subsets of a finite set `u` has at most two to the size of
/// `u` members.
pub proof fn lemma_family_bound(family: Set<Set<LR0Item>>, u: Set<LR0Item>)
    requires
        family.finite(),
        u.finite(),
        forall|s: Set<LR0Item>| family.contains(s) ==> #[trigger] s.subset_of(u),
    ensures
        family.len() <= pow2(u.len()),
    decreases u.len(),
{
    if u.len() == 0 {
        assert(u =~= Set::empty());
        let e = Set::<LR0Item>::empty();
        assert forall|s: Set<LR0Item>| family.contains(s) implies set![e].contains(s) by {
            assert(s.subset_of(u));
            assert(s =~= e);
        }
        assert(family.subset_of(set![e]));
        lemma_len_subset(family, set![e]);
        lemma_pow2_pos(0);
    } else {
        let x = u.choose();
        let rest = u.remove(x);
        let without = part(family, x, false);
        let with = part(family, x, true);
        lemma_len_subset(without, family);
        lemma_len_subset(with, family);
        let drop = |s: Set<LR0Item>| s.remove(x);
        let dropped = with.map(drop);
        assert forall|a: Set<LR0Item>, b: Set<LR0Item>|
            with.contains(a) && with.contains(b) && #[trigger] drop(a) == #[trigger] drop(
                b,
            ) implies a == b by {
            assert(a =~= drop(a).insert(x));
            assert(b =~= drop(b).insert(x));
        }
        assert(vstd::relations::injective_on(drop, with));
        with.lemma_map_finite(drop);
        lemma_map_size(with, dropped, drop);
        assert forall|s: Set<LR0Item>| without.contains(s) implies #[trigger] s.subset_of(rest) by {
            assert(s.subset_of(u));
        }
        assert forall|s: Set<LR0Item>| dropped.contains(s) implies #[trigger] s.subset_of(rest) by {
            let a = choose|a: Set<LR0Item>| with.contains(a) && s == drop(a);
            assert(a.subset_of(u));
        }
        lemma_family_bound(without, rest);
        lemma_family_bound(dropped, rest);
        assert(family =~= without.union(with));
        lemma_len_union(without, with);
        lemma_pow2_unfold(u.len());
    }
}

/// The positions `0..=len` of rule `r`, as items.
pub open spec fn rule_items(r: int, len: int) -> Seq<LR0Item> {
    Seq::new((len + 1) as nat, |d: int| LR0Item { rule_index: r as usize, dot_index: d as usize })
}

/// The valid items of the first `upto` rules.
pub open spec fn universe(rules: Seq<RuleView>, upto: int) -> Seq<LR0Item>
    decreases upto,
{
    if upto <= 0 {
        Seq::empty()
    } else {
        universe(rules, upto - 1) + rule_items(upto - 1, rules[upto - 1].right.len() as int)
    }
}

/// Every valid item of the first `upto` rules is in the universe.
pub proof fn lemma_universe(rules: Seq<RuleView>, upto: int, t: LR0Item)
    requires
        0 <= upto <= rules.len(),
        item_valid(rules, t),
        t.rule_index < upto,
    ensures
        universe(rules, upto).contains(t),
    decreases upto,
{
    let last = rule_items(upto - 1, rules[upto - 1].right.len() as int);
    let before = universe(rules, upto - 1);
    if t.rule_index == upto - 1 {
        assert(last[t.dot_index as int] == t);
        assert(universe(rules, upto)[before.len() + t.dot_index] == t);
    } else {
        lemma_universe(rules, upto - 1, t);
        let i = choose|i: int| 0 <= i < before.len() && before[i] == t;
        assert(universe(rules, upto)[i] == t);
    }
}

/// The bound on the number of states over `rules`.
pub open spec fn state_bound(rules: Seq<RuleView>) -> nat {
    pow2(universe(rules, rules.len() as int).to_set().len())
}

/// Distinct sets of valid items are at most `state_bound` many.
pub proof fn lemma_states_bound(rules: Seq<RuleView>, states: Seq<Set<LR0Item>>)
    requires
        states.no_duplicates(),
        forall|i: int, t: LR0Item|
            0 <= i < states.len() && (#[trigger] states[i]).contains(t) ==> #[trigger] item_valid(
                rules,
                t,
            ),
    ensures
        states.len() <= state_bound(rules),
{
    let all = universe(rules, rules.len() as int);
    let u = all.to_set();
    vstd::seq_lib::seq_to_set_is_finite(all);
    vstd::seq_lib::seq_to_set_is_finite(states);
    states.unique_seq_to_set();
    let family = states.to_set();
    assert forall|s: Set<LR0Item>| family.contains(s) implies #[trigger] s.subset_of(u) by {
        let i = choose|i: int| 0 <= i < states.len() && states[i] == s;
        assert forall|t: LR0Item| s.contains(t) implies u.contains(t) by {
            assert(item_valid(rules, t));
            lemma_universe(rules, rules.len() as int, t);
        }
    }
    lemma_family_bound(family, u);
}

} // verus!
