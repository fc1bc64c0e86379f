//! The mathematical model of LR(0) items: validity, final and accept
//! items, the goto of an item set and its closure.

use vstd::prelude::*;
use crate::fixpoint::{lfp, monotone};
use crate::grammar::model::{RuleView, Symbol, EPSILON};

verus! {

/// A position in the right-hand side of a rule: the dot stands before the
/// symbol at `dot_index`.
#[derive(Clone, Copy, PartialEq, Eq, Structural, Debug, Hash, PartialOrd, Ord)]
pub struct LR0Item {
    pub rule_index: usize,
    pub dot_index: usize,
}

/// The item names a rule of `rules` and a position in or at the end of its
/// right-hand side.
pub open spec fn item_valid(rules: Seq<RuleView>, item: LR0Item) -> bool {
    item.rule_index < rules.len() && item.dot_index <= rules[item.rule_index as int].right.len()
}

/// The dot is at the end of the right-hand side, or the rule is the epsilon
/// production.
pub open spec fn is_final(rules: Seq<RuleView>, item: LR0Item) -> bool {
    let right = rules[item.rule_index as int].right;
    item.dot_index == right.len() || right == seq![EPSILON@]
}

/// The item is the augmented rule with the dot behind the start symbol.
pub open spec fn is_accept(item: LR0Item) -> bool {
    item.rule_index == 0 && item.dot_index == 1
}

/// The symbol behind the dot.
pub open spec fn next_symbol(rules: Seq<RuleView>, item: LR0Item) -> Symbol {
    rules[item.rule_index as int].right[item.dot_index as int]
}

/// The item is not final and `symbol` stands behind its dot.
pub open spec fn expects(rules: Seq<RuleView>, item: LR0Item, symbol: Symbol) -> bool {
    item_valid(rules, item) && !is_final(rules, item) && next_symbol(rules, item) == symbol
}

/// `item` with its dot moved over one symbol.
pub open spec fn advance(item: LR0Item) -> LR0Item {
    LR0Item { rule_index: item.rule_index, dot_index: (item.dot_index + 1) as usize }
}

/// The items of `items` that expect `symbol`, each with its dot moved over
/// it. The result is not closed.
pub open spec fn goto(rules: Seq<RuleView>, items: Set<LR0Item>, symbol: Symbol) -> Set<LR0Item> {
    Set::new(
        |t: LR0Item|
            exists|item: LR0Item|
                items.contains(item) && #[trigger] expects(rules, item, symbol) && t == advance(
                    item,
                ),
    )
}

/// The first item of rule `r`.
pub open spec fn initial(r: int) -> LR0Item {
    LR0Item { rule_index: r as usize, dot_index: 0 }
}

/// The item expects the left-hand side of rule `r`.
pub open spec fn predicts(rules: Seq<RuleView>, item: LR0Item, r: int) -> bool {
    0 <= r < rules.len() && expects(rules, item, rules[r].left)
}

/// One round of the closure: `items`, and the first item of every rule whose
/// left-hand side is expected by an item of `s`.
pub open spec fn closure_step(rules: Seq<RuleView>, items: Set<LR0Item>) -> spec_fn(
    Set<LR0Item>,
) -> Set<LR0Item> {
    |s: Set<LR0Item>|
        Set::new(
            |t: LR0Item|
                items.contains(t) || exists|item: LR0Item, r: int|
                    s.contains(item) && #[trigger] predicts(rules, item, r) && t == initial(r),
        )
}

/// The closure of `items`: the least set that holds `items` and, with each
/// item that expects a nonterminal, the first items of its rules.
pub open spec fn closure(rules: Seq<RuleView>, items: Set<LR0Item>) -> Set<LR0Item> {
    lfp(closure_step(rules, items))
}

/// The round of the closure is monotone.
pub proof fn lemma_closure_monotone(rules: Seq<RuleView>, items: Set<LR0Item>)
    ensures
        monotone(closure_step(rules, items)),
{
    let step = closure_step(rules, items);
    assert forall|a: Set<LR0Item>, b: Set<LR0Item>| a.subset_of(b) implies #[trigger] step(
        a,
    ).subset_of(#[trigger] step(b)) by {
        let sa = step(a);
        let sb = step(b);
        assert forall|t: LR0Item| sa.contains(t) implies sb.contains(t) by {
            if !items.contains(t) {
                let (item, r) = choose|item: LR0Item, r: int|
                    a.contains(item) && #[trigger] predicts(rules, item, r) && t == initial(r);
                assert(b.contains(item) && predicts(rules, item, r));
            }
        }
    }
}

/// The closure holds the items it was taken of.
pub proof fn lemma_closure_holds_items(rules: Seq<RuleView>, items: Set<LR0Item>)
    ensures
        items.subset_of(closure(rules, items)),
{
    let step = closure_step(rules, items);
    assert forall|t: LR0Item| items.contains(t) implies closure(rules, items).contains(t) by {
        assert(step(Set::<LR0Item>::empty()).contains(t));
        assert(crate::fixpoint::level(step, 1).contains(t));
    }
}

/// The closure holds the first item of every rule that one of its items
/// predicts.
pub proof fn lemma_closure_predicts(rules: Seq<RuleView>, items: Set<LR0Item>, item: LR0Item, r: int)
    requires
        closure(rules, items).contains(item),
        predicts(rules, item, r),
    ensures
        closure(rules, items).contains(initial(r)),
{
    let step = closure_step(rules, items);
    lemma_closure_monotone(rules, items);
    let premises = seq![item];
    assert(premises[0] == item);
    let ps = premises.to_set();
    assert(ps.contains(item));
    assert(step(ps).contains(initial(r)));
    crate::fixpoint::lemma_lfp_derives(step, premises, initial(r));
}

/// Every item of a closure of valid items is valid.
pub proof fn lemma_closure_valid(rules: Seq<RuleView>, items: Set<LR0Item>)
    requires
        rules.len() <= usize::MAX,
        forall|t: LR0Item| items.contains(t) ==> item_valid(rules, t),
    ensures
        forall|t: LR0Item| closure(rules, items).contains(t) ==> item_valid(rules, t),
{
    let step = closure_step(rules, items);
    let s = Set::new(|t: LR0Item| item_valid(rules, t));
    lemma_closure_monotone(rules, items);
    let next = step(s);
    assert forall|t: LR0Item| next.contains(t) implies s.contains(t) by {
        if !items.contains(t) {
            let (item, r) = choose|item: LR0Item, r: int|
                s.contains(item) && #[trigger] predicts(rules, item, r) && t == initial(r);
        }
    }
    crate::fixpoint::lemma_lfp_least(step, s);
}

/// `a` comes before `b`: by rule, then by dot.
pub open spec fn item_lt(a: LR0Item, b: LR0Item) -> bool {
    a.rule_index < b.rule_index || (a.rule_index == b.rule_index && a.dot_index < b.dot_index)
}

/// The items stand in strictly ascending order.
pub open spec fn ascending(s: Seq<LR0Item>) -> bool {
    forall|i: int, j: int| 0 <= i < j < s.len() ==> item_lt(#[trigger] s[i], #[trigger] s[j])
}

/// Two ascending sequences with the same members are equal.
pub proof fn lemma_ascending_unique(a: Seq<LR0Item>, b: Seq<LR0Item>)
    requires
        ascending(a),
        ascending(b),
        a.to_set() == b.to_set(),
    ensures
        a == b,
    decreases a.len(),
{
    if a.len() == 0 {
        if b.len() > 0 {
            assert(b.to_set().contains(b[0]));
            assert(a.contains(b[0]));
        }
        assert(a =~= b);
    } else {
        assert(a.to_set().contains(a[a.len() - 1]));
        assert(b.contains(a.last()));
        let jb = choose|j: int| 0 <= j < b.len() && b[j] == a.last();
        assert(b.to_set().contains(b[b.len() - 1]));
        assert(a.contains(b.last()));
        let ja = choose|j: int| 0 <= j < a.len() && a[j] == b.last();
        assert(a.last() == b.last()) by {
            if ja < a.len() - 1 {
                assert(item_lt(a[ja], a[a.len() - 1]));
                if jb < b.len() - 1 {
                    assert(item_lt(b[jb], b[b.len() - 1]));
                }
            }
        }
        let a1 = a.drop_last();
        let b1 = b.drop_last();
        assert forall|t: LR0Item| a1.to_set().contains(t) == b1.to_set().contains(t) by {
            if a1.contains(t) {
                let i = choose|i: int| 0 <= i < a1.len() && a1[i] == t;
                assert(a[i] == t);
                assert(item_lt(a[i], a[a.len() - 1]));
                assert(a.to_set().contains(t));
                assert(b.contains(t));
                let j = choose|j: int| 0 <= j < b.len() && b[j] == t;
                assert(b1[j] == t);
            }
            if b1.contains(t) {
                let i = choose|i: int| 0 <= i < b1.len() && b1[i] == t;
                assert(b[i] == t);
                assert(item_lt(b[i], b[b.len() - 1]));
                assert(b.to_set().contains(t));
                assert(a.contains(t));
                let j = choose|j: int| 0 <= j < a.len() && a[j] == t;
                assert(a1[j] == t);
            }
        }
        assert(a1.to_set() =~= b1.to_set());
        lemma_ascending_unique(a1, b1);
        assert(a =~= a1.push(a.last()));
        assert(b =~= b1.push(b.last()));
    }
}

} // verus!
