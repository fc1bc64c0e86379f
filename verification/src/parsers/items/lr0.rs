//! LR(0) items.

use vstd::prelude::*;
use vstd::string::StringExecFns;
use crate::fixpoint::{count_unset, lemma_count_unset_set, lemma_lfp_least, unset_row};
use crate::grammar::{Grammar, GrammarRule};
use crate::grammar::model::EPSILON;
use crate::parsers::items::lr::{items_known, ClosurableItem, LRItem, DOT};
use crate::parsers::items::model::{
    advance, closure, closure_step, expects, goto, initial, is_accept, is_final, item_lt,
    lemma_closure_holds_items, lemma_closure_monotone, lemma_closure_predicts, next_symbol,
    predicts, LR0Item,
};
use crate::parsers::items::set::ItemSet;
use crate::text::{clone_strings, join_strings, owned, strs};

verus! {

impl LR0Item {
    /// The item of rule `rule_index` with the dot before position `dot_index`.
    pub fn new(rule_index: usize, dot_index: usize) -> (item: Self)
        ensures
            item.rule_index == rule_index,
            item.dot_index == dot_index,
    {
        LR0Item { rule_index, dot_index }
    }
}

/// Whether the item is final, read off the numbered rules.
pub open(crate) spec fn final_by_numbers(grammar: &Grammar, item: LR0Item) -> bool {
    let row = grammar.table.rights@[item.rule_index as int]@;
    item.dot_index == row.len() || (row.len() == 1 && row[0] == grammar.table.eps)
}

/// An item is final exactly when the numbered rules say so.
pub(crate) proof fn lemma_final_by_numbers(grammar: &Grammar, item: LR0Item)
    requires
        grammar.wf(),
        item.rule_index < grammar@.len(),
    ensures
        final_by_numbers(grammar, item) == is_final(grammar@, item),
        grammar.table.rights@[item.rule_index as int]@.len() == grammar@[item.rule_index as int].right.len(),
{
    let r = item.rule_index as int;
    assert(grammar.table.right_ok(grammar@, r));
    let row = grammar.table.rights@[r]@;
    let right = grammar@[r].right;
    if row.len() == 1 && row[0] == grammar.table.eps {
        assert(right =~= seq![EPSILON@]);
    }
    if right == seq![EPSILON@] {
        assert(right[0] == EPSILON@);
        assert(grammar.table.names@[row[0] as int] == grammar.table.names@[grammar.table.eps as int]);
    }
}

/// An item expects a symbol exactly when it is not final and the number
/// behind its dot is the number of the symbol.
pub(crate) proof fn lemma_expects_by_numbers(grammar: &Grammar, item: LR0Item, x: int)
    requires
        grammar.wf(),
        item.rule_index < grammar@.len(),
        0 <= x < grammar.table.size(),
    ensures
        expects(grammar@, item, grammar.table.names@[x]) == (item.dot_index
            < grammar.table.rights@[item.rule_index as int]@.len() && !final_by_numbers(
            grammar,
            item,
        ) && grammar.table.rights@[item.rule_index as int]@[item.dot_index as int] == x),
{
    lemma_final_by_numbers(grammar, item);
    let r = item.rule_index as int;
    assert(grammar.table.right_ok(grammar@, r));
    let row = grammar.table.rights@[r]@;
    if item.dot_index < row.len() {
        assert(grammar.table.names@[row[item.dot_index as int] as int] == next_symbol(
            grammar@,
            item,
        ));
    }
}

impl LRItem for LR0Item {
    open spec fn position(&self) -> LR0Item {
        *self
    }

    fn get_dot_index(&self) -> (d: usize) {
        self.dot_index
    }

    fn get_rule_index(&self) -> (r: usize) {
        self.rule_index
    }

    fn get_rule<'a>(&'a self, grammar: &'a Grammar) -> (rule: &'a GrammarRule) {
        grammar.get_rule(self.rule_index)
    }

    fn is_final(&self, grammar: &Grammar) -> (r: bool) {
        proof {
            lemma_final_by_numbers(grammar, *self);
        }
        let row = &grammar.table.rights[self.rule_index];
        self.dot_index == row.len() || (row.len() == 1 && row[0] == grammar.table.eps)
    }

    fn is_accept(&self, grammar: &Grammar) -> (r: bool) {
        self.rule_index == 0 && self.dot_index == 1
    }

    fn to_string(&self, grammar: &Grammar) -> (s: String) {
        let rule = grammar.get_rule(self.rule_index);
        let mut tokens = clone_strings(&rule.right);
        let ghost before = strs(tokens@);
        tokens.insert(self.dot_index, owned(DOT));
        assert(strs(tokens@) =~= before.insert(self.dot_index as int, DOT@));
        let joined = join_strings(&tokens, " ");
        let mut s = rule.left.clone();
        s.append(" -> ");
        s.append(joined.as_str());
        s
    }
}

/// `t` is one of the first `k` items of `items`, moved over `symbol`.
pub open spec fn moved_from(
    grammar: &Grammar,
    items: Seq<LR0Item>,
    symbol: Seq<char>,
    k: int,
    t: LR0Item,
) -> bool {
    exists|j: int| 0 <= j < k && #[trigger] expects(grammar@, items[j], symbol) && t == advance(items[j])
}

/// Every mark stands for the first item of a rule that lies in the closure.
pub open spec fn predicted_sound(grammar: &Grammar, items: Set<LR0Item>, marks: Seq<bool>) -> bool {
    forall|r: int|
        0 <= r < marks.len() && #[trigger] marks[r] ==> closure(grammar@, items).contains(
            initial(r),
        )
}

/// Every rule that `item` predicts is marked.
pub open spec fn expanded(grammar: &Grammar, marks: Seq<bool>, item: LR0Item) -> bool {
    forall|r: int| #[trigger] predicts(grammar@, item, r) ==> marks[r]
}

/// Marks the rules that `item` predicts.
fn expand(grammar: &Grammar, marks: &mut Vec<bool>, item: LR0Item, Ghost(items): Ghost<Set<LR0Item>>) -> (changed: bool)
    requires
        grammar.wf(),
        old(marks)@.len() == grammar@.len(),
        item.rule_index < grammar@.len(),
        closure(grammar@, items).contains(item),
        predicted_sound(grammar, items, old(marks)@),
    ensures
        final(marks)@.len() == grammar@.len(),
        predicted_sound(grammar, items, final(marks)@),
        !changed ==> final(marks)@ == old(marks)@ && expanded(grammar, final(marks)@, item),
        changed ==> count_unset(final(marks)@) < count_unset(old(marks)@),
        forall|r: int| 0 <= r < grammar@.len() && #[trigger] old(marks)@[r] ==> final(marks)@[r],
{
    proof {
        lemma_final_by_numbers(grammar, item);
    }
    let row = &grammar.table.rights[item.rule_index];
    if item.dot_index >= row.len() || (row.len() == 1 && row[0] == grammar.table.eps) {
        return false;
    }
    assert(grammar.table.right_ok(grammar@, item.rule_index as int));
    let wanted = row[item.dot_index];
    proof {
        assert(expects(grammar@, item, grammar.table.names@[wanted as int]));
    }
    let total = grammar.table.lefts.len();
    let mut changed = false;
    let mut r: usize = 0;
    while r < total
        invariant
            grammar.wf(),
            total == grammar@.len(),
            marks@.len() == total,
            r <= total,
            item.rule_index < grammar@.len(),
            wanted < grammar.table.size(),
            expects(grammar@, item, grammar.table.names@[wanted as int]),
            closure(grammar@, items).contains(item),
            predicted_sound(grammar, items, marks@),
            !changed ==> marks@ == old(marks)@,
            !changed ==> forall|q: int| 0 <= q < r && #[trigger] predicts(grammar@, item, q) ==> marks@[q],
            changed ==> count_unset(marks@) < count_unset(old(marks)@),
            count_unset(marks@) <= count_unset(old(marks)@),
            forall|q: int| 0 <= q < total && #[trigger] old(marks)@[q] ==> marks@[q],
        decreases total - r,
    {
        assert(grammar.table.left_ok(grammar@, r as int));
        if grammar.table.lefts[r] == wanted {
            if !marks[r] {
                proof {
                    assert(predicts(grammar@, item, r as int));
                    lemma_closure_predicts(grammar@, items, item, r as int);
                    lemma_count_unset_set(marks@, r as int);
                }
                marks.set(r, true);
                changed = true;
            }
        } else {
            assert(!predicts(grammar@, item, r as int));
        }
        r += 1;
    }
    changed
}

impl ClosurableItem for LR0Item {
    fn goto(grammar: &Grammar, items: &ItemSet, symbol: &str) -> (r: ItemSet) {
        let mut out: Vec<LR0Item> = Vec::new();
        let wanted = grammar.table.number_of(symbol);
        let ghost target = goto(grammar@, items@, symbol@);
        match wanted {
            None => {
                proof {
                    assert forall|t: LR0Item| !target.contains(t) by {
                        if target.contains(t) {
                            let item = choose|item: LR0Item|
                                items@.contains(item) && #[trigger] expects(grammar@, item, symbol@)
                                    && t == advance(item);
                            assert(grammar.table.right_ok(grammar@, item.rule_index as int));
                            assert(grammar.table.names@[grammar.table.rights@[item.rule_index as int]@[item.dot_index as int] as int]
                                == symbol@);
                        }
                    }
                    assert(out@.to_set() =~= target);
                }
            },
            Some(x) => {
                let mut k: usize = 0;
                while k < items.len()
                    invariant
                        grammar.wf(),
                        items.wf(),
                        items_known(grammar, items@),
                        x < grammar.table.size(),
                        grammar.table.names@[x as int] == symbol@,
                        k <= items.seq().len(),
                        crate::parsers::items::model::ascending(out@),
                        forall|i: int|
                            0 <= i < out@.len() ==> moved_from(
                                grammar,
                                items.seq(),
                                symbol@,
                                k as int,
                                #[trigger] out@[i],
                            ),
                        forall|j: int|
                            0 <= j < k && #[trigger] expects(grammar@, items.seq()[j], symbol@)
                                ==> out@.contains(advance(items.seq()[j])),
                    decreases items.seq().len() - k,
                {
                    let item = items.get(k);
                    proof {
                        lemma_expects_by_numbers(grammar, item, x as int);
                        lemma_final_by_numbers(grammar, item);
                    }
                    let row = &grammar.table.rights[item.rule_index];
                    if item.dot_index < row.len() && !(row.len() == 1 && row[0]
                        == grammar.table.eps) && row[item.dot_index] == x {
                        let moved = LR0Item {
                            rule_index: item.rule_index,
                            dot_index: item.dot_index + 1,
                        };
                        let ghost before = out@;
                        out.push(moved);
                        proof {
                            assert(moved == advance(item));
                            assert forall|a: int, b: int| 0 <= a < b < out@.len() implies item_lt(
                                #[trigger] out@[a],
                                #[trigger] out@[b],
                            ) by {
                                if b == before.len() {
                                    assert(moved_from(grammar, items.seq(), symbol@, k as int, before[a]));
                                    let j = choose|j: int|
                                        0 <= j < k && #[trigger] expects(
                                            grammar@,
                                            items.seq()[j],
                                            symbol@,
                                        ) && before[a] == advance(items.seq()[j]);
                                    assert(item_lt(items.seq()[j], items.seq()[k as int]));
                                } else {
                                    assert(item_lt(before[a], before[b]));
                                }
                            }
                            assert forall|i: int| 0 <= i < out@.len() implies moved_from(
                                grammar,
                                items.seq(),
                                symbol@,
                                k + 1,
                                #[trigger] out@[i],
                            ) by {
                                if i < before.len() {
                                    assert(moved_from(grammar, items.seq(), symbol@, k as int, before[i]));
                                    let j = choose|j: int|
                                        0 <= j < k && #[trigger] expects(
                                            grammar@,
                                            items.seq()[j],
                                            symbol@,
                                        ) && before[i] == advance(items.seq()[j]);
                                    assert(expects(grammar@, items.seq()[j], symbol@));
                                } else {
                                    assert(expects(grammar@, items.seq()[k as int], symbol@));
                                }
                            }
                            assert forall|j: int|
                                0 <= j < k + 1 && #[trigger] expects(
                                    grammar@,
                                    items.seq()[j],
                                    symbol@,
                                ) implies out@.contains(advance(items.seq()[j])) by {
                                if j < k {
                                    assert(before.contains(advance(items.seq()[j])));
                                    let i = choose|i: int|
                                        0 <= i < before.len() && before[i] == advance(
                                            items.seq()[j],
                                        );
                                    assert(out@[i] == before[i]);
                                } else {
                                    assert(out@[before.len() as int] == moved);
                                }
                            }
                        }
                    }
                    k += 1;
                }
                proof {
                    assert forall|t: LR0Item| out@.to_set().contains(t) == target.contains(t) by {
                        if out@.contains(t) {
                            let i = choose|i: int| 0 <= i < out@.len() && out@[i] == t;
                            assert(moved_from(grammar, items.seq(), symbol@, k as int, out@[i]));
                            let j = choose|j: int|
                                0 <= j < k && #[trigger] expects(grammar@, items.seq()[j], symbol@)
                                    && out@[i] == advance(items.seq()[j]);
                            assert(items@.contains(items.seq()[j]));
                        }
                        if target.contains(t) {
                            let item = choose|item: LR0Item|
                                items@.contains(item) && #[trigger] expects(grammar@, item, symbol@)
                                    && t == advance(item);
                            let j = choose|j: int| 0 <= j < items.seq().len() && items.seq()[j] == item;
                            assert(expects(grammar@, items.seq()[j], symbol@));
                        }
                    }
                    assert(out@.to_set() =~= target);
                }
            },
        }
        ItemSet { items: out }
    }

    fn closure(grammar: &Grammar, items: &mut ItemSet) {
        let ghost given = items@;
        let ghost rules = grammar@;
        let total = grammar.table.lefts.len();
        let mut marks = unset_row(total);
        proof {
            lemma_closure_holds_items(rules, given);
        }
        let mut changed = true;
        while changed
            invariant
                grammar.wf(),
                rules == grammar@,
                items.wf(),
                items@ == given,
                items_known(grammar, given),
                given.subset_of(closure(rules, given)),
                total == rules.len(),
                marks@.len() == total,
                predicted_sound(grammar, given, marks@),
                !changed ==> forall|k: int|
                    0 <= k < items.seq().len() ==> #[trigger] expanded(
                        grammar,
                        marks@,
                        items.seq()[k],
                    ),
                !changed ==> forall|r: int|
                    0 <= r < total && marks@[r] ==> #[trigger] expanded(grammar, marks@, initial(r)),
            decreases
                count_unset(marks@) + if changed {
                    1nat
                } else {
                    0nat
                },
        {
            changed = false;
            let ghost before = marks@;
            let mut k: usize = 0;
            while k < items.len()
                invariant
                    grammar.wf(),
                    rules == grammar@,
                    items.wf(),
                    items@ == given,
                    items_known(grammar, given),
                    given.subset_of(closure(rules, given)),
                    total == rules.len(),
                    marks@.len() == total,
                    k <= items.seq().len(),
                    predicted_sound(grammar, given, marks@),
                    !changed ==> marks@ == before,
                    !changed ==> forall|j: int|
                        0 <= j < k ==> #[trigger] expanded(grammar, marks@, items.seq()[j]),
                    changed ==> count_unset(marks@) < count_unset(before),
                decreases items.seq().len() - k,
            {
                let item = items.get(k);
                let grew = expand(grammar, &mut marks, item, Ghost(given));
                if grew {
                    changed = true;
                }
                k += 1;
            }
            let mut r: usize = 0;
            while r < total
                invariant
                    grammar.wf(),
                    rules == grammar@,
                    items.wf(),
                    items@ == given,
                    total == rules.len(),
                    marks@.len() == total,
                    r <= total,
                    predicted_sound(grammar, given, marks@),
                    !changed ==> marks@ == before,
                    !changed ==> forall|j: int|
                        0 <= j < items.seq().len() ==> #[trigger] expanded(
                            grammar,
                            marks@,
                            items.seq()[j],
                        ),
                    !changed ==> forall|q: int|
                        0 <= q < r && marks@[q] ==> #[trigger] expanded(grammar, marks@, initial(q)),
                    changed ==> count_unset(marks@) < count_unset(before),
                decreases total - r,
            {
                if marks[r] {
                    let item = LR0Item { rule_index: r, dot_index: 0 };
                    assert(item == initial(r as int));
                    let grew = expand(grammar, &mut marks, item, Ghost(given));
                    if grew {
                        changed = true;
                    }
                }
                r += 1;
            }
        }
        let ghost kept = items.seq();
        let mut r: usize = 0;
        while r < total
            invariant
                items.wf(),
                total == rules.len(),
                marks@.len() == total,
                r <= total,
                items@ == given.union(
                    Set::new(|t: LR0Item| exists|q: int| 0 <= q < r && marks@[q] && t == initial(q)),
                ),
            decreases total - r,
        {
            let ghost before = items@;
            if marks[r] {
                items.insert(LR0Item { rule_index: r, dot_index: 0 });
            }
            proof {
                let now = given.union(
                    Set::new(
                        |t: LR0Item| exists|q: int| 0 <= q < r + 1 && marks@[q] && t == initial(q),
                    ),
                );
                assert forall|t: LR0Item| items@.contains(t) == now.contains(t) by {
                    if marks@[r as int] {
                        assert(initial(r as int) == LR0Item { rule_index: r, dot_index: 0 });
                    }
                    if now.contains(t) && !given.contains(t) {
                        let q = choose|q: int| 0 <= q < r + 1 && marks@[q] && t == initial(q);
                        if q < r {
                            assert(before.contains(t));
                        }
                    }
                    if before.contains(t) && !given.contains(t) {
                        let q = choose|q: int| 0 <= q < r && marks@[q] && t == initial(q);
                        assert(0 <= q < r + 1 && marks@[q] && t == initial(q));
                    }
                }
                assert(items@ =~= now);
            }
            r += 1;
        }
        proof {
            let step = closure_step(rules, given);
            let s = items@;
            lemma_closure_monotone(rules, given);
            let next = step(s);
            assert forall|t: LR0Item| next.contains(t) implies s.contains(t) by {
                if !given.contains(t) {
                    let (item, q) = choose|item: LR0Item, q: int|
                        s.contains(item) && #[trigger] predicts(rules, item, q) && t == initial(q);
                    if given.contains(item) {
                        let j = choose|j: int| 0 <= j < kept.len() && kept[j] == item;
                        assert(expanded(grammar, marks@, kept[j]));
                    } else {
                        let q0 = choose|q0: int| 0 <= q0 < total && marks@[q0] && item == initial(q0);
                        assert(expanded(grammar, marks@, initial(q0)));
                    }
                    assert(marks@[q]);
                }
            }
            lemma_lfp_least(step, s);
            assert forall|t: LR0Item| s.contains(t) implies closure(rules, given).contains(t) by {
                if !given.contains(t) {
                    let q = choose|q: int| 0 <= q < total && marks@[q] && t == initial(q);
                    assert(marks@[q]);
                }
            }
            assert(items@ =~= closure(rules, given));
        }
    }
}

} // verus!
