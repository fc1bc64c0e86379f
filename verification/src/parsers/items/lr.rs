//! What an item kind offers: the parts of an item, and the goto and the
//! closure of sets of such items.

use vstd::prelude::*;
use crate::grammar::{Grammar, GrammarRule};
use crate::parsers::items::model::{closure, goto, is_accept, is_final, item_valid, LR0Item};
use crate::parsers::items::set::ItemSet;
use crate::text::join;

verus! {

/// The mark that shows the dot of an item in text.
pub const DOT: &'static str = "•";

/// An item in text: the rule with the dot mark at the item's position.
pub open spec fn item_text(grammar: &Grammar, item: LR0Item) -> Seq<char> {
    let rule = grammar@[item.rule_index as int];
    rule.left + " -> "@ + join(rule.right.insert(item.dot_index as int, DOT@), " "@)
}

/// Every item of `items` names a rule of the grammar.
pub open spec fn items_known(grammar: &Grammar, items: Set<LR0Item>) -> bool {
    forall|t: LR0Item| items.contains(t) ==> (#[trigger] t.rule_index) < grammar@.len()
}

/// Every item of `items` is valid in the grammar.
pub open spec fn items_valid(grammar: &Grammar, items: Set<LR0Item>) -> bool {
    forall|t: LR0Item| items.contains(t) ==> #[trigger] item_valid(grammar@, t)
}

/// Valid items name rules of the grammar.
pub proof fn lemma_valid_known(grammar: &Grammar, items: Set<LR0Item>)
    requires
        items_valid(grammar, items),
    ensures
        items_known(grammar, items),
{
    assert forall|t: LR0Item| items.contains(t) implies (#[trigger] t.rule_index) < grammar@.len() by {
        assert(item_valid(grammar@, t));
    }
}

/// An LR item: a rule, a position in it, and what follows from the two.
pub trait LRItem: Sized {
    /// The rule and the position of the item.
    spec fn position(&self) -> LR0Item;

    /// The position of the dot.
    fn get_dot_index(&self) -> (d: usize)
        ensures
            d == self.position().dot_index,
    ;

    /// The number of the rule.
    fn get_rule_index(&self) -> (r: usize)
        ensures
            r == self.position().rule_index,
    ;

    /// The rule of the item.
    fn get_rule<'a>(&'a self, grammar: &'a Grammar) -> (rule: &'a GrammarRule)
        requires
            self.position().rule_index < grammar@.len(),
        ensures
            rule@ == grammar@[self.position().rule_index as int],
    ;

    /// Whether the dot is at the end of the rule, or the rule is the
    /// epsilon production.
    fn is_final(&self, grammar: &Grammar) -> (r: bool)
        requires
            grammar.wf(),
            self.position().rule_index < grammar@.len(),
        ensures
            r == is_final(grammar@, self.position()),
    ;

    /// Whether the item is the augmented rule with the dot behind the
    /// start symbol.
    fn is_accept(&self, grammar: &Grammar) -> (r: bool)
        ensures
            r == is_accept(self.position()),
    ;

    /// The rule with the dot mark at the item's position.
    fn to_string(&self, grammar: &Grammar) -> (s: String)
        requires
            item_valid(grammar@, self.position()),
        ensures
            s@ == item_text(grammar, self.position()),
    ;
}

/// The operations on sets of items of one kind.
pub trait ClosurableItem {
    /// The items of `items` that expect `symbol`, each moved over it.
    fn goto(grammar: &Grammar, items: &ItemSet, symbol: &str) -> (r: ItemSet)
        requires
            grammar.wf(),
            items.wf(),
            items_known(grammar, items@),
        ensures
            r.wf(),
            r@ == goto(grammar@, items@, symbol@),
    ;

    /// Extends `items` to its closure.
    fn closure(grammar: &Grammar, items: &mut ItemSet)
        requires
            grammar.wf(),
            old(items).wf(),
            items_known(grammar, old(items)@),
        ensures
            final(items).wf(),
            final(items)@ == closure(grammar@, old(items)@),
    ;
}

} // verus!
