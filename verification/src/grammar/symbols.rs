//! The symbol table of a grammar: every symbol of the rules gets a number,
//! and the rules are kept a second time over these numbers.

use vstd::prelude::*;
use crate::grammar::{rule_views, symbol_is_terminal, GrammarRule};
use crate::grammar::model::{is_terminal, RuleView, EOF, EPSILON};
use crate::text::{lemma_push_distinct, owned, StringSet};

verus! {

/// The numbered symbols of a rule list.
pub struct SymbolTable {
    /// The symbols; the number of a symbol is its position.
    pub names: StringSet,
    /// The number of the left-hand side of each rule.
    pub lefts: Vec<usize>,
    /// The numbers of the right-hand side of each rule.
    pub rights: Vec<Vec<usize>>,
    /// For each symbol, whether it is a terminal.
    pub kinds: Vec<bool>,
    /// The number of the epsilon marker.
    pub eps: usize,
    /// The number of the end-of-input symbol.
    pub eof: usize,
}

impl SymbolTable {
    /// The number of symbols.
    pub open spec fn size(&self) -> nat {
        self.names@.len()
    }

    /// The table numbers exactly the symbols of `rules`, epsilon and
    /// end-of-input, and its rules over numbers stand for `rules`.
    pub open spec fn wf(&self, rules: Seq<RuleView>) -> bool {
        &&& self.names.wf()
        &&& self.lefts@.len() == rules.len()
        &&& self.rights@.len() == rules.len()
        &&& self.kinds@.len() == self.size()
        &&& self.eps < self.size()
        &&& self.eof < self.size()
        &&& self.names@[self.eps as int] == EPSILON@
        &&& self.names@[self.eof as int] == EOF@
        &&& forall|x: int| 0 <= x < self.size() ==> self.kinds@[x] == is_terminal(#[trigger] self.names@[x])
        &&& forall|i: int| 0 <= i < rules.len() ==> self.left_ok(rules, i)
        &&& forall|i: int| 0 <= i < rules.len() ==> self.right_ok(rules, i)
    }

    /// The number of the left-hand side of rule `i` stands for that symbol.
    pub open spec fn left_ok(&self, rules: Seq<RuleView>, i: int) -> bool {
        &&& self.lefts@[i] < self.size()
        &&& self.names@[self.lefts@[i] as int] == rules[i].left
    }

    /// The numbers of the right-hand side of rule `i` stand for its symbols.
    pub open spec fn right_ok(&self, rules: Seq<RuleView>, i: int) -> bool {
        &&& self.rights@[i]@.len() == rules[i].right.len()
        &&& forall|j: int|
            0 <= j < rules[i].right.len() ==> (#[trigger] self.rights@[i]@[j]) < self.size()
                && self.names@[self.rights@[i]@[j] as int] == rules[i].right[j]
    }

    /// The number of `symbol`, if the table has it.
    pub fn number_of(&self, symbol: &str) -> (r: Option<usize>)
        ensures
            r matches Some(x) ==> x < self.size() && self.names@[x as int] == symbol@,
            r is None ==> !self.names@.contains(symbol@),
    {
        self.names.index_of(symbol)
    }
}

/// The number of `symbol` in `names`, which gets it as a new member if it
/// has none.
fn intern(names: &mut StringSet, symbol: &str) -> (x: usize)
    requires
        old(names).wf(),
    ensures
        final(names).wf(),
        x < final(names)@.len(),
        final(names)@[x as int] == symbol@,
        old(names)@.len() <= final(names)@.len(),
        forall|i: int| 0 <= i < old(names)@.len() ==> final(names)@[i] == old(names)@[i],
{
    proof {
        lemma_push_distinct(names@, symbol@);
    }
    match names.index_of(symbol) {
        Some(x) => x,
        None => {
            let x = names.len();
            names.insert(owned(symbol));
            x
        },
    }
}

/// Numbers the symbols of `rules`, after those of `seed`.
pub fn build_table(rules: &Vec<GrammarRule>, seed: StringSet) -> (table: SymbolTable)
    requires
        seed.wf(),
    ensures
        table.wf(rule_views(rules@)),
        forall|k: int| 0 <= k < seed@.len() ==> table.names@.contains(#[trigger] seed@[k]),
{
    let ghost views = rule_views(rules@);
    let mut names = seed;
    let mut lefts: Vec<usize> = Vec::new();
    let mut rights: Vec<Vec<usize>> = Vec::new();
    let mut i: usize = 0;
    while i < rules.len()
        invariant
            views == rule_views(rules@),
            i <= rules.len(),
            names.wf(),
            seed@.len() <= names@.len(),
            forall|k: int| 0 <= k < seed@.len() ==> names@[k] == seed@[k],
            lefts@.len() == i,
            rights@.len() == i,
            forall|k: int|
                0 <= k < i ==> (#[trigger] lefts@[k]) < names@.len() && names@[lefts@[k] as int]
                    == views[k].left,
            forall|k: int| 0 <= k < i ==> (#[trigger] rights@[k])@.len() == views[k].right.len(),
            forall|k: int, j: int|
                0 <= k < i && 0 <= j < views[k].right.len() ==> (#[trigger] rights@[k]@[j])
                    < names@.len() && names@[rights@[k]@[j] as int] == views[k].right[j],
        decreases rules.len() - i,
    {
        let rule = &rules[i];
        assert(views[i as int] == rule@);
        let l = intern(&mut names, rule.left.as_str());
        let mut row: Vec<usize> = Vec::new();
        let mut j: usize = 0;
        while j < rule.right.len()
            invariant
                views == rule_views(rules@),
                i < rules.len(),
                rule == &rules[i as int],
                views[i as int] == rule@,
                j <= rule.right.len(),
                names.wf(),
                seed@.len() <= names@.len(),
                forall|k: int| 0 <= k < seed@.len() ==> names@[k] == seed@[k],
                lefts@.len() == i,
                rights@.len() == i,
                l < names@.len(),
                names@[l as int] == views[i as int].left,
                row@.len() == j,
                forall|k: int|
                    0 <= k < i ==> (#[trigger] lefts@[k]) < names@.len() && names@[lefts@[k] as int]
                        == views[k].left,
                forall|k: int, m: int|
                    0 <= k < i && 0 <= m < views[k].right.len() ==> (#[trigger] rights@[k]@[m])
                        < names@.len() && names@[rights@[k]@[m] as int] == views[k].right[m],
                forall|m: int|
                    0 <= m < j ==> (#[trigger] row@[m]) < names@.len() && names@[row@[m] as int]
                        == views[i as int].right[m],
            decreases rule.right.len() - j,
        {
            assert(views[i as int].right[j as int] == rule.right@[j as int]@);
            let x = intern(&mut names, rule.right[j].as_str());
            row.push(x);
            j += 1;
        }
        lefts.push(l);
        rights.push(row);
        i += 1;
    }
    let eps = intern(&mut names, EPSILON);
    let eof = intern(&mut names, EOF);
    let mut kinds: Vec<bool> = Vec::new();
    let mut x: usize = 0;
    while x < names.len()
        invariant
            x <= names@.len(),
            kinds@.len() == x,
            forall|k: int| 0 <= k < x ==> kinds@[k] == is_terminal(#[trigger] names@[k]),
        decreases names@.len() - x,
    {
        kinds.push(symbol_is_terminal(names.get(x).as_str()));
        x += 1;
    }
    let table = SymbolTable { names, lefts, rights, kinds, eps, eof };
    assert forall|k: int| 0 <= k < views.len() implies table.right_ok(views, k) by {
        assert(table.rights@[k]@.len() == views[k].right.len());
    }
    assert forall|k: int| 0 <= k < seed@.len() implies table.names@.contains(
        #[trigger] seed@[k],
    ) by {
        assert(table.names@[k] == seed@[k]);
    }
    table
}

} // verus!
