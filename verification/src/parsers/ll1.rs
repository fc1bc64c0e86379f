//! The LL(1) prediction table: for a nonterminal and a terminal the rule
//! to expand, and whether any cell of the table is claimed by two rules.

use vstd::prelude::*;
use crate::fixpoint::cell;
use crate::grammar::Grammar;
use crate::grammar::first::lemma_first_within_table;
use crate::grammar::model::{first_facts, first_set, RuleView, Symbol};
use crate::text::StringSet;

verus! {

/// Rule `i` claims the cell of `left` and `t`: `left` is its left-hand
/// side, and `t` is a member of the FIRST set of the first symbol of its
/// right-hand side.
pub open spec fn claims(rules: Seq<RuleView>, i: int, left: Symbol, t: Symbol) -> bool {
    &&& 0 <= i < rules.len()
    &&& rules[i].left == left
    &&& rules[i].right.len() > 0
    &&& first_set(rules, rules[i].right[0]).contains(t)
}

/// The rule in the cell of `left` and `t` after the first `upto` rules
/// have made their claims: the last of them that claims the cell.
pub open spec fn predicted(rules: Seq<RuleView>, left: Symbol, t: Symbol, upto: int) -> Option<int>
    decreases upto,
{
    if upto <= 0 {
        None
    } else if claims(rules, upto - 1, left, t) {
        Some(upto - 1)
    } else {
        predicted(rules, left, t, upto - 1)
    }
}

/// No cell is claimed by two of the first `upto` rules.
pub open spec fn free_of_clashes(rules: Seq<RuleView>, upto: int) -> bool {
    forall|a: int, b: int, left: Symbol, t: Symbol|
        #![trigger claims(rules, a, left, t), claims(rules, b, left, t)]
        0 <= a < b < upto ==> !(claims(rules, a, left, t) && claims(rules, b, left, t))
}

/// The content of a cell as an integer.
pub open spec fn held(c: Option<usize>) -> Option<int> {
    match c {
        Some(i) => Some(i as int),
        None => None,
    }
}

/// A cell holds a rule exactly when one of the rules claims it, and then
/// the last that does.
pub proof fn lemma_predicted(rules: Seq<RuleView>, left: Symbol, t: Symbol, upto: int)
    requires
        0 <= upto <= rules.len(),
    ensures
        predicted(rules, left, t, upto) is Some <==> exists|a: int|
            0 <= a < upto && #[trigger] claims(rules, a, left, t),
        predicted(rules, left, t, upto) matches Some(r) ==> 0 <= r < upto && claims(
            rules,
            r,
            left,
            t,
        ) && forall|a: int| r < a < upto ==> !#[trigger] claims(rules, a, left, t),
    decreases upto,
{
    if upto > 0 {
        lemma_predicted(rules, left, t, upto - 1);
        if claims(rules, upto - 1, left, t) {
        } else if predicted(rules, left, t, upto - 1) is Some {
            let a = choose|a: int| 0 <= a < upto - 1 && #[trigger] claims(rules, a, left, t);
            assert(claims(rules, a, left, t));
        } else {
            assert forall|a: int| 0 <= a < upto implies !#[trigger] claims(rules, a, left, t) by {
                if a < upto - 1 {
                    assert(!(0 <= a < upto - 1 && claims(rules, a, left, t)));
                }
            }
        }
    }
}

/// One more rule leaves the table free of clashes exactly when it was so
/// before and the rule claims no cell that holds a rule.
pub proof fn lemma_free_of_clashes(rules: Seq<RuleView>, i: int)
    requires
        0 <= i < rules.len(),
    ensures
        free_of_clashes(rules, i + 1) <==> free_of_clashes(rules, i) && forall|t: Symbol|
            !(#[trigger] claims(rules, i, rules[i].left, t) && predicted(
                rules,
                rules[i].left,
                t,
                i,
            ) is Some),
{
    let left = rules[i].left;
    if free_of_clashes(rules, i + 1) {
        assert forall|t: Symbol| !(#[trigger] claims(rules, i, left, t) && predicted(
            rules,
            left,
            t,
            i,
        ) is Some) by {
            lemma_predicted(rules, left, t, i);
            if claims(rules, i, left, t) && predicted(rules, left, t, i) is Some {
                let a = predicted(rules, left, t, i)->0;
                assert(claims(rules, a, left, t) && claims(rules, i, left, t));
            }
        }
    }
    if free_of_clashes(rules, i) && forall|t: Symbol|
        !(#[trigger] claims(rules, i, rules[i].left, t) && predicted(rules, rules[i].left, t, i)
            is Some) {
        assert forall|a: int, b: int, x: Symbol, t: Symbol|
            #![trigger claims(rules, a, x, t), claims(rules, b, x, t)]
            0 <= a < b < i + 1 implies !(claims(rules, a, x, t) && claims(rules, b, x, t)) by {
            if b == i && claims(rules, a, x, t) && claims(rules, b, x, t) {
                lemma_predicted(rules, left, t, i);
                assert(claims(rules, i, rules[i].left, t));
            }
        }
    }
}

/// A table of `rows` by `cols` empty cells.
fn empty_cells(rows: usize, cols: usize) -> (m: Vec<Vec<Option<usize>>>)
    ensures
        m@.len() == rows,
        forall|x: int| 0 <= x < rows ==> (#[trigger] m@[x])@.len() == cols,
        forall|x: int, y: int| 0 <= x < rows && 0 <= y < cols ==> (#[trigger] m@[x]@[y]) is None,
{
    let mut m: Vec<Vec<Option<usize>>> = Vec::new();
    let mut x: usize = 0;
    while x < rows
        invariant
            x <= rows,
            m@.len() == x,
            forall|a: int| 0 <= a < x ==> (#[trigger] m@[a])@.len() == cols,
            forall|a: int, b: int| 0 <= a < x && 0 <= b < cols ==> (#[trigger] m@[a]@[b]) is None,
        decreases rows - x,
    {
        let mut row: Vec<Option<usize>> = Vec::new();
        let mut y: usize = 0;
        while y < cols
            invariant
                y <= cols,
                row@.len() == y,
                forall|b: int| 0 <= b < y ==> (#[trigger] row@[b]) is None,
            decreases cols - y,
        {
            row.push(None);
            y += 1;
        }
        m.push(row);
        x += 1;
    }
    m
}

/// The LL(1) prediction table of a grammar.
pub struct GrammarParserLL1 {
    pub(crate) is_ll1: bool,
    pub(crate) names: StringSet,
    pub(crate) cells: Vec<Vec<Option<usize>>>,
    pub(crate) rules: Ghost<Seq<RuleView>>,
}

impl GrammarParserLL1 {
    /// The rule list that the table predicts for.
    pub open(crate) spec fn rules(&self) -> Seq<RuleView> {
        self.rules@
    }

    /// The cells have the shape of a square over the symbols.
    pub open(crate) spec fn square(&self) -> bool {
        &&& self.names.wf()
        &&& self.cells@.len() == self.names@.len()
        &&& forall|x: int| 0 <= x < self.cells@.len() ==> (#[trigger] self.cells@[x])@.len() == self.names@.len()
    }

    /// The cells hold what the first `upto` rules predict.
    pub open(crate) spec fn holds(&self, upto: int) -> bool {
        forall|x: int, y: int|
            0 <= x < self.names@.len() && 0 <= y < self.names@.len() ==> held(
                #[trigger] self.cells@[x]@[y],
            ) == predicted(self.rules(), self.names@[x], self.names@[y], upto)
    }

    /// The table holds for each pair of symbols the rule that the rule
    /// list predicts, and knows whether two rules claim one cell.
    pub open(crate) spec fn wf(&self) -> bool {
        &&& self.square()
        &&& self.holds(self.rules().len() as int)
        &&& forall|left: Symbol, t: Symbol|
            (#[trigger] predicted(self.rules(), left, t, self.rules().len() as int)) is Some
                ==> self.names@.contains(left) && self.names@.contains(t)
        &&& self.is_ll1 == free_of_clashes(self.rules(), self.rules().len() as int)
    }

    /// The prediction table of `grammar`: every rule claims, for its
    /// left-hand side, the members of the FIRST set of the first symbol of
    /// its right-hand side; where several rules claim a cell the last one
    /// holds it, and the grammar is not LL(1).
    pub fn from_grammar(grammar: &Grammar) -> (parser: GrammarParserLL1)
        requires
            grammar.wf(),
        ensures
            parser.wf(),
            parser.rules() == grammar@,
    {
        let n = grammar.table.names.len();
        let mut parser = GrammarParserLL1 {
            is_ll1: true,
            names: grammar.table.names.clone_set(),
            cells: empty_cells(n, n),
            rules: Ghost(grammar@),
        };
        parser.build_parse_table(grammar);
        parser
    }

    /// Lets the rules of `grammar` claim their cells, in their order.
    fn build_parse_table(&mut self, grammar: &Grammar)
        requires
            grammar.wf(),
            old(self).square(),
            old(self).names@ == grammar.table.names@,
            old(self).rules() == grammar@,
            old(self).holds(0),
            old(self).is_ll1,
        ensures
            final(self).wf(),
            final(self).rules() == grammar@,
    {
        let ghost rules = grammar@;
        let ghost names = grammar.table.names@;
        let table = &grammar.table;
        let n = table.names.len();
        let mut i: usize = 0;
        while i < table.lefts.len()
            invariant
                grammar.wf(),
                rules == grammar@,
                names == grammar.table.names@,
                table == &grammar.table,
                n == names.len(),
                i <= rules.len(),
                self.square(),
                self.names@ == names,
                self.rules() == rules,
                self.holds(i as int),
                self.is_ll1 == free_of_clashes(rules, i as int),
            decreases rules.len() - i,
        {
            assert(table.left_ok(rules, i as int));
            assert(table.right_ok(rules, i as int));
            assert(rules[i as int].right.len() > 0);
            let left = table.lefts[i];
            let first = table.rights[i][0];
            let ghost before = self.cells@;
            let ghost clean = self.is_ll1;
            let mut y: usize = 0;
            while y < n
                invariant
                    grammar.wf(),
                    rules == grammar@,
                    names == grammar.table.names@,
                    table == &grammar.table,
                    n == names.len(),
                    i < rules.len(),
                    y <= n,
                    left < n,
                    first < n,
                    names[left as int] == rules[i as int].left,
                    rules[i as int].right.len() > 0,
                    names[first as int] == rules[i as int].right[0],
                    self.square(),
                    self.names@ == names,
                    self.rules() == rules,
                    clean == free_of_clashes(rules, i as int),
                    forall|a: int, b: int|
                        0 <= a < n && 0 <= b < n ==> held(#[trigger] self.cells@[a]@[b]) == predicted(
                            rules,
                            names[a],
                            names[b],
                            if a == left && b < y {
                                i + 1
                            } else {
                                i as int
                            },
                        ),
                    self.is_ll1 == (clean && forall|b: int|
                        0 <= b < y ==> !(#[trigger] claims(
                            rules,
                            i as int,
                            names[left as int],
                            names[b],
                        ) && predicted(rules, names[left as int], names[b], i as int) is Some)),
                decreases n - y,
            {
                assert(cell(grammar.first@, first as int, y as int) == first_facts(rules).contains(
                    (names[first as int], names[y as int]),
                ));
                assert(grammar.first@[first as int]@.len() == n);
                let ghost claimed = claims(rules, i as int, names[left as int], names[y as int]);
                assert(claimed == cell(grammar.first@, first as int, y as int));
                if grammar.first[first][y] {
                    if self.cells[left][y].is_some() {
                        self.is_ll1 = false;
                    }
                    let ghost old_cells = self.cells@;
                    self.cells[left][y] = Some(i);
                    assert(self.cells@ =~= old_cells.update(
                        left as int,
                        self.cells@[left as int],
                    ));
                    assert(self.cells@[left as int]@ =~= old_cells[left as int]@.update(
                        y as int,
                        Some(i),
                    ));
                }
                y += 1;
            }
            proof {
                let at = i as int;
                assert forall|a: int, b: int| 0 <= a < n && 0 <= b < n implies held(
                    #[trigger] self.cells@[a]@[b],
                ) == predicted(rules, names[a], names[b], at + 1) by {
                    if a != left {
                        assert(names[a] != names[left as int]);
                    }
                }
                lemma_free_of_clashes(rules, at);
                lemma_first_within_table(table, rules);
                let l = rules[at].left;
                assert(names.contains(rules[at].right[0]));
                if forall|b: int|
                    0 <= b < n ==> !(#[trigger] claims(rules, at, l, names[b]) && predicted(
                        rules,
                        l,
                        names[b],
                        at,
                    ) is Some) {
                    assert forall|t: Symbol| !(#[trigger] claims(rules, at, l, t) && predicted(
                        rules,
                        l,
                        t,
                        at,
                    ) is Some) by {
                        if claims(rules, at, l, t) {
                            assert(first_facts(rules).contains((rules[at].right[0], t)));
                            assert(names.contains(t));
                            let b = choose|b: int| 0 <= b < names.len() && names[b] == t;
                            assert(!(claims(rules, at, l, names[b]) && predicted(
                                rules,
                                l,
                                names[b],
                                at,
                            ) is Some));
                        }
                    }
                }
            }
            i += 1;
        }
        proof {
            let all = rules.len() as int;
            lemma_first_within_table(table, rules);
            assert forall|left: Symbol, t: Symbol|
                (#[trigger] predicted(rules, left, t, all)) is Some implies names.contains(left)
                && names.contains(t) by {
                lemma_predicted(rules, left, t, all);
                let r = predicted(rules, left, t, all)->0;
                assert(claims(rules, r, left, t));
                assert(table.left_ok(rules, r));
                assert(table.right_ok(rules, r));
                assert(names[table.lefts@[r] as int] == left);
                assert(names[table.rights@[r]@[0] as int] == rules[r].right[0]);
                assert(names.contains(rules[r].right[0]));
                assert(first_facts(rules).contains((rules[r].right[0], t)));
            }
        }
    }

    /// Whether the grammar is LL(1): no cell of the table is claimed by
    /// two rules.
    pub fn is_ll1(&self) -> (r: bool)
        requires
            self.wf(),
        ensures
            r == free_of_clashes(self.rules(), self.rules().len() as int),
    {
        self.is_ll1
    }

    /// The rule to expand for nonterminal `left` when the parser looks at
    /// `terminal`: the last rule that claims the cell; nothing if no rule
    /// claims it.
    pub fn rule_for(&self, left: &str, terminal: &str) -> (r: Option<usize>)
        requires
            self.wf(),
        ensures
            held(r) == predicted(self.rules(), left@, terminal@, self.rules().len() as int),
    {
        match self.names.index_of(left) {
            None => None,
            Some(x) => match self.names.index_of(terminal) {
                None => None,
                Some(y) => self.cells[x][y],
            },
        }
    }
}

} // verus!
