//! The nullable symbols, computed by rounds over the rules until a round
//! adds nothing.

use vstd::prelude::*;
use crate::fixpoint::{count_unset, lemma_count_unset_set, lemma_lfp_least, unset_row};
use crate::grammar::model::{
    all_vanish, lemma_nullable_intro, lemma_nullable_monotone, nullable_set, nullable_step,
    RuleView, Symbol, EPSILON,
};
use crate::grammar::symbols::SymbolTable;

verus! {

/// Rule `i` has a nonterminal on the left, and every symbol of its
/// right-hand side is epsilon or marked.
pub open spec fn fires(table: &SymbolTable, marks: Seq<bool>, i: int) -> bool {
    let row = table.rights@[i]@;
    &&& !table.kinds@[table.lefts@[i] as int]
    &&& forall|j: int|
        0 <= j < row.len() ==> (#[trigger] row[j]) == table.eps || marks[row[j] as int]
}

/// Every mark stands for a nullable symbol.
pub open spec fn marks_sound(table: &SymbolTable, rules: Seq<RuleView>, marks: Seq<bool>) -> bool {
    forall|x: int|
        0 <= x < marks.len() && marks[x] ==> nullable_set(rules).contains(
            #[trigger] table.names@[x],
        )
}

/// The left-hand side of every rule that fires is marked.
pub open spec fn marks_closed(table: &SymbolTable, marks: Seq<bool>, upto: int) -> bool {
    forall|i: int| 0 <= i < upto && #[trigger] fires(table, marks, i) ==> marks[table.lefts@[i] as int]
}

/// The left-hand side of a rule that fires under sound marks is nullable.
proof fn lemma_fires_sound(table: &SymbolTable, rules: Seq<RuleView>, marks: Seq<bool>, i: int)
    requires
        table.wf(rules),
        marks.len() == table.size(),
        marks_sound(table, rules, marks),
        0 <= i < rules.len(),
        fires(table, marks, i),
    ensures
        nullable_set(rules).contains(table.names@[table.lefts@[i] as int]),
{
    assert(table.left_ok(rules, i));
    assert(table.right_ok(rules, i));
    let row = table.rights@[i]@;
    let right = rules[i].right;
    assert forall|j: int| 0 <= j < right.len() implies (#[trigger] right[j]) == EPSILON@
        || nullable_set(rules).contains(right[j]) by {
        assert(right[j] == table.names@[row[j] as int]);
        if row[j] != table.eps {
            assert(marks[row[j] as int]);
        }
    }
    assert(all_vanish(right, nullable_set(rules)));
    lemma_nullable_intro(rules, i);
}

/// Closed marks hold every nullable symbol of the table.
proof fn lemma_marks_complete(table: &SymbolTable, rules: Seq<RuleView>, marks: Seq<bool>)
    requires
        table.wf(rules),
        marks.len() == table.size(),
        marks_closed(table, marks, rules.len() as int),
    ensures
        forall|x: int|
            0 <= x < marks.len() && nullable_set(rules).contains(#[trigger] table.names@[x])
                ==> marks[x],
{
    let step = nullable_step(rules);
    let s = Set::new(
        |a: Symbol| exists|x: int| 0 <= x < marks.len() && #[trigger] table.names@[x] == a && marks[x],
    );
    lemma_nullable_monotone(rules);
    let next = step(s);
    assert forall|a: Symbol| next.contains(a) implies s.contains(a) by {
        let i = choose|i: int|
            0 <= i < rules.len() && (#[trigger] rules[i]).left == a && all_vanish(
                rules[i].right,
                s,
            );
        assert(table.left_ok(rules, i));
        assert(table.right_ok(rules, i));
        let row = table.rights@[i]@;
        let right = rules[i].right;
        assert forall|j: int| 0 <= j < row.len() implies (#[trigger] row[j]) == table.eps
            || marks[row[j] as int] by {
            assert(table.names@[row[j] as int] == right[j]);
            if right[j] != EPSILON@ {
                assert(s.contains(right[j]));
                let x = choose|x: int|
                    0 <= x < marks.len() && #[trigger] table.names@[x] == right[j] && marks[x];
            }
        }
        assert(fires(table, marks, i));
        assert(table.names@[table.lefts@[i] as int] == a);
    }
    lemma_lfp_least(step, s);
    assert forall|x: int|
        0 <= x < marks.len() && nullable_set(rules).contains(
            #[trigger] table.names@[x],
        ) implies marks[x] by {
        assert(s.contains(table.names@[x]));
        let y = choose|y: int|
            0 <= y < marks.len() && #[trigger] table.names@[y] == table.names@[x] && marks[y];
    }
}

/// Whether rule `i` fires under `marks`.
fn rule_fires(table: &SymbolTable, marks: &Vec<bool>, i: usize, Ghost(rules): Ghost<Seq<RuleView>>) -> (r: bool)
    requires
        table.wf(rules),
        marks@.len() == table.size(),
        i < rules.len(),
    ensures
        r == fires(table, marks@, i as int),
{
    assert(table.left_ok(rules, i as int));
    assert(table.right_ok(rules, i as int));
    if table.kinds[table.lefts[i]] {
        return false;
    }
    let row = &table.rights[i];
    let mut j: usize = 0;
    while j < row.len()
        invariant
            j <= row.len(),
            i < table.rights@.len(),
            row@ == table.rights@[i as int]@,
            marks@.len() == table.size(),
            forall|m: int| 0 <= m < row@.len() ==> (#[trigger] row@[m]) < table.size(),
            forall|m: int|
                0 <= m < j ==> (#[trigger] row@[m]) == table.eps || marks@[row@[m] as int],
        decreases row.len() - j,
    {
        if row[j] != table.eps && !marks[row[j]] {
            return false;
        }
        j += 1;
    }
    true
}

/// Marks the nullable symbols of `rules`: a nonterminal is marked exactly
/// when it is the left-hand side of a rule whose right-hand side holds
/// nothing but epsilon and nullable symbols, to the least fixed point.
pub(crate) fn build_props_nullable(table: &SymbolTable, Ghost(rules): Ghost<Seq<RuleView>>) -> (marks: Vec<bool>)
    requires
        table.wf(rules),
    ensures
        marks@.len() == table.size(),
        forall|x: int|
            0 <= x < marks@.len() ==> marks@[x] == nullable_set(rules).contains(
                #[trigger] table.names@[x],
            ),
{
    let n = table.names.len();
    let mut marks = unset_row(n);
    let mut changed = true;
    while changed
        invariant
            table.wf(rules),
            marks@.len() == n == table.size(),
            marks_sound(table, rules, marks@),
            !changed ==> marks_closed(table, marks@, rules.len() as int),
        decreases
            count_unset(marks@) + if changed {
                1nat
            } else {
                0nat
            },
    {
        changed = false;
        let ghost before = marks@;
        let mut i: usize = 0;
        while i < table.lefts.len()
            invariant
                table.wf(rules),
                marks@.len() == n == table.size(),
                i <= rules.len(),
                marks_sound(table, rules, marks@),
                !changed ==> marks@ == before && marks_closed(table, marks@, i as int),
                changed ==> count_unset(marks@) < count_unset(before),
            decreases rules.len() - i,
        {
            assert(table.left_ok(rules, i as int));
            let left = table.lefts[i];
            if !marks[left] {
                if rule_fires(table, &marks, i, Ghost(rules)) {
                    proof {
                        lemma_fires_sound(table, rules, marks@, i as int);
                        lemma_count_unset_set(marks@, left as int);
                    }
                    marks.set(left, true);
                    changed = true;
                }
            }
            i += 1;
        }
    }
    proof {
        lemma_marks_complete(table, rules, marks@);
    }
    marks
}

} // verus!
