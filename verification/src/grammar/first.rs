//! FIRST sets, computed by rounds over the rules until a round adds nothing.

use vstd::prelude::*;
use crate::fixpoint::{cell, grid, grid_unset, lemma_lfp_least, mark, unset_grid};
use crate::grammar::model::{
    eps_between, first_facts, first_from_rule, first_set, first_step, is_terminal,
    lemma_first_intro, lemma_first_monotone, lemma_first_terminal, Fact, RuleView, EPSILON,
};
use crate::grammar::symbols::SymbolTable;

verus! {

/// A square matrix of marks over the symbols of `table`.
pub open spec fn square(table: &SymbolTable, m: Seq<Vec<bool>>) -> bool {
    &&& m.len() == table.size()
    &&& forall|x: int| 0 <= x < m.len() ==> (#[trigger] m[x])@.len() == table.size()
}

/// Epsilon is marked in the rows of the first `j` symbols of rule `i`.
pub open spec fn eps_upto(table: &SymbolTable, m: Seq<Vec<bool>>, i: int, j: int) -> bool {
    forall|p: int| 0 <= p < j ==> cell(m, (#[trigger] table.rights@[i]@[p]) as int, table.eps as int)
}

/// The counterpart of `first_from_rule` over symbol numbers.
pub open spec fn reaches(table: &SymbolTable, m: Seq<Vec<bool>>, i: int, j: int, t: int) -> bool {
    let row = table.rights@[i]@;
    ||| 0 <= j < row.len() && t != table.eps && cell(m, row[j] as int, t) && eps_upto(
        table,
        m,
        i,
        j,
    )
    ||| j == row.len() && t == table.eps && eps_upto(table, m, i, j)
}

/// Every mark stands for a FIRST fact.
pub open spec fn first_sound(table: &SymbolTable, rules: Seq<RuleView>, m: Seq<Vec<bool>>) -> bool {
    forall|x: int, t: int|
        0 <= x < table.size() && 0 <= t < table.size() && #[trigger] cell(m, x, t)
            ==> first_facts(rules).contains((table.names@[x], table.names@[t]))
}

/// Each terminal is marked in its own row.
pub open spec fn terminals_marked(table: &SymbolTable, m: Seq<Vec<bool>>) -> bool {
    forall|x: int| 0 <= x < table.size() && table.kinds@[x] ==> #[trigger] cell(m, x, x)
}

/// Whatever reaches the set of a rule's left-hand side through the first
/// `upto` positions is marked there.
pub open spec fn rule_closed(table: &SymbolTable, m: Seq<Vec<bool>>, i: int, upto: int) -> bool {
    !table.kinds@[table.lefts@[i] as int] ==> forall|j: int, t: int|
        0 <= j < upto && 0 <= t < table.size() && #[trigger] reaches(table, m, i, j, t) ==> cell(
            m,
            table.lefts@[i] as int,
            t,
        )
}

/// The first `upto` rules are closed.
pub open spec fn rules_closed(table: &SymbolTable, m: Seq<Vec<bool>>, upto: int) -> bool {
    forall|i: int|
        0 <= i < upto ==> #[trigger] rule_closed(table, m, i, (table.rights@[i]@.len() + 1) as int)
}

/// What reaches the set of a rule's left-hand side through sound marks is a
/// FIRST fact.
proof fn lemma_reaches_sound(
    table: &SymbolTable,
    rules: Seq<RuleView>,
    m: Seq<Vec<bool>>,
    i: int,
    j: int,
    t: int,
)
    requires
        table.wf(rules),
        square(table, m),
        first_sound(table, rules, m),
        0 <= i < rules.len(),
        0 <= t < table.size(),
        !table.kinds@[table.lefts@[i] as int],
        reaches(table, m, i, j, t),
    ensures
        first_facts(rules).contains((table.names@[table.lefts@[i] as int], table.names@[t])),
{
    assert(table.left_ok(rules, i));
    assert(table.right_ok(rules, i));
    let row = table.rights@[i]@;
    let right = rules[i].right;
    let facts = first_facts(rules);
    assert forall|p: int| 0 <= p < j implies facts.contains((#[trigger] right[p], EPSILON@)) by {
        assert(cell(m, row[p] as int, table.eps as int));
    }
    assert(eps_between(right, facts, 0, j));
    if j < row.len() {
        assert(cell(m, row[j] as int, t));
        assert(table.names@[t] != EPSILON@);
    } else {
        assert(table.names@[t] == EPSILON@);
    }
    assert(first_from_rule(right, facts, j, table.names@[t]));
    lemma_first_intro(rules, i, j, table.names@[t]);
}

/// Closed marks with every terminal marked in its own row hold every FIRST
/// fact over the table.
proof fn lemma_first_complete(table: &SymbolTable, rules: Seq<RuleView>, m: Seq<Vec<bool>>)
    requires
        table.wf(rules),
        square(table, m),
        terminals_marked(table, m),
        rules_closed(table, m, rules.len() as int),
    ensures
        forall|x: int, t: int|
            0 <= x < table.size() && 0 <= t < table.size() && first_facts(rules).contains(
                (table.names@[x], table.names@[t]),
            ) ==> #[trigger] cell(m, x, t),
{
    let step = first_step(rules);
    let n = table.size() as int;
    let s = Set::new(
        |f: Fact|
            forall|x: int, t: int|
                0 <= x < n && 0 <= t < n && table.names@[x] == f.0 && table.names@[t] == f.1
                    ==> #[trigger] cell(m, x, t),
    );
    lemma_first_monotone(rules);
    let next = step(s);
    assert forall|f: Fact| next.contains(f) implies s.contains(f) by {
        assert forall|x: int, t: int|
            0 <= x < n && 0 <= t < n && table.names@[x] == f.0 && table.names@[t]
                == f.1 implies #[trigger] cell(m, x, t) by {
            if is_terminal(f.0) {
                assert(x == t);
                assert(cell(m, x, x));
            } else {
                let (i, j) = choose|i: int, j: int|
                    0 <= i < rules.len() && (#[trigger] rules[i]).left == f.0
                        && #[trigger] first_from_rule(rules[i].right, s, j, f.1);
                assert(table.left_ok(rules, i));
                assert(table.right_ok(rules, i));
                let row = table.rights@[i]@;
                let right = rules[i].right;
                assert(table.lefts@[i] == x);
                assert forall|p: int| 0 <= p < j implies cell(
                    m,
                    (#[trigger] row[p]) as int,
                    table.eps as int,
                ) by {
                    assert(s.contains((right[p], EPSILON@)));
                }
                assert(eps_upto(table, m, i, j));
                if j < right.len() {
                    assert(s.contains((right[j], f.1)));
                    assert(cell(m, row[j] as int, t));
                    assert(t != table.eps);
                } else {
                    assert(t == table.eps);
                }
                assert(reaches(table, m, i, j, t));
                assert(rule_closed(table, m, i, (row.len() + 1) as int));
            }
        }
    }
    lemma_lfp_least(step, s);
    assert forall|x: int, t: int|
        0 <= x < table.size() && 0 <= t < table.size() && first_facts(rules).contains(
            (table.names@[x], table.names@[t]),
        ) implies #[trigger] cell(m, x, t) by {
        assert(s.contains((table.names@[x], table.names@[t])));
    }
}

/// Every member of the FIRST set of a symbol of the table is a symbol of
/// the table.
pub proof fn lemma_first_within_table(table: &SymbolTable, rules: Seq<RuleView>)
    requires
        table.wf(rules),
    ensures
        forall|f: Fact|
            #![trigger first_facts(rules).contains(f)]
            first_facts(rules).contains(f) && table.names@.contains(f.0) ==> table.names@.contains(
                f.1,
            ),
{
    let step = first_step(rules);
    let s = Set::new(|f: Fact| table.names@.contains(f.0) ==> table.names@.contains(f.1));
    lemma_first_monotone(rules);
    let next = step(s);
    assert forall|f: Fact| next.contains(f) implies s.contains(f) by {
        if table.names@.contains(f.0) && !is_terminal(f.0) {
            let (i, j) = choose|i: int, j: int|
                0 <= i < rules.len() && (#[trigger] rules[i]).left == f.0
                    && #[trigger] first_from_rule(rules[i].right, s, j, f.1);
            assert(table.right_ok(rules, i));
            let row = table.rights@[i]@;
            let right = rules[i].right;
            if j < right.len() {
                assert(table.names@[row[j] as int] == right[j]);
                assert(s.contains((right[j], f.1)));
            } else {
                assert(table.names@[table.eps as int] == f.1);
            }
        }
    }
    lemma_lfp_least(step, s);
    assert forall|f: Fact|
        #![trigger first_facts(rules).contains(f)]
        first_facts(rules).contains(f) && table.names@.contains(f.0) implies table.names@.contains(
            f.1,
        ) by {
        assert(s.contains(f));
    }
}

/// Adds to row `dst` every mark of row `src` but that of epsilon.
fn merge_row(
    m: &mut Vec<Vec<bool>>,
    dst: usize,
    src: usize,
    skip: usize,
    Ghost(table): Ghost<&SymbolTable>,
) -> (changed: bool)
    requires
        square(table, old(m)@),
        dst < table.size(),
        src < table.size(),
    ensures
        square(table, final(m)@),
        forall|a: int, b: int|
            0 <= a < table.size() && 0 <= b < table.size() ==> #[trigger] cell(final(m)@, a, b) == (
            cell(old(m)@, a, b) || (a == dst && b != skip && cell(old(m)@, src as int, b))),
        !changed ==> final(m)@ == old(m)@,
        changed ==> grid_unset(grid(final(m)@)) < grid_unset(grid(old(m)@)),
{
    let n = m.len();
    let mut changed = false;
    let mut t: usize = 0;
    while t < n
        invariant
            n == table.size(),
            t <= n,
            dst < n,
            src < n,
            square(table, m@),
            forall|a: int, b: int|
                0 <= a < n && 0 <= b < n ==> #[trigger] cell(m@, a, b) == (cell(old(m)@, a, b) || (a
                    == dst && b != skip && b < t && cell(old(m)@, src as int, b))),
            !changed ==> m@ == old(m)@,
            changed ==> grid_unset(grid(m@)) < grid_unset(grid(old(m)@)),
            grid_unset(grid(m@)) <= grid_unset(grid(old(m)@)),
        decreases n - t,
    {
        assert(cell(m@, src as int, t as int) == m@[src as int]@[t as int]);
        assert(cell(m@, dst as int, t as int) == m@[dst as int]@[t as int]);
        if t != skip && m[src][t] && !m[dst][t] {
            mark(m, dst, t);
            changed = true;
        }
        t += 1;
    }
    changed
}

/// The FIRST sets of all symbols of the table, as marks: the mark of `t` in
/// the row of `x` is set exactly when `t` is in FIRST(`x`).
pub(crate) fn build_first_sets(table: &SymbolTable, Ghost(rules): Ghost<Seq<RuleView>>) -> (first: Vec<
    Vec<bool>,
>)
    requires
        table.wf(rules),
    ensures
        square(table, first@),
        forall|x: int, t: int|
            0 <= x < table.size() && 0 <= t < table.size() ==> #[trigger] cell(first@, x, t)
                == first_facts(rules).contains((table.names@[x], table.names@[t])),
{
    let n = table.names.len();
    let mut first = unset_grid(n, n);
    let mut x: usize = 0;
    while x < n
        invariant
            table.wf(rules),
            n == table.size(),
            x <= n,
            square(table, first@),
            forall|a: int, b: int|
                0 <= a < n && 0 <= b < n ==> #[trigger] cell(first@, a, b) == (a == b && a < x
                    && table.kinds@[a]),
        decreases n - x,
    {
        if table.kinds[x] {
            mark(&mut first, x, x);
        }
        x += 1;
    }
    proof {
        assert forall|a: int, b: int|
            0 <= a < n && 0 <= b < n && #[trigger] cell(first@, a, b) implies first_facts(
            rules,
        ).contains((table.names@[a], table.names@[b])) by {
            lemma_first_terminal(rules, table.names@[a]);
            assert(first_set(rules, table.names@[a]).contains(table.names@[a]));
        }
    }
    let mut changed = true;
    while changed
        invariant
            table.wf(rules),
            n == table.size(),
            square(table, first@),
            first_sound(table, rules, first@),
            terminals_marked(table, first@),
            !changed ==> rules_closed(table, first@, rules.len() as int),
        decreases
            grid_unset(grid(first@)) + if changed {
                1nat
            } else {
                0nat
            },
    {
        changed = false;
        let ghost before = first@;
        let mut i: usize = 0;
        while i < table.lefts.len()
            invariant
                table.wf(rules),
                n == table.size(),
                i <= rules.len(),
                square(table, first@),
                first_sound(table, rules, first@),
                terminals_marked(table, first@),
                !changed ==> first@ == before && rules_closed(table, first@, i as int),
                changed ==> grid_unset(grid(first@)) < grid_unset(grid(before)),
            decreases rules.len() - i,
        {
            assert(table.left_ok(rules, i as int));
            assert(table.right_ok(rules, i as int));
            let left = table.lefts[i];
            if !table.kinds[left] {
                let grew = first_of_rule(table, &mut first, i, Ghost(rules));
                if grew {
                    changed = true;
                }
            } else {
                assert(rule_closed(table, first@, i as int, (table.rights@[i as int]@.len() + 1) as int));
            }
            i += 1;
        }
    }
    proof {
        lemma_first_complete(table, rules, first@);
    }
    first
}

/// Walks the right-hand side of rule `i` and adds to the row of its
/// left-hand side what reaches it.
fn first_of_rule(
    table: &SymbolTable,
    first: &mut Vec<Vec<bool>>,
    i: usize,
    Ghost(rules): Ghost<Seq<RuleView>>,
) -> (changed: bool)
    requires
        table.wf(rules),
        i < rules.len(),
        !table.kinds@[table.lefts@[i as int] as int],
        square(table, old(first)@),
        first_sound(table, rules, old(first)@),
        terminals_marked(table, old(first)@),
    ensures
        square(table, final(first)@),
        first_sound(table, rules, final(first)@),
        terminals_marked(table, final(first)@),
        !changed ==> final(first)@ == old(first)@ && rule_closed(
            table,
            final(first)@,
            i as int,
            (table.rights@[i as int]@.len() + 1) as int,
        ),
        changed ==> grid_unset(grid(final(first)@)) < grid_unset(grid(old(first)@)),
{
    assert(table.left_ok(rules, i as int));
    assert(table.right_ok(rules, i as int));
    let left = table.lefts[i];
    let row = &table.rights[i];
    let n = table.names.len();
    let mut changed = false;
    let mut go = true;
    let mut j: usize = 0;
    while go && j < row.len()
        invariant
            table.wf(rules),
            n == table.size(),
            i < rules.len(),
            left == table.lefts@[i as int],
            left < n,
            !table.kinds@[left as int],
            row@ == table.rights@[i as int]@,
            forall|p: int| 0 <= p < row@.len() ==> (#[trigger] row@[p]) < n,
            j <= row.len(),
            square(table, first@),
            first_sound(table, rules, first@),
            terminals_marked(table, first@),
            eps_upto(table, first@, i as int, j as int),
            !changed ==> first@ == old(first)@ && rule_closed(table, first@, i as int, j as int),
            !changed && !go ==> j < row.len() && !cell(first@, row@[j as int] as int, table.eps as int)
                && rule_closed(table, first@, i as int, j + 1),
            changed ==> grid_unset(grid(first@)) < grid_unset(grid(old(first)@)),
            grid_unset(grid(first@)) <= grid_unset(grid(old(first)@)),
        decreases
            row.len() - j + if go {
                1nat
            } else {
                0nat
            },
    {
        let src = row[j];
        let ghost pre = first@;
        let grew = merge_row(first, left, src, table.eps, Ghost(table));
        proof {
            assert forall|a: int, b: int|
                0 <= a < n && 0 <= b < n && #[trigger] cell(first@, a, b) implies first_facts(
                rules,
            ).contains((table.names@[a], table.names@[b])) by {
                if !cell(pre, a, b) {
                    assert(reaches(table, pre, i as int, j as int, b));
                    lemma_reaches_sound(table, rules, pre, i as int, j as int, b);
                }
            }
            assert forall|a: int| 0 <= a < n && table.kinds@[a] implies #[trigger] cell(
                first@,
                a,
                a,
            ) by {
                assert(cell(pre, a, a));
            }
            assert forall|p: int| 0 <= p < j implies cell(
                first@,
                (#[trigger] table.rights@[i as int]@[p]) as int,
                table.eps as int,
            ) by {
                assert(cell(pre, table.rights@[i as int]@[p] as int, table.eps as int));
            }
        }
        if grew {
            changed = true;
        }
        assert(cell(first@, src as int, table.eps as int) == first@[src as int]@[table.eps as int]);
        if first[src][table.eps] {
            proof {
                if !changed {
                    assert forall|jj: int, t: int|
                        0 <= jj < j + 1 && 0 <= t < n && #[trigger] reaches(
                            table,
                            first@,
                            i as int,
                            jj,
                            t,
                        ) implies cell(first@, left as int, t) by {
                        if jj < j {
                            assert(rule_closed(table, first@, i as int, j as int));
                        }
                    }
                }
            }
            j += 1;
        } else {
            proof {
                if !changed {
                    assert forall|jj: int, t: int|
                        0 <= jj < j + 1 && 0 <= t < n && #[trigger] reaches(
                            table,
                            first@,
                            i as int,
                            jj,
                            t,
                        ) implies cell(first@, left as int, t) by {
                        if jj < j {
                            assert(rule_closed(table, first@, i as int, j as int));
                        }
                    }
                }
            }
            go = false;
        }
    }
    if go {
        let ghost pre = first@;
        assert(cell(first@, left as int, table.eps as int) == first@[left as int]@[table.eps as int]);
        if !first[left][table.eps] {
            mark(first, left, table.eps);
            changed = true;
            proof {
                assert(reaches(table, pre, i as int, j as int, table.eps as int));
                lemma_reaches_sound(table, rules, pre, i as int, j as int, table.eps as int);
                assert forall|a: int, b: int|
                    0 <= a < n && 0 <= b < n && #[trigger] cell(first@, a, b) implies first_facts(
                    rules,
                ).contains((table.names@[a], table.names@[b])) by {
                    if !cell(pre, a, b) {
                    }
                }
                assert forall|a: int| 0 <= a < n && table.kinds@[a] implies #[trigger] cell(
                    first@,
                    a,
                    a,
                ) by {
                    assert(cell(pre, a, a));
                }
            }
        } else {
            proof {
                if !changed {
                    assert forall|jj: int, t: int|
                        0 <= jj < row@.len() + 1 && 0 <= t < n && #[trigger] reaches(
                            table,
                            first@,
                            i as int,
                            jj,
                            t,
                        ) implies cell(first@, left as int, t) by {
                        if jj < j {
                            assert(rule_closed(table, first@, i as int, j as int));
                        }
                    }
                }
            }
        }
    } else {
        proof {
            if !changed {
                assert forall|jj: int, t: int|
                    0 <= jj < row@.len() + 1 && 0 <= t < n && #[trigger] reaches(
                        table,
                        first@,
                        i as int,
                        jj,
                        t,
                    ) implies cell(first@, left as int, t) by {
                    if jj <= j {
                        assert(rule_closed(table, first@, i as int, j + 1));
                    } else {
                        assert(eps_upto(table, first@, i as int, jj));
                        assert(cell(
                            first@,
                            table.rights@[i as int]@[j as int] as int,
                            table.eps as int,
                        ));
                    }
                }
            }
        }
    }
    changed
}

} // verus!
