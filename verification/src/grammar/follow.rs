//! FOLLOW sets, computed by rounds over the rules until a round adds
//! nothing.

use vstd::prelude::*;
use crate::fixpoint::{cell, grid, grid_unset, lemma_lfp_least, mark, unset_grid};
use crate::grammar::first::{lemma_first_within_table, square};
use crate::grammar::model::{
    eps_between, first_facts, follow_facts, follow_from_rule, follow_step, is_terminal,
    lemma_follow_intro, lemma_follow_monotone, Fact, RuleView, Symbol, EOF, EPSILON,
};
use crate::grammar::symbols::SymbolTable;

verus! {

/// The marks of `first` are exactly the FIRST facts over the table.
pub open spec fn first_exact(table: &SymbolTable, rules: Seq<RuleView>, first: Seq<Vec<bool>>) -> bool {
    &&& square(table, first)
    &&& forall|x: int, t: int|
        0 <= x < table.size() && 0 <= t < table.size() ==> #[trigger] cell(first, x, t)
            == first_facts(rules).contains((table.names@[x], table.names@[t]))
}

/// The marks of `follow` are exactly the FOLLOW facts over the table.
pub open spec fn follow_exact(
    table: &SymbolTable,
    rules: Seq<RuleView>,
    start: Symbol,
    follow: Seq<Vec<bool>>,
) -> bool {
    &&& square(table, follow)
    &&& forall|x: int, t: int|
        0 <= x < table.size() && 0 <= t < table.size() ==> #[trigger] cell(follow, x, t)
            == follow_facts(rules, start).contains((table.names@[x], table.names@[t]))
}

/// Epsilon is marked in the FIRST rows of positions `from..to` of rule `i`.
pub open spec fn eps_span(table: &SymbolTable, first: Seq<Vec<bool>>, i: int, from: int, to: int) -> bool {
    forall|q: int|
        from <= q < to ==> cell(first, (#[trigger] table.rights@[i]@[q]) as int, table.eps as int)
}

/// The counterpart of `follow_from_rule` over symbol numbers.
pub open spec fn follows(
    table: &SymbolTable,
    first: Seq<Vec<bool>>,
    m: Seq<Vec<bool>>,
    i: int,
    p: int,
    j: int,
    t: int,
) -> bool {
    let row = table.rights@[i]@;
    ||| p < j < row.len() && t != table.eps && cell(first, row[j] as int, t) && eps_span(
        table,
        first,
        i,
        p + 1,
        j,
    )
    ||| j == row.len() && eps_span(table, first, i, p + 1, j) && cell(
        m,
        table.lefts@[i] as int,
        t,
    )
}

/// Every mark stands for a FOLLOW fact.
pub open spec fn follow_sound(
    table: &SymbolTable,
    rules: Seq<RuleView>,
    start: Symbol,
    m: Seq<Vec<bool>>,
) -> bool {
    forall|x: int, t: int|
        0 <= x < table.size() && 0 <= t < table.size() && #[trigger] cell(m, x, t)
            ==> follow_facts(rules, start).contains((table.names@[x], table.names@[t]))
}

/// Whatever follows the nonterminal at position `p` of rule `i` through a
/// position before `upto` is marked in its row.
pub open spec fn place_closed(
    table: &SymbolTable,
    first: Seq<Vec<bool>>,
    m: Seq<Vec<bool>>,
    i: int,
    p: int,
    upto: int,
) -> bool {
    !table.kinds@[table.rights@[i]@[p] as int] ==> forall|j: int, t: int|
        p < j < upto && 0 <= t < table.size() && #[trigger] follows(table, first, m, i, p, j, t)
            ==> cell(m, table.rights@[i]@[p] as int, t)
}

/// The first `upto` positions of rule `i` are closed.
pub open spec fn places_closed(
    table: &SymbolTable,
    first: Seq<Vec<bool>>,
    m: Seq<Vec<bool>>,
    i: int,
    upto: int,
) -> bool {
    forall|p: int|
        0 <= p < upto ==> #[trigger] place_closed(
            table,
            first,
            m,
            i,
            p,
            (table.rights@[i]@.len() + 1) as int,
        )
}

/// The first `upto` rules are closed.
pub open spec fn all_closed(table: &SymbolTable, first: Seq<Vec<bool>>, m: Seq<Vec<bool>>, upto: int) -> bool {
    forall|i: int|
        0 <= i < upto ==> #[trigger] places_closed(
            table,
            first,
            m,
            i,
            table.rights@[i]@.len() as int,
        )
}

/// What follows a nonterminal through sound marks is a FOLLOW fact.
proof fn lemma_follows_sound(
    table: &SymbolTable,
    rules: Seq<RuleView>,
    start: Symbol,
    first: Seq<Vec<bool>>,
    m: Seq<Vec<bool>>,
    i: int,
    p: int,
    j: int,
    t: int,
)
    requires
        table.wf(rules),
        first_exact(table, rules, first),
        square(table, m),
        follow_sound(table, rules, start, m),
        0 <= i < rules.len(),
        0 <= p < rules[i].right.len(),
        0 <= t < table.size(),
        !table.kinds@[table.rights@[i]@[p] as int],
        follows(table, first, m, i, p, j, t),
    ensures
        follow_facts(rules, start).contains(
            (table.names@[table.rights@[i]@[p] as int], table.names@[t]),
        ),
{
    assert(table.left_ok(rules, i));
    assert(table.right_ok(rules, i));
    let row = table.rights@[i]@;
    let right = rules[i].right;
    let facts = first_facts(rules);
    assert forall|q: int| p + 1 <= q < j implies facts.contains((#[trigger] right[q], EPSILON@)) by {
        assert(cell(first, row[q] as int, table.eps as int));
    }
    assert(eps_between(right, facts, p + 1, j));
    if j < row.len() {
        assert(cell(first, row[j] as int, t));
        assert(table.names@[t] != EPSILON@);
    } else {
        assert(cell(m, table.lefts@[i] as int, t));
    }
    assert(follow_from_rule(rules, follow_facts(rules, start), i, p, j, table.names@[t]));
    assert(table.names@[row[p] as int] == right[p]);
    lemma_follow_intro(rules, start, i, p, j, table.names@[t]);
}

/// Closed marks that hold end-of-input for the start symbol hold every
/// FOLLOW fact over the table.
proof fn lemma_follow_complete(
    table: &SymbolTable,
    rules: Seq<RuleView>,
    start: Symbol,
    origin: int,
    first: Seq<Vec<bool>>,
    m: Seq<Vec<bool>>,
)
    requires
        table.wf(rules),
        first_exact(table, rules, first),
        square(table, m),
        0 <= origin < table.size(),
        table.names@[origin] == start,
        cell(m, origin, table.eof as int),
        all_closed(table, first, m, rules.len() as int),
    ensures
        forall|x: int, t: int|
            0 <= x < table.size() && 0 <= t < table.size() && follow_facts(rules, start).contains(
                (table.names@[x], table.names@[t]),
            ) ==> #[trigger] cell(m, x, t),
{
    let step = follow_step(rules, start);
    let n = table.size() as int;
    let s = Set::new(
        |f: Fact|
            forall|x: int, t: int|
                0 <= x < n && 0 <= t < n && table.names@[x] == f.0 && table.names@[t] == f.1
                    ==> #[trigger] cell(m, x, t),
    );
    lemma_follow_monotone(rules, start);
    let next = step(s);
    assert forall|f: Fact| next.contains(f) implies s.contains(f) by {
        assert forall|x: int, t: int|
            0 <= x < n && 0 <= t < n && table.names@[x] == f.0 && table.names@[t]
                == f.1 implies #[trigger] cell(m, x, t) by {
            if f.0 == start && f.1 == EOF@ {
                assert(x == origin && t == table.eof);
            } else {
                let (i, p, j) = choose|i: int, p: int, j: int|
                    0 <= i < rules.len() && 0 <= p < rules[i].right.len() && (
                    #[trigger] rules[i]).right[p] == f.0 && #[trigger] follow_from_rule(
                        rules,
                        s,
                        i,
                        p,
                        j,
                        f.1,
                    );
                assert(table.left_ok(rules, i));
                assert(table.right_ok(rules, i));
                let row = table.rights@[i]@;
                let right = rules[i].right;
                assert(table.names@[row[p] as int] == right[p]);
                assert(row[p] == x);
                assert forall|q: int| p + 1 <= q < j implies cell(
                    first,
                    (#[trigger] row[q]) as int,
                    table.eps as int,
                ) by {
                    assert(first_facts(rules).contains((right[q], EPSILON@)));
                    assert(table.names@[row[q] as int] == right[q]);
                }
                assert(eps_span(table, first, i, p + 1, j));
                if j < right.len() {
                    assert(table.names@[row[j] as int] == right[j]);
                    assert(cell(first, row[j] as int, t));
                    assert(t != table.eps);
                } else {
                    assert(s.contains((rules[i].left, f.1)));
                    assert(cell(m, table.lefts@[i] as int, t));
                }
                assert(follows(table, first, m, i, p, j, t));
                assert(places_closed(table, first, m, i, row.len() as int));
                assert(place_closed(table, first, m, i, p, (row.len() + 1) as int));
            }
        }
    }
    lemma_lfp_least(step, s);
    assert forall|x: int, t: int|
        0 <= x < table.size() && 0 <= t < table.size() && follow_facts(rules, start).contains(
            (table.names@[x], table.names@[t]),
        ) implies #[trigger] cell(m, x, t) by {
        assert(s.contains((table.names@[x], table.names@[t])));
    }
}

/// Every member of the FOLLOW set of a symbol of the table is a symbol of
/// the table.
pub proof fn lemma_follow_within_table(table: &SymbolTable, rules: Seq<RuleView>, start: Symbol)
    requires
        table.wf(rules),
    ensures
        forall|f: Fact|
            #![trigger follow_facts(rules, start).contains(f)]
            follow_facts(rules, start).contains(f) && table.names@.contains(f.0)
                ==> table.names@.contains(f.1),
{
    let step = follow_step(rules, start);
    let s = Set::new(|f: Fact| table.names@.contains(f.0) ==> table.names@.contains(f.1));
    lemma_follow_monotone(rules, start);
    lemma_first_within_table(table, rules);
    let next = step(s);
    assert forall|f: Fact| next.contains(f) implies s.contains(f) by {
        if table.names@.contains(f.0) {
            if f.0 == start && f.1 == EOF@ {
                assert(table.names@[table.eof as int] == f.1);
            } else {
                let (i, p, j) = choose|i: int, p: int, j: int|
                    0 <= i < rules.len() && 0 <= p < rules[i].right.len() && (
                    #[trigger] rules[i]).right[p] == f.0 && #[trigger] follow_from_rule(
                        rules,
                        s,
                        i,
                        p,
                        j,
                        f.1,
                    );
                assert(table.left_ok(rules, i));
                assert(table.right_ok(rules, i));
                let row = table.rights@[i]@;
                let right = rules[i].right;
                if j < right.len() {
                    assert(table.names@[row[j] as int] == right[j]);
                    assert(first_facts(rules).contains((right[j], f.1)));
                } else {
                    assert(table.names@[table.lefts@[i] as int] == rules[i].left);
                    assert(s.contains((rules[i].left, f.1)));
                }
            }
        }
    }
    lemma_lfp_least(step, s);
    assert forall|f: Fact|
        #![trigger follow_facts(rules, start).contains(f)]
        follow_facts(rules, start).contains(f) && table.names@.contains(
            f.0,
        ) implies table.names@.contains(f.1) by {
        assert(s.contains(f));
    }
}

/// Adds to row `dst` of `m` every mark of `src` other than that of `skip`.
fn merge_from(
    m: &mut Vec<Vec<bool>>,
    dst: usize,
    src: &Vec<bool>,
    skip: usize,
    Ghost(table): Ghost<&SymbolTable>,
) -> (changed: bool)
    requires
        square(table, old(m)@),
        dst < table.size(),
        src@.len() == table.size(),
    ensures
        square(table, final(m)@),
        forall|a: int, b: int|
            0 <= a < table.size() && 0 <= b < table.size() ==> #[trigger] cell(final(m)@, a, b) == (
            cell(old(m)@, a, b) || (a == dst && b != skip && src@[b])),
        !changed ==> final(m)@ == old(m)@,
        changed ==> grid_unset(grid(final(m)@)) < grid_unset(grid(old(m)@)),
{
    let n = m.len();
    let mut changed = false;
    let mut t: usize = 0;
    while t < n
        invariant
            n == table.size(),
            t <= n,
            dst < n,
            src@.len() == n,
            square(table, m@),
            forall|a: int, b: int|
                0 <= a < n && 0 <= b < n ==> #[trigger] cell(m@, a, b) == (cell(old(m)@, a, b) || (a
                    == dst && b != skip && b < t && src@[b])),
            !changed ==> m@ == old(m)@,
            changed ==> grid_unset(grid(m@)) < grid_unset(grid(old(m)@)),
            grid_unset(grid(m@)) <= grid_unset(grid(old(m)@)),
        decreases n - t,
    {
        assert(cell(m@, dst as int, t as int) == m@[dst as int]@[t as int]);
        if t != skip && src[t] && !m[dst][t] {
            mark(m, dst, t);
            changed = true;
        }
        t += 1;
    }
    changed
}

/// Adds to row `dst` of `m` every mark of its row `src`.
fn inherit_row(m: &mut Vec<Vec<bool>>, dst: usize, src: usize, Ghost(table): Ghost<&SymbolTable>) -> (changed: bool)
    requires
        square(table, old(m)@),
        dst < table.size(),
        src < table.size(),
    ensures
        square(table, final(m)@),
        forall|a: int, b: int|
            0 <= a < table.size() && 0 <= b < table.size() ==> #[trigger] cell(final(m)@, a, b) == (
            cell(old(m)@, a, b) || (a == dst && cell(old(m)@, src as int, b))),
        !changed ==> final(m)@ == old(m)@,
        changed ==> grid_unset(grid(final(m)@)) < grid_unset(grid(old(m)@)),
{
    let n = m.len();
    let mut changed = false;
    let mut t: usize = 0;
    while t < n
        invariant
            n == table.size(),
            t <= n,
            dst < n,
            src < n,
            square(table, m@),
            forall|a: int, b: int|
                0 <= a < n && 0 <= b < n ==> #[trigger] cell(m@, a, b) == (cell(old(m)@, a, b) || (a
                    == dst && b < t && cell(old(m)@, src as int, b))),
            !changed ==> m@ == old(m)@,
            changed ==> grid_unset(grid(m@)) < grid_unset(grid(old(m)@)),
            grid_unset(grid(m@)) <= grid_unset(grid(old(m)@)),
        decreases n - t,
    {
        assert(cell(m@, src as int, t as int) == m@[src as int]@[t as int]);
        assert(cell(m@, dst as int, t as int) == m@[dst as int]@[t as int]);
        if m[src][t] && !m[dst][t] {
            mark(m, dst, t);
            changed = true;
        }
        t += 1;
    }
    changed
}

/// Walks what comes after position `p` of rule `i` and adds to the row of
/// the nonterminal at `p` what follows it.
fn follow_of_place(
    table: &SymbolTable,
    first: &Vec<Vec<bool>>,
    follow: &mut Vec<Vec<bool>>,
    i: usize,
    p: usize,
    Ghost(rules): Ghost<Seq<RuleView>>,
    Ghost(start): Ghost<Symbol>,
) -> (changed: bool)
    requires
        table.wf(rules),
        first_exact(table, rules, first@),
        i < rules.len(),
        p < rules[i as int].right.len(),
        !table.kinds@[table.rights@[i as int]@[p as int] as int],
        square(table, old(follow)@),
        follow_sound(table, rules, start, old(follow)@),
    ensures
        square(table, final(follow)@),
        follow_sound(table, rules, start, final(follow)@),
        forall|a: int, b: int|
            0 <= a < table.size() && 0 <= b < table.size() && #[trigger] cell(old(follow)@, a, b)
                ==> cell(final(follow)@, a, b),
        !changed ==> final(follow)@ == old(follow)@ && place_closed(
            table,
            first@,
            final(follow)@,
            i as int,
            p as int,
            (table.rights@[i as int]@.len() + 1) as int,
        ),
        changed ==> grid_unset(grid(final(follow)@)) < grid_unset(grid(old(follow)@)),
{
    assert(table.left_ok(rules, i as int));
    assert(table.right_ok(rules, i as int));
    let left = table.lefts[i];
    let row = &table.rights[i];
    assert(p < row.len());
    let target = row[p];
    let n = table.names.len();
    let mut changed = false;
    let mut go = true;
    let mut j: usize = p + 1;
    while go && j < row.len()
        invariant
            table.wf(rules),
            first_exact(table, rules, first@),
            n == table.size(),
            i < rules.len(),
            p < rules[i as int].right.len(),
            left == table.lefts@[i as int],
            left < n,
            row@ == table.rights@[i as int]@,
            target == row@[p as int],
            target < n,
            !table.kinds@[target as int],
            forall|q: int| 0 <= q < row@.len() ==> (#[trigger] row@[q]) < n,
            p < j <= row.len(),
            square(table, follow@),
            follow_sound(table, rules, start, follow@),
            forall|a: int, b: int|
                0 <= a < n && 0 <= b < n && #[trigger] cell(old(follow)@, a, b) ==> cell(
                    follow@,
                    a,
                    b,
                ),
            eps_span(table, first@, i as int, p + 1, j as int),
            !changed ==> follow@ == old(follow)@ && place_closed(
                table,
                first@,
                follow@,
                i as int,
                p as int,
                j as int,
            ),
            !changed && !go ==> !cell(first@, row@[j as int] as int, table.eps as int)
                && place_closed(table, first@, follow@, i as int, p as int, j + 1),
            changed ==> grid_unset(grid(follow@)) < grid_unset(grid(old(follow)@)),
            grid_unset(grid(follow@)) <= grid_unset(grid(old(follow)@)),
        decreases
            row.len() - j + if go {
                1nat
            } else {
                0nat
            },
    {
        let src = row[j];
        let ghost pre = follow@;
        assert(forall|b: int| 0 <= b < n ==> cell(first@, src as int, b) == first@[src as int]@[b]);
        let grew = merge_from(follow, target, &first[src], table.eps, Ghost(table));
        proof {
            assert forall|a: int, b: int|
                0 <= a < n && 0 <= b < n && #[trigger] cell(follow@, a, b) implies follow_facts(
                rules,
                start,
            ).contains((table.names@[a], table.names@[b])) by {
                if !cell(pre, a, b) {
                    assert(cell(first@, src as int, b));
                    assert(follows(table, first@, pre, i as int, p as int, j as int, b));
                    lemma_follows_sound(
                        table,
                        rules,
                        start,
                        first@,
                        pre,
                        i as int,
                        p as int,
                        j as int,
                        b,
                    );
                }
            }
            assert forall|a: int, b: int|
                0 <= a < n && 0 <= b < n && #[trigger] cell(old(follow)@, a, b) implies cell(
                follow@,
                a,
                b,
            ) by {
                assert(cell(pre, a, b));
            }
        }
        if grew {
            changed = true;
        }
        assert(cell(first@, src as int, table.eps as int) == first@[src as int]@[table.eps as int]);
        proof {
            if !changed {
                assert forall|jj: int, t: int|
                    p < jj < j + 1 && 0 <= t < n && #[trigger] follows(
                        table,
                        first@,
                        follow@,
                        i as int,
                        p as int,
                        jj,
                        t,
                    ) implies cell(follow@, target as int, t) by {
                    if jj < j {
                        assert(place_closed(table, first@, follow@, i as int, p as int, j as int));
                    } else {
                        assert(cell(first@, src as int, t));
                    }
                }
            }
        }
        if first[src][table.eps] {
            j += 1;
        } else {
            go = false;
        }
    }
    if go {
        let ghost pre = follow@;
        let grew = inherit_row(follow, target, left, Ghost(table));
        proof {
            assert forall|a: int, b: int|
                0 <= a < n && 0 <= b < n && #[trigger] cell(follow@, a, b) implies follow_facts(
                rules,
                start,
            ).contains((table.names@[a], table.names@[b])) by {
                if !cell(pre, a, b) {
                    assert(follows(table, first@, pre, i as int, p as int, j as int, b));
                    lemma_follows_sound(
                        table,
                        rules,
                        start,
                        first@,
                        pre,
                        i as int,
                        p as int,
                        j as int,
                        b,
                    );
                }
            }
            assert forall|a: int, b: int|
                0 <= a < n && 0 <= b < n && #[trigger] cell(old(follow)@, a, b) implies cell(
                follow@,
                a,
                b,
            ) by {
                assert(cell(pre, a, b));
            }
        }
        if grew {
            changed = true;
        }
        proof {
            if !changed {
                assert forall|jj: int, t: int|
                    p < jj < row@.len() + 1 && 0 <= t < n && #[trigger] follows(
                        table,
                        first@,
                        follow@,
                        i as int,
                        p as int,
                        jj,
                        t,
                    ) implies cell(follow@, target as int, t) by {
                    if jj < j {
                        assert(place_closed(table, first@, follow@, i as int, p as int, j as int));
                    } else {
                        assert(cell(pre, left as int, t));
                    }
                }
            }
        }
    } else {
        proof {
            if !changed {
                assert forall|jj: int, t: int|
                    p < jj < row@.len() + 1 && 0 <= t < n && #[trigger] follows(
                        table,
                        first@,
                        follow@,
                        i as int,
                        p as int,
                        jj,
                        t,
                    ) implies cell(follow@, target as int, t) by {
                    if jj <= j {
                        assert(place_closed(table, first@, follow@, i as int, p as int, j + 1));
                    } else {
                        assert(eps_span(table, first@, i as int, p + 1, jj));
                        assert(cell(
                            first@,
                            table.rights@[i as int]@[j as int] as int,
                            table.eps as int,
                        ));
                    }
                }
            }
        }
    }
    changed
}

/// The FOLLOW sets of all symbols of the table, as marks: the mark of `t`
/// in the row of `b` is set exactly when `t` is in FOLLOW(`b`).
pub(crate) fn build_follow_sets(
    table: &SymbolTable,
    first: &Vec<Vec<bool>>,
    origin: usize,
    Ghost(rules): Ghost<Seq<RuleView>>,
    Ghost(start): Ghost<Symbol>,
) -> (follow: Vec<Vec<bool>>)
    requires
        table.wf(rules),
        first_exact(table, rules, first@),
        origin < table.size(),
        table.names@[origin as int] == start,
        !is_terminal(start),
    ensures
        square(table, follow@),
        forall|x: int, t: int|
            0 <= x < table.size() && 0 <= t < table.size() ==> #[trigger] cell(follow@, x, t)
                == follow_facts(rules, start).contains((table.names@[x], table.names@[t])),
{
    let n = table.names.len();
    let mut follow = unset_grid(n, n);
    mark(&mut follow, origin, table.eof);
    proof {
        crate::grammar::model::lemma_follow_start(rules, start);
        assert forall|a: int, b: int|
            0 <= a < n && 0 <= b < n && #[trigger] cell(follow@, a, b) implies follow_facts(
            rules,
            start,
        ).contains((table.names@[a], table.names@[b])) by {
            assert(a == origin && b == table.eof);
            assert(crate::grammar::model::follow_set(rules, start, start).contains(EOF@));
        }
    }
    let mut changed = true;
    while changed
        invariant
            table.wf(rules),
            first_exact(table, rules, first@),
            n == table.size(),
            origin < n,
            square(table, follow@),
            follow_sound(table, rules, start, follow@),
            cell(follow@, origin as int, table.eof as int),
            !changed ==> all_closed(table, first@, follow@, rules.len() as int),
        decreases
            grid_unset(grid(follow@)) + if changed {
                1nat
            } else {
                0nat
            },
    {
        changed = false;
        let ghost before = follow@;
        let mut i: usize = 0;
        while i < table.rights.len()
            invariant
                table.wf(rules),
                first_exact(table, rules, first@),
                n == table.size(),
                origin < n,
                i <= rules.len(),
                square(table, follow@),
                follow_sound(table, rules, start, follow@),
                cell(follow@, origin as int, table.eof as int),
                !changed ==> follow@ == before && all_closed(table, first@, follow@, i as int),
                changed ==> grid_unset(grid(follow@)) < grid_unset(grid(before)),
            decreases rules.len() - i,
        {
            assert(table.right_ok(rules, i as int));
            let len = table.rights[i].len();
            let mut p: usize = 0;
            while p < len
                invariant
                    table.wf(rules),
                    first_exact(table, rules, first@),
                    n == table.size(),
                    origin < n,
                    i < rules.len(),
                    len == table.rights@[i as int]@.len() == rules[i as int].right.len(),
                    p <= len,
                    square(table, follow@),
                    follow_sound(table, rules, start, follow@),
                    cell(follow@, origin as int, table.eof as int),
                    !changed ==> follow@ == before && all_closed(table, first@, follow@, i as int)
                        && places_closed(table, first@, follow@, i as int, p as int),
                    changed ==> grid_unset(grid(follow@)) < grid_unset(grid(before)),
                decreases len - p,
            {
                assert(table.right_ok(rules, i as int));
                let target = table.rights[i][p];
                if !table.kinds[target] {
                    let grew = follow_of_place(
                        table,
                        first,
                        &mut follow,
                        i,
                        p,
                        Ghost(rules),
                        Ghost(start),
                    );
                    if grew {
                        changed = true;
                    }
                } else {
                    assert(place_closed(
                        table,
                        first@,
                        follow@,
                        i as int,
                        p as int,
                        (len + 1) as int,
                    ));
                }
                p += 1;
            }
            i += 1;
        }
    }
    proof {
        lemma_follow_complete(table, rules, start, origin as int, first@, follow@);
    }
    follow
}

} // verus!
