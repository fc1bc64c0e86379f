//! Least fixed points of monotone operators on sets, as unions of finite
//! iterations, and counting of unset marks for termination arguments.

use vstd::prelude::*;

verus! {

/// The `k`-th iterate of `step`, starting from the empty set.
pub open spec fn level<F>(step: spec_fn(Set<F>) -> Set<F>, k: nat) -> Set<F>
    decreases k,
{
    if k == 0 {
        Set::empty()
    } else {
        step(level(step, (k - 1) as nat))
    }
}

/// The union of all finite iterates of `step`: its least fixed point when
/// `step` is monotone and every fact follows from finitely many premises.
pub open spec fn lfp<F>(step: spec_fn(Set<F>) -> Set<F>) -> Set<F> {
    Set::new(|f: F| exists|k: nat| level(step, k).contains(f))
}

/// A larger set gives a larger result.
pub open spec fn monotone<F>(step: spec_fn(Set<F>) -> Set<F>) -> bool {
    forall|a: Set<F>, b: Set<F>| a.subset_of(b) ==> #[trigger] step(a).subset_of(#[trigger] step(b))
}

/// Each iterate of a monotone operator lies inside the next.
pub proof fn lemma_level_step_mono<F>(step: spec_fn(Set<F>) -> Set<F>, k: nat)
    requires
        monotone(step),
    ensures
        level(step, k).subset_of(level(step, k + 1)),
    decreases k,
{
    if k > 0 {
        lemma_level_step_mono(step, (k - 1) as nat);
        assert(step(level(step, (k - 1) as nat)).subset_of(step(level(step, k))));
    }
}

/// The iterates of a monotone operator grow.
pub proof fn lemma_level_mono<F>(step: spec_fn(Set<F>) -> Set<F>, i: nat, j: nat)
    requires
        monotone(step),
        i <= j,
    ensures
        level(step, i).subset_of(level(step, j)),
    decreases j - i,
{
    if i < j {
        lemma_level_mono(step, i, (j - 1) as nat);
        lemma_level_step_mono(step, (j - 1) as nat);
    }
}

/// Every iterate lies inside the union.
pub proof fn lemma_level_in_lfp<F>(step: spec_fn(Set<F>) -> Set<F>, k: nat)
    ensures
        level(step, k).subset_of(lfp(step)),
{
}

/// The union lies inside every set that `step` maps into itself.
pub proof fn lemma_lfp_least<F>(step: spec_fn(Set<F>) -> Set<F>, s: Set<F>)
    requires
        monotone(step),
        step(s).subset_of(s),
    ensures
        lfp(step).subset_of(s),
{
    assert forall|f: F| lfp(step).contains(f) implies s.contains(f) by {
        let k = choose|k: nat| level(step, k).contains(f);
        lemma_level_below(step, s, k);
    }
}

/// Every iterate lies inside a set that `step` maps into itself.
proof fn lemma_level_below<F>(step: spec_fn(Set<F>) -> Set<F>, s: Set<F>, k: nat)
    requires
        monotone(step),
        step(s).subset_of(s),
    ensures
        level(step, k).subset_of(s),
    decreases k,
{
    if k > 0 {
        lemma_level_below(step, s, (k - 1) as nat);
        assert(step(level(step, (k - 1) as nat)).subset_of(step(s)));
    }
}

/// Finitely many members of the union all lie in one iterate.
pub proof fn lemma_finite_premises<F>(step: spec_fn(Set<F>) -> Set<F>, premises: Seq<F>) -> (k: nat)
    requires
        monotone(step),
        forall|i: int| 0 <= i < premises.len() ==> lfp(step).contains(premises[i]),
    ensures
        premises.to_set().subset_of(level(step, k)),
    decreases premises.len(),
{
    if premises.len() == 0 {
        assert(premises.to_set() =~= Set::empty());
        0
    } else {
        let rest = premises.drop_last();
        let k1 = lemma_finite_premises(step, rest);
        assert(lfp(step).contains(premises[premises.len() - 1]));
        let k2 = choose|k: nat| level(step, k).contains(premises.last());
        let k = if k1 <= k2 {
            k2
        } else {
            k1
        };
        lemma_level_mono(step, k1, k);
        lemma_level_mono(step, k2, k);
        assert forall|f: F| premises.to_set().contains(f) implies level(step, k).contains(f) by {
            let i = choose|i: int| 0 <= i < premises.len() && premises[i] == f;
            if i < rest.len() {
                assert(rest[i] == f);
                assert(rest.to_set().contains(f));
            }
        }
        k
    }
}

/// A fact that `step` derives from finitely many members of the union is
/// itself a member.
pub proof fn lemma_lfp_derives<F>(step: spec_fn(Set<F>) -> Set<F>, premises: Seq<F>, f: F)
    requires
        monotone(step),
        forall|i: int| 0 <= i < premises.len() ==> lfp(step).contains(premises[i]),
        step(premises.to_set()).contains(f),
    ensures
        lfp(step).contains(f),
{
    let k = lemma_finite_premises(step, premises);
    assert(step(premises.to_set()).subset_of(step(level(step, k))));
    assert(level(step, k + 1).contains(f));
}

/// Every member of the union is derived by `step` from the union.
pub proof fn lemma_lfp_unfold<F>(step: spec_fn(Set<F>) -> Set<F>, f: F)
    requires
        monotone(step),
        lfp(step).contains(f),
    ensures
        step(lfp(step)).contains(f),
{
    let k = choose|k: nat| level(step, k).contains(f);
    assert(k > 0);
    lemma_level_in_lfp(step, (k - 1) as nat);
    assert(step(level(step, (k - 1) as nat)).subset_of(step(lfp(step))));
}

/// The number of `false` entries of `s`.
pub open spec fn count_unset(s: Seq<bool>) -> nat
    decreases s.len(),
{
    if s.len() == 0 {
        0
    } else {
        count_unset(s.drop_last()) + if s.last() {
            0nat
        } else {
            1nat
        }
    }
}

/// Setting an unset entry leaves one unset entry less.
pub proof fn lemma_count_unset_set(s: Seq<bool>, i: int)
    requires
        0 <= i < s.len(),
        !s[i],
    ensures
        count_unset(s.update(i, true)) + 1 == count_unset(s),
    decreases s.len(),
{
    let t = s.update(i, true);
    if i == s.len() - 1 {
        assert(t.drop_last() =~= s.drop_last());
    } else {
        lemma_count_unset_set(s.drop_last(), i);
        assert(t.drop_last() =~= s.drop_last().update(i, true));
    }
}

/// The number of `false` entries of a matrix.
pub open spec fn grid_unset(m: Seq<Seq<bool>>) -> nat
    decreases m.len(),
{
    if m.len() == 0 {
        0
    } else {
        grid_unset(m.drop_last()) + count_unset(m.last())
    }
}

/// Setting an unset entry of a matrix leaves one unset entry less.
pub proof fn lemma_grid_unset_set(m: Seq<Seq<bool>>, r: int, c: int)
    requires
        0 <= r < m.len(),
        0 <= c < m[r].len(),
        !m[r][c],
    ensures
        grid_unset(m.update(r, m[r].update(c, true))) + 1 == grid_unset(m),
    decreases m.len(),
{
    let t = m.update(r, m[r].update(c, true));
    if r == m.len() - 1 {
        assert(t.drop_last() =~= m.drop_last());
        lemma_count_unset_set(m[r], c);
    } else {
        lemma_grid_unset_set(m.drop_last(), r, c);
        assert(t.drop_last() =~= m.drop_last().update(r, m[r].update(c, true)));
    }
}

/// A row of `n` unset marks.
pub fn unset_row(n: usize) -> (row: Vec<bool>)
    ensures
        row@.len() == n,
        forall|j: int| 0 <= j < n ==> !#[trigger] row@[j],
{
    let mut row: Vec<bool> = Vec::new();
    let mut j: usize = 0;
    while j < n
        invariant
            j <= n,
            row@.len() == j,
            forall|b: int| 0 <= b < j ==> !#[trigger] row@[b],
        decreases n - j,
    {
        row.push(false);
        j += 1;
    }
    row
}

/// A matrix of `rows` by `cols` unset marks.
pub fn unset_grid(rows: usize, cols: usize) -> (m: Vec<Vec<bool>>)
    ensures
        m@.len() == rows,
        forall|i: int| 0 <= i < rows ==> (#[trigger] m@[i])@.len() == cols,
        forall|i: int, j: int| 0 <= i < rows && 0 <= j < cols ==> !#[trigger] m@[i]@[j],
{
    let mut m: Vec<Vec<bool>> = Vec::new();
    let mut i: usize = 0;
    while i < rows
        invariant
            i <= rows,
            m@.len() == i,
            forall|a: int| 0 <= a < i ==> (#[trigger] m@[a])@.len() == cols,
            forall|a: int, b: int| 0 <= a < i && 0 <= b < cols ==> !#[trigger] m@[a]@[b],
        decreases rows - i,
    {
        let row = unset_row(cols);
        m.push(row);
        i += 1;
    }
    m
}

/// The marks of a matrix as a sequence of sequences.
pub open spec fn grid(m: Seq<Vec<bool>>) -> Seq<Seq<bool>> {
    m.map_values(|row: Vec<bool>| row@)
}

/// The mark in row `x` and column `t`.
pub open spec fn cell(m: Seq<Vec<bool>>, x: int, t: int) -> bool {
    m[x]@[t]
}

/// Sets the mark in row `x` and column `t`.
pub fn mark(m: &mut Vec<Vec<bool>>, x: usize, t: usize)
    requires
        x < old(m)@.len(),
        t < old(m)@[x as int]@.len(),
    ensures
        final(m)@.len() == old(m)@.len(),
        forall|a: int| 0 <= a < old(m)@.len() ==> (#[trigger] final(m)@[a])@.len() == old(m)@[a]@.len(),
        forall|a: int, b: int|
            0 <= a < old(m)@.len() && 0 <= b < old(m)@[a]@.len() ==> #[trigger] cell(final(m)@, a, b)
                == (cell(old(m)@, a, b) || (a == x && b == t)),
        !cell(old(m)@, x as int, t as int) ==> grid_unset(grid(final(m)@)) + 1 == grid_unset(
            grid(old(m)@),
        ),
        cell(old(m)@, x as int, t as int) ==> final(m)@ == old(m)@,
{
    if !m[x][t] {
        m[x][t] = true;
        proof {
            let before = grid(old(m)@);
            lemma_grid_unset_set(before, x as int, t as int);
            assert(grid(m@) =~= before.update(x as int, before[x as int].update(t as int, true)));
        }
    } else {
        assert(m@ == old(m)@);
    }
}

} // verus!
