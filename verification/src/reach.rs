//! Reachability in a directed graph whose nodes are the cells of a grid:
//! the set of nodes reached from given roots, computed with a worklist.

use vstd::prelude::*;
use crate::fixpoint::{
    cell, grid, grid_unset, lemma_lfp_derives, lemma_lfp_least, level, lfp, mark, monotone,
    unset_grid,
};

verus! {

/// One round of reaching: the roots, and what an edge reaches from `s`.
pub open spec fn reach_step<N>(roots: Set<N>, edge: spec_fn(N, N) -> bool) -> spec_fn(Set<N>) -> Set<
    N,
> {
    |s: Set<N>| Set::new(|n: N| roots.contains(n) || exists|m: N| s.contains(m) && edge(m, n))
}

/// The nodes reached from `roots` along `edge`: the least set that holds
/// the roots and, with a node, every node that an edge leads to from it.
pub open spec fn reach<N>(roots: Set<N>, edge: spec_fn(N, N) -> bool) -> Set<N> {
    lfp(reach_step(roots, edge))
}

/// The round of reaching is monotone.
pub proof fn lemma_reach_monotone<N>(roots: Set<N>, edge: spec_fn(N, N) -> bool)
    ensures
        monotone(reach_step(roots, edge)),
{
    let step = reach_step(roots, edge);
    assert forall|a: Set<N>, b: Set<N>| a.subset_of(b) implies #[trigger] step(a).subset_of(
        #[trigger] step(b),
    ) by {
        let sa = step(a);
        let sb = step(b);
        assert forall|n: N| sa.contains(n) implies sb.contains(n) by {
            if !roots.contains(n) {
                let m = choose|m: N| a.contains(m) && edge(m, n);
                assert(b.contains(m) && edge(m, n));
            }
        }
    }
}

/// Every root is reached.
pub proof fn lemma_reach_root<N>(roots: Set<N>, edge: spec_fn(N, N) -> bool, n: N)
    requires
        roots.contains(n),
    ensures
        reach(roots, edge).contains(n),
{
    let step = reach_step(roots, edge);
    assert(step(Set::<N>::empty()).contains(n));
    assert(level(step, 1).contains(n));
}

/// What an edge leads to from a reached node is reached.
pub proof fn lemma_reach_edge<N>(roots: Set<N>, edge: spec_fn(N, N) -> bool, m: N, n: N)
    requires
        reach(roots, edge).contains(m),
        edge(m, n),
    ensures
        reach(roots, edge).contains(n),
{
    let step = reach_step(roots, edge);
    lemma_reach_monotone(roots, edge);
    let premises = seq![m];
    assert(premises[0] == m);
    let ps = premises.to_set();
    assert(ps.contains(m));
    assert(step(ps).contains(n));
    lemma_lfp_derives(step, premises, n);
}

/// A set that holds the roots and is closed under the edges holds every
/// reached node.
pub proof fn lemma_reach_least<N>(roots: Set<N>, edge: spec_fn(N, N) -> bool, s: Set<N>)
    requires
        roots.subset_of(s),
        forall|m: N, n: N| s.contains(m) && #[trigger] edge(m, n) ==> s.contains(n),
    ensures
        reach(roots, edge).subset_of(s),
{
    let step = reach_step(roots, edge);
    lemma_reach_monotone(roots, edge);
    let next = step(s);
    assert forall|n: N| next.contains(n) implies s.contains(n) by {
        if !roots.contains(n) {
            let m = choose|m: N| s.contains(m) && edge(m, n);
            assert(edge(m, n));
        }
    }
    lemma_lfp_least(step, s);
}

/// What is reached from nodes that are reached from `b` is reached from
/// `b`.
pub proof fn lemma_reach_within<N>(a: Set<N>, b: Set<N>, edge: spec_fn(N, N) -> bool)
    requires
        a.subset_of(reach(b, edge)),
    ensures
        reach(a, edge).subset_of(reach(b, edge)),
{
    let s = reach(b, edge);
    assert forall|m: N, n: N| s.contains(m) && #[trigger] edge(m, n) implies s.contains(n) by {
        lemma_reach_edge(b, edge, m, n);
    }
    lemma_reach_least(a, edge, s);
}

/// A graph over the cells of a grid, which can list the successors of a
/// cell.
pub trait Explorer<N> {
    /// What the graph needs to hold to be explored.
    spec fn ok(&self) -> bool;

    /// The number of rows of the grid.
    spec fn rows(&self) -> nat;

    /// The number of columns of the grid.
    spec fn cols(&self) -> nat;

    /// The node that a cell stands for.
    spec fn node(&self, r: int, c: int) -> N;

    /// Whether an edge leads from `a` to `b`.
    spec fn edge(&self, a: N, b: N) -> bool;

    /// Two cells stand for the same node only if they are the same cell,
    /// and an edge from the node of a cell leads to the node of a cell.
    proof fn lemma_cells(&self)
        requires
            self.ok(),
        ensures
            forall|r1: int, c1: int, r2: int, c2: int|
                0 <= r1 < self.rows() && 0 <= c1 < self.cols() && 0 <= r2 < self.rows() && 0 <= c2
                    < self.cols() && #[trigger] self.node(r1, c1) == #[trigger] self.node(r2, c2)
                    ==> r1 == r2 && c1 == c2,
            forall|r: int, c: int, n: N|
                0 <= r < self.rows() && 0 <= c < self.cols() && #[trigger] self.edge(
                    self.node(r, c),
                    n,
                ) ==> exists|r2: int, c2: int|
                    0 <= r2 < self.rows() && 0 <= c2 < self.cols() && n == #[trigger] self.node(
                        r2,
                        c2,
                    ),
    ;

    /// The cells that an edge leads to from cell `(r, c)`.
    fn successors(&self, r: usize, c: usize) -> (next: Vec<(usize, usize)>)
        requires
            self.ok(),
            r < self.rows(),
            c < self.cols(),
        ensures
            forall|k: int|
                0 <= k < next@.len() ==> (#[trigger] next@[k]).0 < self.rows() && next@[k].1
                    < self.cols() && self.edge(
                    self.node(r as int, c as int),
                    self.node(next@[k].0 as int, next@[k].1 as int),
                ),
            forall|r2: int, c2: int|
                0 <= r2 < self.rows() && 0 <= c2 < self.cols() && self.edge(
                    self.node(r as int, c as int),
                    #[trigger] self.node(r2, c2),
                ) ==> next@.contains((r2 as usize, c2 as usize)),
    ;
}

/// The edge relation of a graph.
pub open spec fn edges_of<N, G: Explorer<N>>(g: &G) -> spec_fn(N, N) -> bool {
    |a: N, b: N| g.edge(a, b)
}

/// The nodes of a list of cells.
pub open spec fn nodes_of<N, G: Explorer<N>>(g: &G, cells: Seq<(usize, usize)>) -> Set<N> {
    Set::new(
        |n: N|
            exists|k: int|
                0 <= k < cells.len() && n == g.node(
                    (#[trigger] cells[k]).0 as int,
                    cells[k].1 as int,
                ),
    )
}

/// Every reached node is the node of a cell.
pub proof fn lemma_reach_within_grid<N, G: Explorer<N>>(g: &G, roots: Seq<(usize, usize)>)
    requires
        g.ok(),
        forall|k: int|
            0 <= k < roots.len() ==> (#[trigger] roots[k]).0 < g.rows() && roots[k].1 < g.cols(),
    ensures
        forall|n: N|
            #![trigger reach(nodes_of(g, roots), edges_of(g)).contains(n)]
            reach(nodes_of(g, roots), edges_of(g)).contains(n) ==> exists|r: int, c: int|
                0 <= r < g.rows() && 0 <= c < g.cols() && n == #[trigger] g.node(r, c),
{
    let start = nodes_of(g, roots);
    let edge = edges_of(g);
    let s = Set::new(
        |n: N| exists|r: int, c: int| 0 <= r < g.rows() && 0 <= c < g.cols() && n == #[trigger] g.node(r, c),
    );
    g.lemma_cells();
    assert forall|n: N| start.contains(n) implies s.contains(n) by {
        let k = choose|k: int|
            0 <= k < roots.len() && n == g.node((#[trigger] roots[k]).0 as int, roots[k].1 as int);
        assert(n == g.node(roots[k].0 as int, roots[k].1 as int));
    }
    assert forall|m: N, n: N| s.contains(m) && #[trigger] edge(m, n) implies s.contains(n) by {
        let (r, c) = choose|r: int, c: int|
            0 <= r < g.rows() && 0 <= c < g.cols() && m == #[trigger] g.node(r, c);
        assert(g.edge(g.node(r, c), n));
    }
    lemma_reach_least(start, edge, s);
    assert forall|n: N|
        #![trigger reach(start, edge).contains(n)]
        reach(start, edge).contains(n) implies exists|r: int, c: int|
        0 <= r < g.rows() && 0 <= c < g.cols() && n == #[trigger] g.node(r, c) by {
        assert(s.contains(n));
    }
}

/// Every mark stands for a reached node.
pub open spec fn marks_sound<N, G: Explorer<N>>(
    g: &G,
    roots: Seq<(usize, usize)>,
    marks: Seq<Vec<bool>>,
) -> bool {
    forall|r: int, c: int|
        0 <= r < g.rows() && 0 <= c < g.cols() && #[trigger] cell(marks, r, c) ==> reach(
            nodes_of(g, roots),
            edges_of(g),
        ).contains(g.node(r, c))
}

/// The marks form a grid of the size of the graph.
pub open spec fn sized<N, G: Explorer<N>>(g: &G, marks: Seq<Vec<bool>>) -> bool {
    &&& marks.len() == g.rows()
    &&& forall|r: int| 0 <= r < marks.len() ==> (#[trigger] marks[r])@.len() == g.cols()
}

/// Every marked cell waits on the stack or is done.
pub open spec fn covered<N, G: Explorer<N>>(
    g: &G,
    marks: Seq<Vec<bool>>,
    stack: Seq<(usize, usize)>,
    done: Set<(int, int)>,
) -> bool {
    forall|r: int, c: int|
        0 <= r < g.rows() && 0 <= c < g.cols() && #[trigger] cell(marks, r, c) ==> done.contains(
            (r, c),
        ) || stack.contains((r as usize, c as usize))
}

/// Every successor of a cell that is done is marked.
pub open spec fn settled<N, G: Explorer<N>>(g: &G, marks: Seq<Vec<bool>>, done: Set<(int, int)>) -> bool {
    forall|r: int, c: int, r2: int, c2: int|
        #![trigger done.contains((r, c)), g.node(r2, c2)]
        done.contains((r, c)) && 0 <= r2 < g.rows() && 0 <= c2 < g.cols() && g.edge(
            g.node(r, c),
            g.node(r2, c2),
        ) ==> cell(marks, r2, c2)
}

/// Every cell on the stack lies in the grid and is marked.
pub open spec fn stacked<N, G: Explorer<N>>(g: &G, marks: Seq<Vec<bool>>, stack: Seq<(usize, usize)>) -> bool {
    forall|k: int|
        0 <= k < stack.len() ==> (#[trigger] stack[k]).0 < g.rows() && stack[k].1 < g.cols()
            && cell(marks, stack[k].0 as int, stack[k].1 as int)
}

/// The cells whose nodes are reached from the nodes of `roots`: the mark of
/// a cell is set exactly when its node is reached.
pub fn explore<N, G: Explorer<N>>(g: &G, rows: usize, cols: usize, roots: &Vec<(usize, usize)>) -> (marks: Vec<Vec<bool>>)
    requires
        g.ok(),
        rows == g.rows(),
        cols == g.cols(),
        forall|k: int| 0 <= k < roots@.len() ==> (#[trigger] roots@[k]).0 < rows && roots@[k].1 < cols,
    ensures
        sized(g, marks@),
        forall|r: int, c: int|
            0 <= r < rows && 0 <= c < cols ==> #[trigger] cell(marks@, r, c) == reach(
                nodes_of(g, roots@),
                edges_of(g),
            ).contains(g.node(r, c)),
{
    let ghost start = nodes_of(g, roots@);
    let ghost edge = edges_of(g);
    let mut marks = unset_grid(rows, cols);
    let mut stack: Vec<(usize, usize)> = Vec::new();
    let mut k: usize = 0;
    while k < roots.len()
        invariant
            g.ok(),
            rows == g.rows(),
            cols == g.cols(),
            start == nodes_of(g, roots@),
            edge == edges_of(g),
            forall|j: int| 0 <= j < roots@.len() ==> (#[trigger] roots@[j]).0 < rows && roots@[j].1 < cols,
            k <= roots@.len(),
            sized(g, marks@),
            marks_sound(g, roots@, marks@),
            stacked(g, marks@, stack@),
            covered(g, marks@, stack@, Set::empty()),
            forall|j: int| 0 <= j < k ==> cell(marks@, (#[trigger] roots@[j]).0 as int, roots@[j].1 as int),
        decreases roots@.len() - k,
    {
        let (r, c) = roots[k];
        let ghost before = marks@;
        let ghost waiting = stack@;
        assert(cell(marks@, r as int, c as int) == marks@[r as int]@[c as int]);
        if !marks[r][c] {
            mark(&mut marks, r, c);
            stack.push((r, c));
            proof {
                assert(start.contains(g.node(r as int, c as int)));
                lemma_reach_root(start, edge, g.node(r as int, c as int));
                assert forall|j: int| 0 <= j < stack@.len() implies (#[trigger] stack@[j]).0
                    < g.rows() && stack@[j].1 < g.cols() && cell(
                    marks@,
                    stack@[j].0 as int,
                    stack@[j].1 as int,
                ) by {
                    if j < waiting.len() {
                        assert(stack@[j] == waiting[j]);
                        assert(cell(before, waiting[j].0 as int, waiting[j].1 as int));
                    }
                }
                assert forall|a: int, b: int|
                    0 <= a < g.rows() && 0 <= b < g.cols() && #[trigger] cell(
                        marks@,
                        a,
                        b,
                    ) implies stack@.contains((a as usize, b as usize)) by {
                    if cell(before, a, b) {
                        let j = choose|j: int| 0 <= j < waiting.len() && waiting[j] == (a as usize, b as usize);
                        assert(stack@[j] == waiting[j]);
                    } else {
                        assert(stack@[waiting.len() as int] == (r, c));
                    }
                }
            }
        }
        k += 1;
    }
    let ghost mut done: Set<(int, int)> = Set::empty();
    while stack.len() > 0
        invariant
            g.ok(),
            rows == g.rows(),
            cols == g.cols(),
            start == nodes_of(g, roots@),
            edge == edges_of(g),
            sized(g, marks@),
            marks_sound(g, roots@, marks@),
            stacked(g, marks@, stack@),
            covered(g, marks@, stack@, done),
            settled(g, marks@, done),
            forall|j: int| 0 <= j < roots@.len() ==> (#[trigger] roots@[j]).0 < rows && roots@[j].1 < cols,
            forall|j: int|
                0 <= j < roots@.len() ==> cell(marks@, (#[trigger] roots@[j]).0 as int, roots@[j].1 as int),
        decreases grid_unset(grid(marks@)), stack@.len(),
    {
        let ghost at_pop = marks@;
        let ghost full = stack@;
        let (r, c) = stack.pop().unwrap();
        assert((r, c) == full[full.len() - 1]);
        let ghost rest = stack@;
        proof {
            assert forall|a: int, b: int|
                0 <= a < g.rows() && 0 <= b < g.cols() && #[trigger] cell(
                    marks@,
                    a,
                    b,
                ) implies done.insert((r as int, c as int)).contains((a, b)) || rest.contains(
                (a as usize, b as usize),
            ) by {
                if !done.contains((a, b)) {
                    let k = choose|k: int| 0 <= k < full.len() && full[k] == (a as usize, b as usize);
                    if k < rest.len() {
                        assert(rest[k] == full[k]);
                    }
                }
            }
            assert forall|k: int| 0 <= k < rest.len() implies (#[trigger] rest[k]).0 < g.rows()
                && rest[k].1 < g.cols() && cell(marks@, rest[k].0 as int, rest[k].1 as int) by {
                assert(rest[k] == full[k]);
            }
        }
        let next = g.successors(r, c);
        let mut j: usize = 0;
        while j < next.len()
            invariant
                g.ok(),
                rows == g.rows(),
                cols == g.cols(),
                start == nodes_of(g, roots@),
                edge == edges_of(g),
                r < rows,
                c < cols,
                cell(marks@, r as int, c as int),
                j <= next@.len(),
                forall|k: int|
                    0 <= k < next@.len() ==> (#[trigger] next@[k]).0 < g.rows() && next@[k].1
                        < g.cols() && g.edge(
                        g.node(r as int, c as int),
                        g.node(next@[k].0 as int, next@[k].1 as int),
                    ),
                sized(g, marks@),
                marks_sound(g, roots@, marks@),
                stacked(g, marks@, stack@),
                covered(g, marks@, stack@, done.insert((r as int, c as int))),
                settled(g, marks@, done),
                forall|a: int, b: int|
                    0 <= a < rows && 0 <= b < cols && #[trigger] cell(at_pop, a, b) ==> cell(
                        marks@,
                        a,
                        b,
                    ),
                forall|k: int|
                    0 <= k < j ==> cell(marks@, (#[trigger] next@[k]).0 as int, next@[k].1 as int),
                grid_unset(grid(marks@)) <= grid_unset(grid(at_pop)),
                grid_unset(grid(marks@)) == grid_unset(grid(at_pop)) ==> stack@ == rest,
            decreases next@.len() - j,
        {
            let (r2, c2) = next[j];
            let ghost before = marks@;
            let ghost waiting = stack@;
            assert(cell(marks@, r2 as int, c2 as int) == marks@[r2 as int]@[c2 as int]);
            if !marks[r2][c2] {
                mark(&mut marks, r2, c2);
                stack.push((r2, c2));
                proof {
                    assert(edge(g.node(r as int, c as int), g.node(r2 as int, c2 as int)));
                    lemma_reach_edge(
                        start,
                        edge,
                        g.node(r as int, c as int),
                        g.node(r2 as int, c2 as int),
                    );
                    assert forall|k: int| 0 <= k < stack@.len() implies (#[trigger] stack@[k]).0
                        < g.rows() && stack@[k].1 < g.cols() && cell(
                        marks@,
                        stack@[k].0 as int,
                        stack@[k].1 as int,
                    ) by {
                        if k < waiting.len() {
                            assert(stack@[k] == waiting[k]);
                            assert(cell(before, waiting[k].0 as int, waiting[k].1 as int));
                        }
                    }
                    assert forall|a: int, b: int|
                        0 <= a < g.rows() && 0 <= b < g.cols() && #[trigger] cell(
                            marks@,
                            a,
                            b,
                        ) implies done.insert((r as int, c as int)).contains((a, b))
                        || stack@.contains((a as usize, b as usize)) by {
                        if cell(before, a, b) {
                            if !done.insert((r as int, c as int)).contains((a, b)) {
                                let k = choose|k: int|
                                    0 <= k < waiting.len() && waiting[k] == (a as usize, b as usize);
                                assert(stack@[k] == waiting[k]);
                            }
                        } else {
                            assert(stack@[waiting.len() as int] == (r2, c2));
                        }
                    }
                    assert forall|a: int, b: int, a2: int, b2: int|
                        #![trigger done.contains((a, b)), g.node(a2, b2)]
                        done.contains((a, b)) && 0 <= a2 < g.rows() && 0 <= b2 < g.cols() && g.edge(
                            g.node(a, b),
                            g.node(a2, b2),
                        ) implies cell(marks@, a2, b2) by {
                        assert(cell(before, a2, b2));
                    }
                    assert forall|k: int| 0 <= k < j + 1 implies cell(
                        marks@,
                        (#[trigger] next@[k]).0 as int,
                        next@[k].1 as int,
                    ) by {
                        if k < j {
                            assert(cell(before, next@[k].0 as int, next@[k].1 as int));
                        }
                    }
                }
            }
            j += 1;
        }
        proof {
            let d = (r as int, c as int);
            assert forall|a: int, b: int, a2: int, b2: int|
                #![trigger done.insert(d).contains((a, b)), g.node(a2, b2)]
                done.insert(d).contains((a, b)) && 0 <= a2 < g.rows() && 0 <= b2 < g.cols()
                    && g.edge(g.node(a, b), g.node(a2, b2)) implies cell(marks@, a2, b2) by {
                if (a, b) == d {
                    assert(next@.contains((a2 as usize, b2 as usize)));
                    let k = choose|k: int| 0 <= k < next@.len() && next@[k] == (a2 as usize, b2 as usize);
                    assert(cell(marks@, next@[k].0 as int, next@[k].1 as int));
                } else {
                    assert(done.contains((a, b)));
                }
            }
            done = done.insert(d);
            assert forall|j: int|
                0 <= j < roots@.len() implies cell(
                marks@,
                (#[trigger] roots@[j]).0 as int,
                roots@[j].1 as int,
            ) by {
                assert(cell(at_pop, roots@[j].0 as int, roots@[j].1 as int));
            }
        }
    }
    proof {
        g.lemma_cells();
        let s = Set::new(
            |n: N|
                exists|r: int, c: int|
                    0 <= r < rows && 0 <= c < cols && cell(marks@, r, c) && n == #[trigger] g.node(
                        r,
                        c,
                    ),
        );
        assert forall|n: N| start.contains(n) implies s.contains(n) by {
            let k = choose|k: int|
                0 <= k < roots@.len() && n == g.node(
                    (#[trigger] roots@[k]).0 as int,
                    roots@[k].1 as int,
                );
            assert(cell(marks@, roots@[k].0 as int, roots@[k].1 as int));
        }
        assert forall|m: N, n: N| s.contains(m) && #[trigger] edge(m, n) implies s.contains(n) by {
            let (r, c) = choose|r: int, c: int|
                0 <= r < rows && 0 <= c < cols && cell(marks@, r, c) && m == #[trigger] g.node(r, c);
            assert(g.edge(g.node(r, c), n));
            let (r2, c2) = choose|r2: int, c2: int|
                0 <= r2 < g.rows() && 0 <= c2 < g.cols() && n == #[trigger] g.node(r2, c2);
            assert(done.contains((r, c))) by {
                if stack@.contains((r as usize, c as usize)) {
                }
            }
            assert(cell(marks@, r2, c2));
        }
        lemma_reach_least(start, edge, s);
        assert forall|r: int, c: int| 0 <= r < rows && 0 <= c < cols implies #[trigger] cell(
            marks@,
            r,
            c,
        ) == reach(start, edge).contains(g.node(r, c)) by {
            if reach(start, edge).contains(g.node(r, c)) {
                assert(s.contains(g.node(r, c)));
                let (r1, c1) = choose|r1: int, c1: int|
                    0 <= r1 < rows && 0 <= c1 < cols && cell(marks@, r1, c1) && g.node(r, c)
                        == #[trigger] g.node(r1, c1);
            }
        }
    }
    marks
}

} // verus!
