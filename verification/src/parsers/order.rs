//! The order of the children in the trees that the engine builds: the
//! edges of a node follow the right-hand side of its rule, so a walk in the
//! order of the edges is a walk in the order of the positions.

use vstd::prelude::*;
use crate::grammar::Grammar;
use crate::grammar::derivation::{children_of, Derivation, Link, NodeView};
use crate::parsers::leaves::{downward, lemma_children_new, lemma_children_stay};
use crate::parsers::lr::{
    arity, begin, child_entry, parsed, reduced, run, step, Config, Input, Outcome,
};
use crate::parsers::table::ParseTableLR;
use crate::tokenizer::error::SyntaxError;

verus! {

/// The positions on the edges from node `id` among the first `upto` edges,
/// in the order of the edges.
pub open spec fn positions_of(edges: Seq<Link>, id: int, upto: int) -> Seq<usize>
    decreases upto,
{
    if upto <= 0 {
        Seq::empty()
    } else if edges[upto - 1].from == id {
        positions_of(edges, id, upto - 1).push(edges[upto - 1].position)
    } else {
        positions_of(edges, id, upto - 1)
    }
}

/// In the order of the edges, child number `k` of node `id` stands at
/// position `k`; and the node has no children, or as many as its rule asks
/// for.
pub open spec fn in_order_at(grammar: &Grammar, nodes: Seq<NodeView>, links: Seq<Link>, id: int) -> bool {
    let kids = children_of(links, id, links.len() as int);
    let places = positions_of(links, id, links.len() as int);
    &&& places.len() == kids.len()
    &&& forall|k: int| 0 <= k < places.len() ==> #[trigger] places[k] == k as usize
    &&& kids.len() == 0 || kids.len() == arity(grammar, nodes[id].rule_index as int)
}

/// Every node has its children in the order of their positions.
pub open spec fn in_order(grammar: &Grammar, nodes: Seq<NodeView>, links: Seq<Link>) -> bool {
    forall|id: int| 0 <= id < nodes.len() ==> #[trigger] in_order_at(grammar, nodes, links, id)
}

/// The positions among the first edges depend on these edges only.
proof fn lemma_positions_prefix(a: Seq<Link>, b: Seq<Link>, id: int, upto: int)
    requires
        0 <= upto <= a.len(),
        upto <= b.len(),
        forall|j: int| 0 <= j < upto ==> a[j] == b[j],
    ensures
        positions_of(a, id, upto) == positions_of(b, id, upto),
    decreases upto,
{
    if upto > 0 {
        lemma_positions_prefix(a, b, id, upto - 1);
    }
}

/// The positions at a node are not changed by edges from other nodes.
proof fn lemma_positions_stay(links: Seq<Link>, more: Seq<Link>, id: int)
    requires
        forall|j: int| 0 <= j < more.len() ==> (#[trigger] more[j]).from != id,
    ensures
        positions_of(links + more, id, (links + more).len() as int) == positions_of(
            links,
            id,
            links.len() as int,
        ),
    decreases more.len(),
{
    if more.len() == 0 {
        assert(links + more =~= links);
    } else {
        let all = links + more;
        let rest = more.drop_last();
        lemma_positions_stay(links, rest, id);
        assert(all[all.len() - 1] == more[more.len() - 1]);
        lemma_positions_prefix(all, links + rest, id, (links + rest).len() as int);
    }
}

/// A node with a number of at least `id` has no positions among edges that
/// lead downward within the first `id` nodes.
proof fn lemma_no_positions(nodes: Seq<NodeView>, links: Seq<Link>, id: int, upto: int)
    requires
        downward(nodes, links),
        id >= nodes.len(),
        0 <= upto <= links.len(),
    ensures
        positions_of(links, id, upto).len() == 0,
    decreases upto,
{
    if upto > 0 {
        lemma_no_positions(nodes, links, id, upto - 1);
    }
}

/// The positions at a new node are those of the edges added for it.
proof fn lemma_positions_new(nodes: Seq<NodeView>, links: Seq<Link>, more: Seq<Link>)
    requires
        downward(nodes, links),
        forall|j: int| 0 <= j < more.len() ==> (#[trigger] more[j]).from == nodes.len(),
    ensures
        positions_of(links + more, nodes.len() as int, (links + more).len() as int) == Seq::new(
            more.len(),
            |j: int| more[j].position,
        ),
    decreases more.len(),
{
    let id = nodes.len() as int;
    let all = links + more;
    if more.len() == 0 {
        assert(all =~= links);
        lemma_no_positions(nodes, links, id, links.len() as int);
        assert(positions_of(links, id, links.len() as int) =~= Seq::new(
            0,
            |j: int| more[j].position,
        ));
    } else {
        let rest = more.drop_last();
        lemma_positions_new(nodes, links, rest);
        lemma_positions_prefix(all, links + rest, id, (links + rest).len() as int);
        assert(all[all.len() - 1] == more[more.len() - 1]);
        assert(positions_of(all, id, all.len() as int) =~= Seq::new(
            more.len(),
            |j: int| more[j].position,
        ));
    }
}

/// A new node without edges keeps the order.
proof fn lemma_leaf_in_order(grammar: &Grammar, nodes: Seq<NodeView>, links: Seq<Link>, node: NodeView)
    requires
        downward(nodes, links),
        in_order(grammar, nodes, links),
    ensures
        downward(nodes.push(node), links),
        in_order(grammar, nodes.push(node), links),
{
    let next = nodes.push(node);
    assert forall|id: int| 0 <= id < next.len() implies #[trigger] in_order_at(
        grammar,
        next,
        links,
        id,
    ) by {
        if id < nodes.len() {
            assert(in_order_at(grammar, nodes, links, id));
            assert(next[id] == nodes[id]);
        } else {
            lemma_no_positions(nodes, links, id, links.len() as int);
            crate::parsers::leaves::lemma_no_children(nodes, links, id, links.len() as int);
        }
    }
}

/// A reduction keeps the order: the edges of the new node carry the
/// positions of the right-hand side from left to right.
pub proof fn lemma_reduced_in_order(grammar: &Grammar, c: Config, r: usize)
    requires
        r < grammar@.len(),
        crate::parsers::lr::reducible(c, arity(grammar, r as int)),
        downward(c.nodes, c.links),
        in_order(grammar, c.nodes, c.links),
    ensures
        downward(reduced(grammar, c, r).nodes, reduced(grammar, c, r).links),
        in_order(grammar, reduced(grammar, c, r).nodes, reduced(grammar, c, r).links),
        children_of(
            reduced(grammar, c, r).links,
            c.nodes.len() as int,
            reduced(grammar, c, r).links.len() as int,
        ) == Seq::new(
            arity(grammar, r as int) as nat,
            |k: int| child_entry(c.stack, arity(grammar, r as int), k)->Node_0 as int,
        ),
{
    let n = arity(grammar, r as int);
    let id = c.nodes.len() as int;
    let next = reduced(grammar, c, r);
    let more = Seq::new(
        n as nat,
        |k: int|
            Link { from: id, to: child_entry(c.stack, n, k)->Node_0 as int, position: k as usize },
    );
    assert(next.links == c.links + more);
    assert forall|j: int| 0 <= j < next.links.len() implies 0 <= (#[trigger] next.links[j]).to
        < next.links[j].from < next.nodes.len() by {
        if j >= c.links.len() {
            let k = j - c.links.len();
            assert(next.links[j] == more[k]);
            assert(child_entry(c.stack, n, k) is Node);
        } else {
            assert(next.links[j] == c.links[j]);
        }
    }
    lemma_children_new(c.nodes, c.links, more);
    lemma_positions_new(c.nodes, c.links, more);
    assert(children_of(next.links, id, next.links.len() as int) =~= Seq::new(
        n as nat,
        |k: int| child_entry(c.stack, n, k)->Node_0 as int,
    ));
    assert forall|x: int| 0 <= x < next.nodes.len() implies #[trigger] in_order_at(
        grammar,
        next.nodes,
        next.links,
        x,
    ) by {
        if x < id {
            assert(in_order_at(grammar, c.nodes, c.links, x));
            assert(next.nodes[x] == c.nodes[x]);
            lemma_children_stay(c.links, more, x);
            lemma_positions_stay(c.links, more, x);
        } else {
            assert(next.nodes[x].rule_index == r);
        }
    }
}

/// Every move of the engine keeps the order.
pub proof fn lemma_step_in_order(table: &ParseTableLR, grammar: &Grammar, input: Input, c: Config)
    requires
        downward(c.nodes, c.links),
        in_order(grammar, c.nodes, c.links),
    ensures
        step(table, grammar, input, c) matches Outcome::Go(next) ==> downward(
            next.nodes,
            next.links,
        ) && in_order(grammar, next.nodes, next.links),
        step(table, grammar, input, c) matches Outcome::Accept(root, last) ==> last == c,
{
    match step(table, grammar, input, c) {
        Outcome::Go(next) => {
            if next.links == c.links {
                if next.nodes != c.nodes {
                    assert(next.nodes == c.nodes.push(next.nodes.last()));
                    lemma_leaf_in_order(grammar, c.nodes, c.links, next.nodes.last());
                }
            } else {
                let r = choose|r: usize|
                    r < grammar@.len() && crate::parsers::lr::reducible(
                        c,
                        arity(grammar, r as int),
                    ) && next == reduced(grammar, c, r);
                lemma_reduced_in_order(grammar, c, r);
            }
        },
        other => {},
    }
}

/// In every configuration that the engine reaches, whatever the table,
/// every node has its children in the order of their positions.
pub proof fn lemma_run_in_order(
    table: &ParseTableLR,
    grammar: &Grammar,
    input: Input,
    cursor: int,
    n: nat,
)
    ensures
        run(table, grammar, input, cursor, n) matches Outcome::Go(c) ==> downward(c.nodes, c.links)
            && in_order(grammar, c.nodes, c.links),
        run(table, grammar, input, cursor, n) matches Outcome::Accept(root, c) ==> downward(
            c.nodes,
            c.links,
        ) && in_order(grammar, c.nodes, c.links),
    decreases n,
{
    if n > 0 {
        let m = (n - 1) as nat;
        lemma_run_in_order(table, grammar, input, cursor, m);
        match run(table, grammar, input, cursor, m) {
            Outcome::Go(c) => {
                lemma_step_in_order(table, grammar, input, c);
            },
            other => {},
        }
    } else {
        match begin(input, cursor) {
            Outcome::Go(c) => {
                assert(in_order(grammar, c.nodes, c.links));
            },
            other => {},
        }
    }
}

/// In a tree that a parse hands out, every node has its children in the
/// order of their positions in the right-hand side: child number `k` in
/// the order of the edges, which `Derivation::children` and
/// `Derivation::draw` follow, is the child at position `k`. A node has no
/// children, or one for each symbol of the right-hand side of its rule.
pub proof fn lemma_tree_in_order(
    table: &ParseTableLR,
    grammar: &Grammar,
    input: Input,
    cursor: int,
    n: nat,
    r: Result<Derivation, SyntaxError>,
)
    requires
        parsed(table, grammar, input, cursor, n, r),
    ensures
        r matches Ok(tree) ==> downward(tree.nodes(), tree.links()) && in_order(
            grammar,
            tree.nodes(),
            tree.links(),
        ),
{
    lemma_run_in_order(table, grammar, input, cursor, n);
}

} // verus!
