//! Derivation trees: nodes that hold a token and the rule they were reduced
//! by, kept in a `petgraph::Graph` whose edges lead from a node to its
//! children and carry the child's position.

use vstd::prelude::*;
use vstd::string::StringExecFns;
use petgraph::graph::{Graph, NodeIndex};
use crate::grammar::{symbol_text, Grammar, GrammarRule};
use crate::grammar::model::stringify;
use crate::text::{owned, same};
use crate::tokenizer::location::place_text;
use crate::tokenizer::token::{blank_token, TokenInstance, TokenView};

verus! {

/// `petgraph::graph::Graph`, whose inside is not looked at: what a graph
/// of derivation nodes holds is named by `graph_nodes` and `graph_edges`.
#[verifier::external_type_specification]
#[verifier::external_body]
#[verifier::reject_recursive_types(N)]
#[verifier::reject_recursive_types(E)]
#[verifier::reject_recursive_types(Ty)]
#[verifier::reject_recursive_types(Ix)]
pub struct ExGraph<N, E, Ty, Ix>(Graph<N, E, Ty, Ix>);

/// `petgraph::Directed`, the marker of graphs with directed edges.
#[verifier::external_type_specification]
#[verifier::external_body]
pub struct ExDirected(petgraph::Directed);

/// A node of a derivation tree: a leaf holds the token it was made of, an
/// inner node a token that names the left-hand side of its rule.
#[derive(Debug)]
pub struct DerivationNode {
    pub token: TokenInstance,
    pub rule_index: usize,
}

/// What a node says.
pub struct NodeView {
    pub token: TokenView,
    pub rule_index: usize,
}

impl View for DerivationNode {
    type V = NodeView;

    open spec fn view(&self) -> NodeView {
        NodeView { token: self.token@, rule_index: self.rule_index }
    }
}

/// An edge of a derivation tree: from a node to a child, with the child's
/// position among the children.
pub struct Link {
    pub from: int,
    pub to: int,
    pub position: usize,
}

impl DerivationNode {
    /// A node with a blank token and rule 0.
    pub fn new() -> (node: Self)
        ensures
            node@.token == blank_token(),
            node@.rule_index == 0,
    {
        DerivationNode { token: TokenInstance::new(), rule_index: 0 }
    }

    /// A leaf: the node of a token.
    pub fn from_token(token: TokenInstance) -> (node: Self)
        ensures
            node@ == (NodeView { token: token@, rule_index: 0 }),
    {
        DerivationNode { token, rule_index: 0 }
    }

    /// The node of a reduction by rule `rule_index`, with `token` to name it.
    pub fn from(token: TokenInstance, rule_index: usize) -> (node: Self)
        ensures
            node@ == (NodeView { token: token@, rule_index }),
    {
        DerivationNode { token, rule_index }
    }

    /// The rule that the node was reduced by.
    pub fn get_rule<'a>(&'a self, grammar: &'a Grammar) -> (rule: &'a GrammarRule)
        requires
            self@.rule_index < grammar@.len(),
        ensures
            rule@ == grammar@[self@.rule_index as int],
    {
        grammar.get_rule(self.rule_index)
    }
}

/// The most nodes and the most edges that a graph takes.
pub const GRAPH_LIMIT: usize = 4294967294;

/// The nodes that a graph holds, by number.
pub uninterp spec fn graph_nodes(g: Graph<DerivationNode, usize>) -> Seq<DerivationNode>;

/// The edges that a graph holds, in the order in which they were added.
pub uninterp spec fn graph_edges(g: Graph<DerivationNode, usize>) -> Seq<Link>;

/// The views of nodes.
pub open spec fn node_views(nodes: Seq<DerivationNode>) -> Seq<NodeView> {
    nodes.map_values(|n: DerivationNode| n@)
}

/// `Graph::new`: the new graph holds no node and no edge.
#[verifier::external_body]
pub(crate) fn graph_new() -> (g: Graph<DerivationNode, usize>)
    ensures
        graph_nodes(g).len() == 0,
        graph_edges(g).len() == 0,
{
    Graph::new()
}

/// `Graph::node_count`.
#[verifier::external_body]
pub(crate) fn graph_node_count(g: &Graph<DerivationNode, usize>) -> (n: usize)
    ensures
        n == graph_nodes(*g).len(),
{
    g.node_count()
}

/// `Graph::edge_count`.
#[verifier::external_body]
pub(crate) fn graph_edge_count(g: &Graph<DerivationNode, usize>) -> (n: usize)
    ensures
        n == graph_edges(*g).len(),
{
    g.edge_count()
}

/// `Graph::add_node`, for a graph below the limit of its index type: the
/// node is added behind the others and its number is returned; the edges
/// stay.
#[verifier::external_body]
pub(crate) fn graph_add_node(g: &mut Graph<DerivationNode, usize>, node: DerivationNode) -> (id: usize)
    requires
        graph_nodes(*old(g)).len() < GRAPH_LIMIT,
    ensures
        id == graph_nodes(*old(g)).len(),
        graph_nodes(*final(g)) == graph_nodes(*old(g)).push(node),
        graph_edges(*final(g)) == graph_edges(*old(g)),
{
    g.add_node(node).index()
}

/// `Graph::add_edge`, between nodes of the graph and below the limit of
/// its index type: the edge is added behind the others; the nodes stay.
#[verifier::external_body]
pub(crate) fn graph_add_edge(g: &mut Graph<DerivationNode, usize>, from: usize, to: usize, position: usize)
    requires
        from < graph_nodes(*old(g)).len(),
        to < graph_nodes(*old(g)).len(),
        graph_nodes(*old(g)).len() <= GRAPH_LIMIT,
        graph_edges(*old(g)).len() < GRAPH_LIMIT,
    ensures
        graph_nodes(*final(g)) == graph_nodes(*old(g)),
        graph_edges(*final(g)) == graph_edges(*old(g)).push(
            Link { from: from as int, to: to as int, position },
        ),
{
    g.add_edge(NodeIndex::new(from), NodeIndex::new(to), position);
}

/// `Graph::node_weight`, for a number within the index type: the node with
/// that number, if the graph has one.
#[verifier::external_body]
pub(crate) fn graph_node<'a>(g: &'a Graph<DerivationNode, usize>, id: usize) -> (found: Option<&'a DerivationNode>)
    requires
        id <= GRAPH_LIMIT,
    ensures
        found matches Some(node) ==> id < graph_nodes(*g).len() && *node == graph_nodes(*g)[id as int],
        found is None ==> id >= graph_nodes(*g).len(),
{
    g.node_weight(NodeIndex::new(id))
}

/// `Graph::raw_edges`, of which the edge with number `k`: its source, its
/// target and its weight.
#[verifier::external_body]
pub(crate) fn graph_edge(g: &Graph<DerivationNode, usize>, k: usize) -> (edge: (usize, usize, usize))
    requires
        k < graph_edges(*g).len(),
    ensures
        edge.0 == graph_edges(*g)[k as int].from,
        edge.1 == graph_edges(*g)[k as int].to,
        edge.2 == graph_edges(*g)[k as int].position,
{
    let e = &g.raw_edges()[k];
    (e.source().index(), e.target().index(), e.weight)
}

/// A derivation tree: the number of its root, and the graph of its nodes.
pub struct Derivation(pub usize, pub Graph<DerivationNode, usize>);

/// The children of node `id` among the first `upto` edges, in the order of
/// the edges.
pub open spec fn children_of(edges: Seq<Link>, id: int, upto: int) -> Seq<int>
    decreases upto,
{
    if upto <= 0 {
        Seq::empty()
    } else if edges[upto - 1].from == id {
        children_of(edges, id, upto - 1).push(edges[upto - 1].to)
    } else {
        children_of(edges, id, upto - 1)
    }
}

/// A node in text: the text of its symbol between brackets, the text of
/// its token if that differs, and its place.
pub open spec fn node_text(node: NodeView) -> Seq<char> {
    let symbol = stringify(node.token.token);
    "["@ + symbol + "]"@ + (if symbol == node.token.value {
        Seq::empty()
    } else {
        " `"@ + node.token.value + "`"@
    }) + " "@ + place_text(node.token.loc)
}

/// What stands before a node in the drawing of a tree: the indent, and a
/// branch mark for a child (`last` is 1 for the last child of its parent,
/// 0 for another child, and anything else for the root).
pub open spec fn branch(indent: Seq<char>, last: int) -> Seq<char> {
    indent + if last == 0 {
        "├─"@
    } else if last == 1 {
        "└─"@
    } else {
        Seq::empty()
    }
}

/// The indent of the children of a node.
pub open spec fn deeper(indent: Seq<char>, last: int) -> Seq<char> {
    indent + if last == 0 {
        "│ "@
    } else if last == 1 {
        "  "@
    } else {
        Seq::empty()
    }
}

/// The drawing of the tree below node `id`: the node on a line of its own,
/// then its children in their order, each with its subtree. A child whose
/// number is not below that of its parent is left out, and so is a node
/// whose number no graph can hold.
pub open spec fn tree_text(
    nodes: Seq<NodeView>,
    links: Seq<Link>,
    id: int,
    indent: Seq<char>,
    last: int,
) -> Seq<char>
    decreases id + 1, 0nat,
{
    if id < 0 || id >= nodes.len() || id > GRAPH_LIMIT {
        Seq::empty()
    } else {
        let kids = children_of(links, id, links.len() as int);
        branch(indent, last) + node_text(nodes[id]) + "\n"@ + subtrees(
            nodes,
            links,
            kids,
            id,
            deeper(indent, last),
            kids.len() as int,
        )
    }
}

/// The drawings of the first `upto` of the children `kids`.
pub open spec fn subtrees(
    nodes: Seq<NodeView>,
    links: Seq<Link>,
    kids: Seq<int>,
    bound: int,
    indent: Seq<char>,
    upto: int,
) -> Seq<char>
    decreases bound, upto + 1,
{
    if upto <= 0 || upto > kids.len() || bound <= 0 {
        Seq::empty()
    } else {
        subtrees(nodes, links, kids, bound, indent, upto - 1) + if 0 <= kids[upto - 1] < bound {
            tree_text(
                nodes,
                links,
                kids[upto - 1],
                indent,
                if upto == kids.len() {
                    1
                } else {
                    0
                },
            )
        } else {
            Seq::empty()
        }
    }
}

impl DerivationNode {
    /// The node in text.
    pub fn to_string(&self) -> (s: String)
        ensures
            s@ == node_text(self@),
    {
        let symbol = symbol_text(self.token.token.as_str());
        let mut s = owned("[");
        s.append(symbol.as_str());
        s.append("]");
        if !same(symbol.as_str(), self.token.value.as_str()) {
            s.append(" `");
            s.append(self.token.value.as_str());
            s.append("`");
        }
        s.append(" ");
        s.append(self.token.loc.to_string().as_str());
        s
    }
}

impl Derivation {
    /// The drawing of the tree below node `id`, the children of a node in
    /// the order of its edges. In a tree that a parse hands out this is the
    /// order of the positions in the right-hand side: see
    /// `parsers::order::lemma_tree_in_order`.
    pub fn draw(&self, id: usize, indent: &str, last: u8) -> (s: String)
        ensures
            s@ == tree_text(self.nodes(), self.links(), id as int, indent@, last as int),
        decreases id,
    {
        let node = match self.node(id) {
            Some(node) => node,
            None => {
                return String::new();
            },
        };
        let mut s = owned(indent);
        let mut inner = owned(indent);
        if last == 0 {
            s.append("├─");
            inner.append("│ ");
        } else if last == 1 {
            s.append("└─");
            inner.append("  ");
        }
        assert(s@ =~= branch(indent@, last as int));
        assert(inner@ =~= deeper(indent@, last as int));
        s.append(node.to_string().as_str());
        s.append("\n");
        let children = self.children(id);
        let ghost kids = children_of(self.links(), id as int, self.links().len() as int);
        let ghost head = s@;
        assert(head =~= branch(indent@, last as int) + node_text(self.nodes()[id as int]) + "\n"@);
        let mut k: usize = 0;
        while k < children.len()
            invariant
                k <= children@.len(),
                head == branch(indent@, last as int) + node_text(self.nodes()[id as int]) + "\n"@,
                kids == children_of(self.links(), id as int, self.links().len() as int),
                id <= GRAPH_LIMIT,
                children@.len() == kids.len(),
                forall|j: int| 0 <= j < children@.len() ==> children@[j] == kids[j],
                id < self.nodes().len(),
                s@ == head + subtrees(self.nodes(), self.links(), kids, id as int, inner@, k as int),
            decreases children@.len() - k,
        {
            let child = children[k];
            let ghost before = s@;
            if child < id {
                let mark: u8 = if k + 1 == children.len() {
                    1
                } else {
                    0
                };
                s.append(self.draw(child, inner.as_str(), mark).as_str());
            }
            proof {
                assert(s@ =~= head + subtrees(
                    self.nodes(),
                    self.links(),
                    kids,
                    id as int,
                    inner@,
                    k + 1,
                ));
            }
            k += 1;
        }
        s
    }

    /// The drawing of the tree.
    pub fn to_string(&self) -> (s: String)
        ensures
            s@ == tree_text(self.nodes(), self.links(), self.0 as int, Seq::empty(), 2),
    {
        proof {
            reveal_strlit("");
            assert(""@ =~= Seq::<char>::empty());
        }
        self.draw(self.0, "", 2)
    }

    /// The nodes of the tree, by number.
    pub open spec fn nodes(&self) -> Seq<NodeView> {
        node_views(graph_nodes(self.1))
    }

    /// The edges of the tree, in the order in which they were added.
    pub open spec fn links(&self) -> Seq<Link> {
        graph_edges(self.1)
    }

    /// The number of the root.
    pub fn root(&self) -> (id: usize)
        ensures
            id == self.0,
    {
        self.0
    }

    /// The number of nodes.
    pub fn node_count(&self) -> (n: usize)
        ensures
            n == self.nodes().len(),
    {
        graph_node_count(&self.1)
    }

    /// The node with number `id`, if there is one; no graph has a node
    /// with a number over the limit.
    pub fn node(&self, id: usize) -> (found: Option<&DerivationNode>)
        ensures
            found matches Some(node) ==> id < self.nodes().len() && id <= GRAPH_LIMIT && node@
                == self.nodes()[id as int],
            found is None ==> id >= self.nodes().len() || id > GRAPH_LIMIT,
    {
        if id > GRAPH_LIMIT {
            return None;
        }
        graph_node(&self.1, id)
    }

    /// The children of node `id`, in the order of its edges. In a tree
    /// that a parse hands out this is the order of the positions in the
    /// right-hand side: see `parsers::order::lemma_tree_in_order`.
    pub fn children(&self, id: usize) -> (list: Vec<usize>)
        ensures
            list@.len() == children_of(self.links(), id as int, self.links().len() as int).len(),
            forall|k: int|
                0 <= k < list@.len() ==> list@[k] == children_of(
                    self.links(),
                    id as int,
                    self.links().len() as int,
                )[k],
    {
        let total = graph_edge_count(&self.1);
        let ghost edges = self.links();
        let mut list: Vec<usize> = Vec::new();
        let mut k: usize = 0;
        while k < total
            invariant
                edges == graph_edges(self.1),
                total == edges.len(),
                k <= total,
                list@.len() == children_of(edges, id as int, k as int).len(),
                forall|j: int| 0 <= j < list@.len() ==> list@[j] == children_of(edges, id as int, k as int)[j],
            decreases total - k,
        {
            let edge = graph_edge(&self.1, k);
            if edge.0 == id {
                list.push(edge.1);
            }
            k += 1;
        }
        list
    }
}

} // verus!
