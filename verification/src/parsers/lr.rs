//! The parsing engine: a stack machine that reads tokens, follows an action
//! table and builds the derivation tree.

use vstd::prelude::*;
use vstd::string::StringExecFns;
use petgraph::graph::Graph;
use crate::grammar::Grammar;
use crate::grammar::derivation::{
    graph_add_edge, graph_add_node, graph_edge_count, graph_edges, graph_new, graph_node,
    graph_node_count, graph_nodes, node_views, Derivation, DerivationNode, Link, NodeView,
    GRAPH_LIMIT,
};
use crate::grammar::display::token_types;
use crate::grammar::model::{terminals_of, EOF, EPSILON};
use crate::parsers::table::{action_text, ParseTableAction, ParseTableLR};
use crate::text::{decimal, digits, join, join_strings, owned, same, strs};
use crate::tokenizer::error::{ErrorView, SyntaxError};
use crate::tokenizer::location::INLINE;
use crate::tokenizer::token::{TokenInstance, TokenTypeView, TokenView};
use crate::tokenizer::tokenizer::{location_at, scan, Scan, Tokenizer};

verus! {

/// An entry of the stack of the engine: a state of the automaton, or a node
/// of the tree.
#[derive(Clone, Copy, PartialEq, Eq, Structural, Debug)]
pub enum StackItem {
    State(usize),
    Node(usize),
}

/// The engine between two moves: its stack, the tree so far, the token it
/// looks at and the position of the tokenizer.
pub struct Config {
    pub stack: Seq<StackItem>,
    pub nodes: Seq<NodeView>,
    pub links: Seq<Link>,
    pub lookahead: TokenView,
    pub cursor: int,
}

/// What a move leads to: the engine goes on, it accepts with a root, or it
/// fails.
pub enum Outcome {
    Go(Config),
    Accept(int, Config),
    Fail(ErrorView),
}

/// What the engine reads: the name of the source, the token types and the
/// text.
pub struct Input {
    pub file: &'static str,
    pub types: Seq<TokenTypeView>,
    pub source: Seq<char>,
}

/// A row of the trace: the number of the move, the stack, the kind of the
/// token looked at, and the action.
pub struct TraceRow {
    pub step: usize,
    pub stack: String,
    pub lookahead: String,
    pub action: String,
}

/// What a row of the trace says.
pub struct RowView {
    pub step: usize,
    pub stack: Seq<char>,
    pub lookahead: Seq<char>,
    pub action: Seq<char>,
}

impl View for TraceRow {
    type V = RowView;

    open spec fn view(&self) -> RowView {
        RowView {
            step: self.step,
            stack: self.stack@,
            lookahead: self.lookahead@,
            action: self.action@,
        }
    }
}

/// The rows that a trace holds.
pub open spec fn row_views(rows: Seq<TraceRow>) -> Seq<RowView> {
    rows.map_values(|r: TraceRow| r@)
}

/// The last state among the first `upto` entries of the stack.
pub open spec fn state_below(stack: Seq<StackItem>, upto: int) -> Option<usize>
    decreases upto,
{
    if upto <= 0 {
        None
    } else {
        match stack[upto - 1] {
            StackItem::State(s) => Some(s),
            StackItem::Node(id) => state_below(stack, upto - 1),
        }
    }
}

/// The action of the next move. With a state on top, the entry of the
/// state on the kind of the token looked at; with a node on top, the entry
/// of the nearest state below on the left-hand side of the node's rule.
pub open spec fn action_of(table: &ParseTableLR, grammar: &Grammar, c: Config) -> ParseTableAction {
    if c.stack.len() == 0 {
        ParseTableAction::Reject
    } else {
        match c.stack.last() {
            StackItem::State(i) => table.lookup(i, c.lookahead.token),
            StackItem::Node(id) => match state_below(c.stack, c.stack.len() as int) {
                Some(i) => if id < c.nodes.len() && c.nodes[id as int].rule_index < grammar@.len() {
                    table.lookup(i, grammar@[c.nodes[id as int].rule_index as int].left)
                } else {
                    ParseTableAction::Reject
                },
                None => ParseTableAction::Reject,
            },
        }
    }
}

/// The number of children of a node reduced by rule `r`: none for the
/// epsilon production, else one for each symbol of the right-hand side.
pub open spec fn arity(grammar: &Grammar, r: int) -> int {
    if grammar@[r].right == seq![EPSILON@] {
        0
    } else {
        grammar@[r].right.len() as int
    }
}

/// The entry of the stack that holds child `k` of `n` children.
pub open spec fn child_entry(stack: Seq<StackItem>, n: int, k: int) -> StackItem {
    stack[stack.len() - 2 * n + 2 * k]
}

/// The top `2 * n` entries of the stack hold `n` nodes of the tree, each
/// followed by one other entry.
pub open spec fn reducible(c: Config, n: int) -> bool {
    &&& 0 <= n
    &&& 2 * n <= c.stack.len()
    &&& forall|k: int|
        0 <= k < n ==> (#[trigger] child_entry(c.stack, n, k)) is Node && child_entry(
            c.stack,
            n,
            k,
        )->Node_0 < c.nodes.len()
}

/// The error of a token that the table does not allow.
pub open spec fn reject_error(c: Config) -> ErrorView {
    ErrorView {
        location: c.lookahead.loc,
        message: if c.lookahead.value == EOF@ {
            "unexpected end of input"@
        } else {
            "unexpected token '"@ + c.lookahead.value + "'"@
        },
    }
}

/// The error of an engine that has used up its moves or the room of its
/// tree.
pub open spec fn exhausted_error(input: Input, c: Config) -> ErrorView {
    ErrorView {
        location: location_at(input.file, input.source, c.cursor),
        message: "unexpected end of input"@,
    }
}

/// The engine after a reduction by rule `r`: the top entries of the stack
/// give way to a new node, whose children are the nodes among them, in
/// their order. The node's token names the left-hand side of the rule, at
/// the place of the first child, or of the token looked at if there is no
/// child.
pub open spec fn reduced(grammar: &Grammar, c: Config, r: usize) -> Config {
    let n = arity(grammar, r as int);
    let id = c.nodes.len() as int;
    let left = grammar@[r as int].left;
    let loc = if n > 0 {
        c.nodes[child_entry(c.stack, n, 0)->Node_0 as int].token.loc
    } else {
        c.lookahead.loc
    };
    Config {
        stack: c.stack.take(c.stack.len() - 2 * n).push(StackItem::Node(id as usize)),
        nodes: c.nodes.push(
            NodeView { token: TokenView { token: left, value: left, loc }, rule_index: r },
        ),
        links: c.links + Seq::new(
            n as nat,
            |k: int|
                Link {
                    from: id,
                    to: child_entry(c.stack, n, k)->Node_0 as int,
                    position: k as usize,
                },
        ),
        lookahead: c.lookahead,
        cursor: c.cursor,
    }
}

/// One move of the engine.
pub open spec fn step(table: &ParseTableLR, grammar: &Grammar, input: Input, c: Config) -> Outcome {
    match action_of(table, grammar, c) {
        ParseTableAction::Accept => if c.stack.len() >= 2 && c.stack[c.stack.len() - 2] is Node {
            Outcome::Accept(c.stack[c.stack.len() - 2]->Node_0 as int, c)
        } else {
            Outcome::Fail(reject_error(c))
        },
        ParseTableAction::Goto(s) => Outcome::Go(
            Config { stack: c.stack.push(StackItem::State(s)), ..c },
        ),
        ParseTableAction::Shift(s) => match scan(input.file, input.types, input.source, c.cursor) {
            Scan::Token(t, cursor) => Outcome::Go(
                Config {
                    stack: c.stack.push(StackItem::Node(c.nodes.len() as usize)).push(
                        StackItem::State(s),
                    ),
                    nodes: c.nodes.push(NodeView { token: c.lookahead, rule_index: 0 }),
                    links: c.links,
                    lookahead: t,
                    cursor,
                },
            ),
            Scan::Error(e, cursor) => Outcome::Fail(e),
        },
        ParseTableAction::Reduce(r) => if r >= grammar@.len() || !reducible(
            c,
            arity(grammar, r as int),
        ) {
            Outcome::Fail(reject_error(c))
        } else if c.links.len() + arity(grammar, r as int) > GRAPH_LIMIT {
            Outcome::Fail(exhausted_error(input, c))
        } else {
            Outcome::Go(reduced(grammar, c, r))
        },
        ParseTableAction::Reject => Outcome::Fail(reject_error(c)),
    }
}

/// The engine before its first move: state 0 on the stack, no tree, and the
/// first token; or the error of reading that token.
pub open spec fn begin(input: Input, cursor: int) -> Outcome {
    match scan(input.file, input.types, input.source, cursor) {
        Scan::Token(t, next) => Outcome::Go(
            Config {
                stack: seq![StackItem::State(0)],
                nodes: Seq::empty(),
                links: Seq::empty(),
                lookahead: t,
                cursor: next,
            },
        ),
        Scan::Error(e, next) => Outcome::Fail(e),
    }
}

/// The engine after `n` moves from position `cursor`; once it accepts or
/// fails it stays as it is.
pub open spec fn run(
    table: &ParseTableLR,
    grammar: &Grammar,
    input: Input,
    cursor: int,
    n: nat,
) -> Outcome
    decreases n,
{
    if n == 0 {
        begin(input, cursor)
    } else {
        match run(table, grammar, input, cursor, (n - 1) as nat) {
            Outcome::Go(c) => step(table, grammar, input, c),
            other => other,
        }
    }
}

/// An entry of the stack in text: the number of a state, the text of the
/// token of a node.
pub open spec fn entry_text(c: Config, item: StackItem) -> Seq<char> {
    match item {
        StackItem::State(s) => digits(s as nat),
        StackItem::Node(id) => if id < c.nodes.len() {
            c.nodes[id as int].token.value
        } else {
            Seq::empty()
        },
    }
}

/// The stack in text: its entries between brackets, with commas.
pub open spec fn stack_text(c: Config) -> Seq<char> {
    "["@ + join(Seq::new(c.stack.len(), |k: int| entry_text(c, c.stack[k])), ", "@) + "]"@
}

/// The row that the trace gets for move number `number` from `c`.
pub open spec fn row_of(table: &ParseTableLR, grammar: &Grammar, c: Config, number: nat) -> RowView {
    RowView {
        step: number as usize,
        stack: stack_text(c),
        lookahead: c.lookahead.token,
        action: action_text(action_of(table, grammar, c)),
    }
}

/// The rows that the trace gets for the first `n` moves: one for each move
/// that the engine makes.
pub open spec fn rows(
    table: &ParseTableLR,
    grammar: &Grammar,
    input: Input,
    cursor: int,
    n: nat,
) -> Seq<RowView>
    decreases n,
{
    if n == 0 {
        Seq::empty()
    } else {
        let before = rows(table, grammar, input, cursor, (n - 1) as nat);
        match run(table, grammar, input, cursor, (n - 1) as nat) {
            Outcome::Go(c) => before.push(row_of(table, grammar, c, n)),
            other => before,
        }
    }
}

/// The result `r` is what the engine comes to after `n` moves, of which it
/// makes at most `GRAPH_LIMIT`: the tree if it accepts, its error if it
/// fails, and the error of an exhausted engine if it is still going after
/// the last move.
pub open spec fn parsed(
    table: &ParseTableLR,
    grammar: &Grammar,
    input: Input,
    cursor: int,
    n: nat,
    r: Result<Derivation, SyntaxError>,
) -> bool {
    &&& n <= GRAPH_LIMIT
    &&& match run(table, grammar, input, cursor, n) {
        Outcome::Accept(root, c) => r matches Ok(d) && d.0 == root && d.nodes() == c.nodes
            && d.links() == c.links,
        Outcome::Fail(e) => r matches Err(x) && x@ == e,
        Outcome::Go(c) => r matches Err(x) && x@ == exhausted_error(input, c) && n == GRAPH_LIMIT,
    }
}

/// The exec state of the engine stands for `c`.
pub open spec fn stands_for(
    stack: Seq<StackItem>,
    graph: Graph<DerivationNode, usize>,
    lookahead: TokenInstance,
    tokenizer: &Tokenizer,
    c: Config,
) -> bool {
    &&& stack == c.stack
    &&& node_views(graph_nodes(graph)) == c.nodes
    &&& graph_edges(graph) == c.links
    &&& lookahead@ == c.lookahead
    &&& tokenizer.position() == c.cursor
}

/// The last state of the stack.
fn find_state(stack: &Vec<StackItem>) -> (found: Option<usize>)
    ensures
        found == state_below(stack@, stack@.len() as int),
{
    let mut k: usize = stack.len();
    while k > 0
        invariant
            k <= stack@.len(),
            state_below(stack@, stack@.len() as int) == state_below(stack@, k as int),
        decreases k,
    {
        match stack[k - 1] {
            StackItem::State(s) => {
                return Some(s);
            },
            StackItem::Node(id) => {},
        }
        k -= 1;
    }
    None
}

/// The action of the next move.
fn next_action(
    table: &ParseTableLR,
    grammar: &Grammar,
    stack: &Vec<StackItem>,
    graph: &Graph<DerivationNode, usize>,
    lookahead: &TokenInstance,
    Ghost(c): Ghost<Config>,
) -> (action: ParseTableAction)
    requires
        table.wf(),
        stack@ == c.stack,
        node_views(graph_nodes(*graph)) == c.nodes,
        c.nodes.len() <= GRAPH_LIMIT,
        lookahead@ == c.lookahead,
    ensures
        action == action_of(table, grammar, c),
{
    if stack.len() == 0 {
        return ParseTableAction::Reject;
    }
    match stack[stack.len() - 1] {
        StackItem::State(i) => table.get_action(i, lookahead.token.as_str()),
        StackItem::Node(id) => {
            match find_state(stack) {
                Some(i) => {
                    assert(c.nodes.len() == graph_nodes(*graph).len());
                    if id >= graph_node_count(graph) {
                        return ParseTableAction::Reject;
                    }
                    match graph_node(graph, id) {
                        Some(node) => {
                            assert(c.nodes[id as int] == graph_nodes(*graph)[id as int]@);
                            if node.rule_index < grammar.get_rules().len() {
                                let rule = grammar.get_rule(node.rule_index);
                                table.get_action(i, rule.left.as_str())
                            } else {
                                ParseTableAction::Reject
                            }
                        },
                        None => ParseTableAction::Reject,
                    }
                },
                None => ParseTableAction::Reject,
            }
        },
    }
}

/// How an attempt to reduce ended.
pub enum Reduction {
    /// The reduction was made.
    Done,
    /// The stack does not hold the children.
    Refused,
    /// The tree has no room for the edges.
    Full,
}

/// The stack in text.
fn stack_string(stack: &Vec<StackItem>, graph: &Graph<DerivationNode, usize>, Ghost(c): Ghost<Config>) -> (s: String)
    requires
        stack@ == c.stack,
        node_views(graph_nodes(*graph)) == c.nodes,
        c.nodes.len() <= GRAPH_LIMIT,
    ensures
        s@ == stack_text(c),
{
    let ghost wanted = Seq::new(c.stack.len(), |k: int| entry_text(c, c.stack[k]));
    let mut parts: Vec<String> = Vec::new();
    let mut k: usize = 0;
    while k < stack.len()
        invariant
            stack@ == c.stack,
            node_views(graph_nodes(*graph)) == c.nodes,
            c.nodes.len() <= GRAPH_LIMIT,
            wanted == Seq::new(c.stack.len(), |k: int| entry_text(c, c.stack[k])),
            k <= stack@.len(),
            parts@.len() == k,
            forall|j: int| 0 <= j < k ==> parts@[j]@ == wanted[j],
        decreases stack@.len() - k,
    {
        let text = match stack[k] {
            StackItem::State(s) => decimal(s),
            StackItem::Node(id) => {
                assert(c.nodes.len() == graph_nodes(*graph).len());
                if id >= graph_node_count(graph) {
                    String::new()
                } else {
                    match graph_node(graph, id) {
                        Some(node) => {
                            assert(c.nodes[id as int] == graph_nodes(*graph)[id as int]@);
                            node.token.value.clone()
                        },
                        None => String::new(),
                    }
                }
            },
        };
        parts.push(text);
        k += 1;
    }
    assert(strs(parts@) =~= wanted);
    let mut s = owned("[");
    s.append(join_strings(&parts, ", ").as_str());
    s.append("]");
    s
}

/// Tries to reduce by rule `r`.
fn reduce(
    grammar: &Grammar,
    stack: &mut Vec<StackItem>,
    graph: &mut Graph<DerivationNode, usize>,
    lookahead: &TokenInstance,
    r: usize,
    Ghost(c): Ghost<Config>,
) -> (result: Reduction)
    requires
        grammar.wf(),
        r < grammar@.len(),
        old(stack)@ == c.stack,
        node_views(graph_nodes(*old(graph))) == c.nodes,
        graph_edges(*old(graph)) == c.links,
        lookahead@ == c.lookahead,
        c.nodes.len() < GRAPH_LIMIT,
        c.links.len() <= GRAPH_LIMIT,
    ensures
        match result {
            Reduction::Done => reducible(c, arity(grammar, r as int)) && c.links.len() + arity(
                grammar,
                r as int,
            ) <= GRAPH_LIMIT && final(stack)@ == reduced(grammar, c, r).stack && node_views(
                graph_nodes(*final(graph)),
            ) == reduced(grammar, c, r).nodes && graph_edges(*final(graph)) == reduced(
                grammar,
                c,
                r,
            ).links,
            Reduction::Refused => !reducible(c, arity(grammar, r as int)),
            Reduction::Full => reducible(c, arity(grammar, r as int)) && c.links.len() + arity(
                grammar,
                r as int,
            ) > GRAPH_LIMIT,
        },
{
    let rule = grammar.get_rule(r);
    let ghost right = grammar@[r as int].right;
    proof {
        assert(right.len() > 0);
        if right == seq![EPSILON@] {
            assert(right[0] == EPSILON@);
        }
        if rule.right@.len() == 1 && rule.right@[0]@ == EPSILON@ {
            assert(right =~= seq![EPSILON@]);
        }
    }
    let n: usize = if rule.right.len() == 1 && same(rule.right[0].as_str(), EPSILON) {
        0
    } else {
        rule.right.len()
    };
    assert(n == arity(grammar, r as int));
    if n > stack.len() / 2 {
        return Reduction::Refused;
    }
    let base = stack.len() - 2 * n;
    let count = graph_node_count(graph);
    assert(count == c.nodes.len());
    let mut children: Vec<usize> = Vec::new();
    let mut k: usize = 0;
    while k < n
        invariant
            stack@ == c.stack,
            base + 2 * n == stack.len(),
            n == arity(grammar, r as int),
            count == c.nodes.len(),
            k <= n,
            children@.len() == k,
            forall|j: int|
                0 <= j < k ==> (#[trigger] child_entry(c.stack, n as int, j)) is Node && child_entry(
                    c.stack,
                    n as int,
                    j,
                )->Node_0 < c.nodes.len() && children@[j] == child_entry(c.stack, n as int, j)->Node_0,
        decreases n - k,
    {
        assert(base + 2 * k < stack.len());
        assert(child_entry(c.stack, n as int, k as int) == stack@[base + 2 * k]);
        match stack[base + 2 * k] {
            StackItem::Node(id) => {
                if id >= count {
                    return Reduction::Refused;
                }
                children.push(id);
            },
            StackItem::State(s) => {
                return Reduction::Refused;
            },
        }
        k += 1;
    }
    assert(reducible(c, n as int));
    assert forall|j: int| 0 <= j < n implies (#[trigger] children@[j]) < c.nodes.len() by {
        assert(child_entry(c.stack, n as int, j) is Node);
    }
    let used = graph_edge_count(graph);
    if n > GRAPH_LIMIT - used {
        return Reduction::Full;
    }
    let loc = if n > 0 {
        assert(child_entry(c.stack, n as int, 0) is Node);
        match graph_node(graph, children[0]) {
            Some(node) => {
                assert(c.nodes[children@[0] as int] == graph_nodes(*graph)[children@[0] as int]@);
                node.token.loc
            },
            None => lookahead.loc,
        }
    } else {
        lookahead.loc
    };
    let token = TokenInstance::from(rule.left.as_str(), rule.left.as_str(), &loc);
    let node = DerivationNode::from(token, r);
    let ghost goal = reduced(grammar, c, r);
    let ghost old_nodes = graph_nodes(*graph);
    let id = graph_add_node(graph, node);
    proof {
        assert(node_views(graph_nodes(*graph)) =~= node_views(old_nodes).push(node@));
        assert(node_views(graph_nodes(*graph)) =~= goal.nodes);
    }
    let mut k: usize = 0;
    while k < n
        invariant
            k <= n,
            id == c.nodes.len(),
            children@.len() == n,
            forall|j: int| 0 <= j < n ==> (#[trigger] children@[j]) < c.nodes.len(),
            forall|j: int|
                0 <= j < n ==> children@[j] == (#[trigger] child_entry(c.stack, n as int, j))->Node_0,
            graph_nodes(*graph).len() == c.nodes.len() + 1,
            node_views(graph_nodes(*graph)) == goal.nodes,
            c.nodes.len() < GRAPH_LIMIT,
            c.links.len() + n <= GRAPH_LIMIT,
            graph_edges(*graph) == c.links + Seq::new(
                k as nat,
                |j: int|
                    Link {
                        from: id as int,
                        to: child_entry(c.stack, n as int, j)->Node_0 as int,
                        position: j as usize,
                    },
            ),
        decreases n - k,
    {
        let ghost before = graph_edges(*graph);
        graph_add_edge(graph, id, children[k], k);
        proof {
            let now = c.links + Seq::new(
                (k + 1) as nat,
                |j: int|
                    Link {
                        from: id as int,
                        to: child_entry(c.stack, n as int, j)->Node_0 as int,
                        position: j as usize,
                    },
            );
            assert(graph_edges(*graph) =~= now);
        }
        k += 1;
    }
    stack.truncate(base);
    stack.push(StackItem::Node(id));
    proof {
        assert(stack@ =~= goal.stack);
        assert(graph_edges(*graph) =~= goal.links);
    }
    Reduction::Done
}

/// The error of a token that the table does not allow.
fn reject(lookahead: &TokenInstance, Ghost(c): Ghost<Config>) -> (e: SyntaxError)
    requires
        lookahead@ == c.lookahead,
    ensures
        e@ == reject_error(c),
{
    let message = if same(lookahead.value.as_str(), EOF) {
        owned("unexpected end of input")
    } else {
        let mut m = owned("unexpected token '");
        m.append(lookahead.value.as_str());
        m.append("'");
        m
    };
    SyntaxError { location: lookahead.loc, message }
}

/// Runs the engine with `table` on the tokens of `tokenizer`, and appends a
/// row to `trace` for each move.
pub fn drive(
    table: &ParseTableLR,
    grammar: &Grammar,
    tokenizer: &mut Tokenizer,
    trace: &mut Vec<TraceRow>,
) -> (r: Result<Derivation, SyntaxError>)
    requires
        table.wf(),
        grammar.wf(),
        old(tokenizer).wf(),
    ensures
        final(tokenizer).wf(),
        exists|n: nat|
            #[trigger] parsed(
                table,
                grammar,
                input_of(old(tokenizer)),
                old(tokenizer).position(),
                n,
                r,
            ) && row_views(final(trace)@) == row_views(old(trace)@) + rows(
                table,
                grammar,
                input_of(old(tokenizer)),
                old(tokenizer).position(),
                n,
            ),
{
    let ghost input = input_of(tokenizer);
    let ghost origin = tokenizer.position();
    let ghost given = row_views(trace@);
    let mut lookahead = match tokenizer.next() {
        Ok(t) => t,
        Err(e) => {
            proof {
                assert(parsed(table, grammar, input, origin, 0, Err(e)));
                assert(row_views(trace@) =~= given + rows(table, grammar, input, origin, 0));
            }
            return Err(e);
        },
    };
    let mut graph = graph_new();
    let mut stack: Vec<StackItem> = Vec::new();
    stack.push(StackItem::State(0));
    let ghost mut c = Config {
        stack: seq![StackItem::State(0)],
        nodes: Seq::empty(),
        links: Seq::empty(),
        lookahead: lookahead@,
        cursor: tokenizer.position(),
    };
    let mut moves: usize = 0;
    proof {
        assert(stack@ =~= c.stack);
        assert(node_views(graph_nodes(graph)) =~= c.nodes);
        assert(graph_edges(graph) =~= c.links);
        assert(row_views(trace@) =~= given + rows(table, grammar, input, origin, 0));
    }
    while moves < GRAPH_LIMIT
        invariant
            table.wf(),
            grammar.wf(),
            tokenizer.wf(),
            input == input_of(tokenizer),
            input == input_of(old(tokenizer)),
            origin == old(tokenizer).position(),
            given == row_views(old(trace)@),
            moves <= GRAPH_LIMIT,
            run(table, grammar, input, origin, moves as nat) == Outcome::Go(c),
            stands_for(stack@, graph, lookahead, tokenizer, c),
            c.nodes.len() <= moves,
            c.links.len() <= GRAPH_LIMIT,
            row_views(trace@) == given + rows(table, grammar, input, origin, moves as nat),
        decreases GRAPH_LIMIT - moves,
    {
        let ghost before = c;
        let ghost shown = row_views(trace@);
        moves += 1;
        let action = next_action(table, grammar, &stack, &graph, &lookahead, Ghost(c));
        trace.push(
            TraceRow {
                step: moves,
                stack: stack_string(&stack, &graph, Ghost(c)),
                lookahead: lookahead.token.clone(),
                action: action.to_string(),
            },
        );
        proof {
            assert(row_views(trace@) =~= shown.push(row_of(table, grammar, before, moves as nat)));
            assert(row_views(trace@) =~= given + rows(table, grammar, input, origin, moves as nat));
        }
        match action {
            ParseTableAction::Accept => {
                if stack.len() >= 2 {
                    match stack[stack.len() - 2] {
                        StackItem::Node(id) => {
                            let d = Derivation(id, graph);
                            proof {
                                assert(parsed(table, grammar, input, origin, moves as nat, Ok(d)));
                            }
                            return Ok(d);
                        },
                        StackItem::State(s) => {},
                    }
                }
                let e = reject(&lookahead, Ghost(c));
                proof {
                    assert(parsed(table, grammar, input, origin, moves as nat, Err(e)));
                }
                return Err(e);
            },
            ParseTableAction::Goto(s) => {
                stack.push(StackItem::State(s));
                proof {
                    c = Config { stack: before.stack.push(StackItem::State(s)), ..before };
                }
            },
            ParseTableAction::Shift(s) => {
                let node = DerivationNode::from_token(lookahead.copy());
                let ghost old_nodes = graph_nodes(graph);
                let id = graph_add_node(&mut graph, node);
                stack.push(StackItem::Node(id));
                stack.push(StackItem::State(s));
                match tokenizer.next() {
                    Ok(t) => {
                        lookahead = t;
                        proof {
                            c = Config {
                                stack: before.stack.push(StackItem::Node(id)).push(StackItem::State(s)),
                                nodes: before.nodes.push(
                                    NodeView { token: before.lookahead, rule_index: 0 },
                                ),
                                links: before.links,
                                lookahead: lookahead@,
                                cursor: tokenizer.position(),
                            };
                            assert(node_views(graph_nodes(graph)) =~= node_views(old_nodes).push(
                                node@,
                            ));
                        }
                    },
                    Err(e) => {
                        proof {
                            assert(parsed(table, grammar, input, origin, moves as nat, Err(e)));
                        }
                        return Err(e);
                    },
                }
            },
            ParseTableAction::Reduce(r) => {
                if r >= grammar.get_rules().len() {
                    let e = reject(&lookahead, Ghost(c));
                    proof {
                        assert(parsed(table, grammar, input, origin, moves as nat, Err(e)));
                    }
                    return Err(e);
                }
                match reduce(grammar, &mut stack, &mut graph, &lookahead, r, Ghost(c)) {
                    Reduction::Done => {
                        proof {
                            c = reduced(grammar, before, r);
                        }
                    },
                    Reduction::Refused => {
                        let e = reject(&lookahead, Ghost(c));
                        proof {
                            assert(parsed(table, grammar, input, origin, moves as nat, Err(e)));
                        }
                        return Err(e);
                    },
                    Reduction::Full => {
                        let e = SyntaxError {
                            location: tokenizer.get_cursor_loc(),
                            message: owned("unexpected end of input"),
                        };
                        proof {
                            assert(parsed(table, grammar, input, origin, moves as nat, Err(e)));
                        }
                        return Err(e);
                    },
                }
            },
            ParseTableAction::Reject => {
                let e = reject(&lookahead, Ghost(c));
                proof {
                    assert(parsed(table, grammar, input, origin, moves as nat, Err(e)));
                }
                return Err(e);
            },
        }
    }
    let e = SyntaxError {
        location: tokenizer.get_cursor_loc(),
        message: owned("unexpected end of input"),
    };
    proof {
        assert(parsed(table, grammar, input, origin, moves as nat, Err(e)));
    }
    Err(e)
}

/// The input that a grammar and a text make: the text under the name
/// `inline`, with the token types of the grammar.
pub open spec fn inline_input(grammar: &Grammar, text: Seq<char>) -> Input {
    Input {
        file: INLINE,
        types: token_types(grammar.patterns(), terminals_of(grammar.productions())),
        source: text,
    }
}

/// A parser that works with an action table.
pub trait GrammarParserLR {
    /// The table of the parser.
    spec fn table_of(&self) -> ParseTableLR;

    /// The table of the parser.
    fn get_parse_table(&self) -> (table: &ParseTableLR)
        ensures
            *table == self.table_of(),
    ;

    /// Parses `string` with the token types of `grammar`.
    fn parse_from_string(&self, grammar: &Grammar, string: &str) -> (r: Result<
        Derivation,
        SyntaxError,
    >)
        requires
            self.table_of().wf(),
            grammar.wf(),
            string@.len() < usize::MAX,
        ensures
            exists|n: nat| #[trigger] parsed(&self.table_of(), grammar, inline_input(grammar, string@), 0, n, r),
    {
        let mut tokenizer = Tokenizer::from_string(string, grammar.get_token_types());
        assert(input_of(&tokenizer) == inline_input(grammar, string@));
        self.parse(grammar, &mut tokenizer)
    }

    /// Parses `string` with the token types of `grammar`, and appends a row
    /// to `trace` for each move.
    fn parse_from_string_trace(&self, grammar: &Grammar, string: &str, trace: &mut Vec<TraceRow>) -> (r:
        Result<Derivation, SyntaxError>)
        requires
            self.table_of().wf(),
            grammar.wf(),
            string@.len() < usize::MAX,
        ensures
            exists|n: nat|
                #[trigger] parsed(&self.table_of(), grammar, inline_input(grammar, string@), 0, n, r)
                    && row_views(final(trace)@) == row_views(old(trace)@) + rows(
                    &self.table_of(),
                    grammar,
                    inline_input(grammar, string@),
                    0,
                    n,
                ),
    {
        let mut tokenizer = Tokenizer::from_string(string, grammar.get_token_types());
        assert(input_of(&tokenizer) == inline_input(grammar, string@));
        self.parse_trace(grammar, &mut tokenizer, trace)
    }

    /// Parses the tokens of `tokenizer`.
    fn parse(&self, grammar: &Grammar, tokenizer: &mut Tokenizer) -> (r: Result<
        Derivation,
        SyntaxError,
    >)
        requires
            self.table_of().wf(),
            grammar.wf(),
            old(tokenizer).wf(),
        ensures
            final(tokenizer).wf(),
            exists|n: nat|
                #[trigger] parsed(
                    &self.table_of(),
                    grammar,
                    input_of(old(tokenizer)),
                    old(tokenizer).position(),
                    n,
                    r,
                ),
    {
        let mut trace: Vec<TraceRow> = Vec::new();
        self.parse_trace(grammar, tokenizer, &mut trace)
    }

    /// Parses the tokens of `tokenizer`, and appends a row to `trace` for
    /// each move.
    fn parse_trace(&self, grammar: &Grammar, tokenizer: &mut Tokenizer, trace: &mut Vec<TraceRow>) -> (r:
        Result<Derivation, SyntaxError>)
        requires
            self.table_of().wf(),
            grammar.wf(),
            old(tokenizer).wf(),
        ensures
            final(tokenizer).wf(),
            exists|n: nat|
                #[trigger] parsed(
                    &self.table_of(),
                    grammar,
                    input_of(old(tokenizer)),
                    old(tokenizer).position(),
                    n,
                    r,
                ) && row_views(final(trace)@) == row_views(old(trace)@) + rows(
                    &self.table_of(),
                    grammar,
                    input_of(old(tokenizer)),
                    old(tokenizer).position(),
                    n,
                ),
    {
        drive(self.get_parse_table(), grammar, tokenizer, trace)
    }
}

/// What `tokenizer` reads.
pub open spec fn input_of(tokenizer: &Tokenizer) -> Input {
    Input { file: tokenizer.file(), types: tokenizer.types(), source: tokenizer.text() }
}

} // verus!
