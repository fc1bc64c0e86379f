//! The leaves of the trees that the engine builds: in every configuration
//! that it reaches with a well sorted table, the leaves below the nodes on
//! its stack are the tokens it has taken, in their order.

use vstd::prelude::*;
use crate::grammar::Grammar;
use crate::grammar::derivation::{children_of, Link, NodeView};
use crate::grammar::model::is_terminal;
use crate::parsers::lr::{
    action_of, arity, begin, child_entry, reduced, reducible, run, step, Config, Input, Outcome,
    StackItem,
};
use crate::parsers::table::{ParseTableAction, ParseTableLR};
use crate::tokenizer::token::{end_token, TokenTypeView, TokenView};
use crate::tokenizer::tokenizer::{best_match, location_at, scan, Scan};

verus! {

/// The leaves below node `id`, from left to right: the token of the node if
/// it is the node of a token, and else the leaves below its children.
pub open spec fn yield_of(nodes: Seq<NodeView>, links: Seq<Link>, id: int) -> Seq<TokenView>
    decreases id + 1, 0nat,
{
    if id < 0 || id >= nodes.len() {
        Seq::empty()
    } else {
        let kids = children_of(links, id, links.len() as int);
        if kids.len() == 0 {
            if nodes[id].rule_index == 0 {
                seq![nodes[id].token]
            } else {
                Seq::empty()
            }
        } else {
            yields(nodes, links, kids, id)
        }
    }
}

/// The leaves below the nodes `kids`, as far as their numbers are below
/// `bound`.
pub open spec fn yields(nodes: Seq<NodeView>, links: Seq<Link>, kids: Seq<int>, bound: int) -> Seq<
    TokenView,
>
    decreases bound, kids.len() + 1,
{
    if kids.len() == 0 || bound <= 0 {
        Seq::empty()
    } else {
        yields(nodes, links, kids.drop_last(), bound) + if 0 <= kids.last() < bound {
            yield_of(nodes, links, kids.last())
        } else {
            Seq::empty()
        }
    }
}

/// The leaves below the nodes on a stack, from its bottom to its top.
pub open spec fn forest(stack: Seq<StackItem>, nodes: Seq<NodeView>, links: Seq<Link>) -> Seq<
    TokenView,
>
    decreases stack.len(),
{
    if stack.len() == 0 {
        Seq::empty()
    } else {
        forest(stack.drop_last(), nodes, links) + match stack.last() {
            StackItem::Node(id) => yield_of(nodes, links, id as int),
            StackItem::State(s) => Seq::empty(),
        }
    }
}

/// Every edge leads from a node to a node with a smaller number.
pub open spec fn downward(nodes: Seq<NodeView>, links: Seq<Link>) -> bool {
    forall|j: int|
        0 <= j < links.len() ==> 0 <= (#[trigger] links[j]).to < links[j].from < nodes.len()
}

/// The children of a node are not changed by edges from other nodes.
pub proof fn lemma_children_stay(links: Seq<Link>, more: Seq<Link>, id: int)
    requires
        forall|j: int| 0 <= j < more.len() ==> (#[trigger] more[j]).from != id,
    ensures
        children_of(links + more, id, (links + more).len() as int) == children_of(
            links,
            id,
            links.len() as int,
        ),
    decreases more.len(),
{
    if more.len() == 0 {
        assert(links + more =~= links);
    } else {
        let all = links + more;
        let rest = more.drop_last();
        lemma_children_stay(links, rest, id);
        assert(all[all.len() - 1] == more[more.len() - 1]);
        lemma_children_prefix(all, links + rest, id, (links + rest).len() as int);
    }
}

/// The children among the first edges depend on these edges only.
pub proof fn lemma_children_prefix(a: Seq<Link>, b: Seq<Link>, id: int, upto: int)
    requires
        0 <= upto <= a.len(),
        upto <= b.len(),
        forall|j: int| 0 <= j < upto ==> a[j] == b[j],
    ensures
        children_of(a, id, upto) == children_of(b, id, upto),
    decreases upto,
{
    if upto > 0 {
        lemma_children_prefix(a, b, id, upto - 1);
    }
}

/// A node with a number of at least `id` has no children among edges that
/// lead downward within the first `id` nodes.
pub proof fn lemma_no_children(nodes: Seq<NodeView>, links: Seq<Link>, id: int, upto: int)
    requires
        downward(nodes, links),
        id >= nodes.len(),
        0 <= upto <= links.len(),
    ensures
        children_of(links, id, upto).len() == 0,
    decreases upto,
{
    if upto > 0 {
        lemma_no_children(nodes, links, id, upto - 1);
    }
}

/// The leaves below a node are not changed by a new node with edges of its
/// own.
pub proof fn lemma_yield_stays(
    nodes: Seq<NodeView>,
    links: Seq<Link>,
    node: NodeView,
    more: Seq<Link>,
    id: int,
)
    requires
        downward(nodes, links),
        forall|j: int| 0 <= j < more.len() ==> (#[trigger] more[j]).from == nodes.len(),
        id < nodes.len(),
    ensures
        yield_of(nodes.push(node), links + more, id) == yield_of(nodes, links, id),
    decreases id + 1, 0nat,
{
    if id >= 0 {
        lemma_children_stay(links, more, id);
        let kids = children_of(links, id, links.len() as int);
        if kids.len() > 0 {
            lemma_yields_stay(nodes, links, node, more, kids, id);
        }
    }
}

/// The leaves below nodes are not changed by a new node with edges of its
/// own.
pub proof fn lemma_yields_stay(
    nodes: Seq<NodeView>,
    links: Seq<Link>,
    node: NodeView,
    more: Seq<Link>,
    kids: Seq<int>,
    bound: int,
)
    requires
        downward(nodes, links),
        forall|j: int| 0 <= j < more.len() ==> (#[trigger] more[j]).from == nodes.len(),
        bound <= nodes.len(),
    ensures
        yields(nodes.push(node), links + more, kids, bound) == yields(nodes, links, kids, bound),
    decreases bound, kids.len() + 1,
{
    if kids.len() > 0 && bound > 0 {
        lemma_yields_stay(nodes, links, node, more, kids.drop_last(), bound);
        if 0 <= kids.last() < bound {
            lemma_yield_stays(nodes, links, node, more, kids.last());
        }
    }
}

/// The leaves below a stack of old nodes are not changed by a new node
/// with edges of its own.
pub proof fn lemma_forest_stays(
    stack: Seq<StackItem>,
    nodes: Seq<NodeView>,
    links: Seq<Link>,
    node: NodeView,
    more: Seq<Link>,
)
    requires
        downward(nodes, links),
        forall|j: int| 0 <= j < more.len() ==> (#[trigger] more[j]).from == nodes.len(),
        forall|p: int|
            0 <= p < stack.len() && (#[trigger] stack[p]) is Node ==> stack[p]->Node_0 < nodes.len(),
    ensures
        forest(stack, nodes.push(node), links + more) == forest(stack, nodes, links),
    decreases stack.len(),
{
    if stack.len() > 0 {
        let rest = stack.drop_last();
        assert forall|p: int| 0 <= p < rest.len() && (#[trigger] rest[p]) is Node implies rest[p]->Node_0
            < nodes.len() by {
            assert(rest[p] == stack[p]);
        }
        lemma_forest_stays(rest, nodes, links, node, more);
        match stack.last() {
            StackItem::Node(id) => {
                assert(stack[stack.len() - 1] is Node);
                lemma_yield_stays(nodes, links, node, more, id as int);
            },
            StackItem::State(s) => {},
        }
    }
}

/// The leaves below a stack are those below its lower part and those below
/// its upper part.
pub proof fn lemma_forest_split(stack: Seq<StackItem>, nodes: Seq<NodeView>, links: Seq<Link>, at: int)
    requires
        0 <= at <= stack.len(),
    ensures
        forest(stack, nodes, links) == forest(stack.take(at), nodes, links) + forest(
            stack.skip(at),
            nodes,
            links,
        ),
    decreases stack.len() - at,
{
    if at == stack.len() {
        assert(stack.take(at) =~= stack);
        assert(stack.skip(at) =~= Seq::<StackItem>::empty());
        assert(forest(stack, nodes, links) + Seq::<TokenView>::empty() =~= forest(
            stack,
            nodes,
            links,
        ));
    } else {
        let rest = stack.drop_last();
        lemma_forest_split(rest, nodes, links, at);
        assert(rest.take(at) =~= stack.take(at));
        assert(stack.skip(at).drop_last() =~= rest.skip(at));
        assert(stack.skip(at).last() == stack.last());
        let tail = match stack.last() {
            StackItem::Node(id) => yield_of(nodes, links, id as int),
            StackItem::State(s) => Seq::empty(),
        };
        assert(forest(stack, nodes, links) =~= forest(stack.take(at), nodes, links) + (forest(
            rest.skip(at),
            nodes,
            links,
        ) + tail));
    }
}

/// The children of a new node are the targets of the edges added for it.
pub proof fn lemma_children_new(nodes: Seq<NodeView>, links: Seq<Link>, more: Seq<Link>)
    requires
        downward(nodes, links),
        forall|j: int| 0 <= j < more.len() ==> (#[trigger] more[j]).from == nodes.len(),
    ensures
        children_of(links + more, nodes.len() as int, (links + more).len() as int) == Seq::new(
            more.len(),
            |j: int| more[j].to,
        ),
    decreases more.len(),
{
    let id = nodes.len() as int;
    let all = links + more;
    if more.len() == 0 {
        assert(all =~= links);
        lemma_no_children(nodes, links, id, links.len() as int);
        assert(children_of(links, id, links.len() as int) =~= Seq::new(0, |j: int| more[j].to));
    } else {
        let rest = more.drop_last();
        lemma_children_new(nodes, links, rest);
        lemma_children_prefix(all, links + rest, id, (links + rest).len() as int);
        assert(all[all.len() - 1] == more[more.len() - 1]);
        assert(children_of(all, id, all.len() as int) =~= Seq::new(
            more.len(),
            |j: int| more[j].to,
        ));
    }
}

/// The leaves below a stretch of stack that holds the nodes `kids`, each
/// followed by a state.
pub proof fn lemma_span(
    span: Seq<StackItem>,
    nodes: Seq<NodeView>,
    links: Seq<Link>,
    kids: Seq<int>,
    bound: int,
)
    requires
        span.len() == 2 * kids.len(),
        bound > 0,
        forall|k: int|
            0 <= k < kids.len() ==> (#[trigger] span[2 * k]) == StackItem::Node(kids[k] as usize)
                && 0 <= kids[k] < bound && kids[k] <= usize::MAX,
        forall|k: int| 0 <= k < kids.len() ==> (#[trigger] span[2 * k + 1]) is State,
    ensures
        forest(span, nodes, links) == yields(nodes, links, kids, bound),
    decreases kids.len(),
{
    if kids.len() == 0 {
        assert(span =~= Seq::<StackItem>::empty());
    } else {
        let n = kids.len() as int;
        let shorter = span.take(2 * n - 2);
        let fewer = kids.drop_last();
        assert forall|k: int| 0 <= k < fewer.len() implies (#[trigger] shorter[2 * k])
            == StackItem::Node(fewer[k] as usize) && 0 <= fewer[k] < bound && fewer[k]
            <= usize::MAX by {
            assert(shorter[2 * k] == span[2 * k]);
        }
        assert forall|k: int| 0 <= k < fewer.len() implies (#[trigger] shorter[2 * k + 1]) is State by {
            assert(shorter[2 * k + 1] == span[2 * k + 1]);
        }
        lemma_span(shorter, nodes, links, fewer, bound);
        let one = span.drop_last();
        assert(span[2 * (n - 1) + 1] is State);
        assert(span.last() == span[2 * (n - 1) + 1]);
        assert(one.last() == span[2 * (n - 1)]);
        assert(one.drop_last() =~= shorter);
        assert(forest(span, nodes, links) =~= forest(one, nodes, links));
    }
}

/// The table keeps terminals and nonterminals apart: it gives a goto on
/// nonterminals only, and on a nonterminal nothing but a goto; a rule that
/// it reduces by has a nonterminal on the left; and every token type with a
/// name is named after a terminal.
pub open spec fn sorted(table: &ParseTableLR, grammar: &Grammar, input: Input) -> bool {
    &&& forall|s: usize, y: Seq<char>| is_terminal(y) ==> !((#[trigger] table.lookup(s, y)) is Goto)
    &&& forall|s: usize, y: Seq<char>|
        !is_terminal(y) ==> (#[trigger] table.lookup(s, y)) is Goto || table.lookup(s, y) is Reject
    &&& forall|s: usize, y: Seq<char>|
        (#[trigger] table.lookup(s, y)) is Reduce && table.lookup(s, y)->Reduce_0 < grammar@.len()
            ==> !is_terminal(grammar@[table.lookup(s, y)->Reduce_0 as int].left)
    &&& forall|i: int|
        0 <= i < input.types.len() && (#[trigger] input.types[i]).name.len() > 0 ==> is_terminal(
            input.types[i].name,
        )
}

/// The stack holds states and nodes in turn, a state first; the token
/// looked at is of a terminal; a node on top was reduced by a rule with a
/// nonterminal on the left; and the edges of the tree lead downward.
pub open spec fn orderly(grammar: &Grammar, c: Config) -> bool {
    &&& c.stack.len() >= 1
    &&& forall|p: int|
        0 <= p < c.stack.len() ==> if p % 2 == 0 {
            (#[trigger] c.stack[p]) is State
        } else {
            c.stack[p] is Node && c.stack[p]->Node_0 < c.nodes.len()
        }
    &&& is_terminal(c.lookahead.token)
    &&& c.stack.len() % 2 == 0 ==> c.nodes[c.stack.last()->Node_0 as int].rule_index
        < grammar@.len() && !is_terminal(
        grammar@[c.nodes[c.stack.last()->Node_0 as int].rule_index as int].left,
    )
    &&& downward(c.nodes, c.links)
}

/// Every token that the tokenizer finds is of a terminal, if the token
/// types with a name are named after terminals.
pub proof fn lemma_scan_terminal(input: Input, cursor: int)
    requires
        forall|i: int|
            0 <= i < input.types.len() && (#[trigger] input.types[i]).name.len() > 0 ==> is_terminal(
                input.types[i].name,
            ),
    ensures
        scan(input.file, input.types, input.source, cursor) matches Scan::Token(t, next)
            ==> is_terminal(t.token),
    decreases input.source.len() - cursor,
{
    if 0 <= cursor < input.source.len() {
        let rest = input.source.subrange(cursor, input.source.len() as int);
        crate::tokenizer::tokenizer::lemma_best_match(input.types, rest, input.types.len() as int);
        match best_match(input.types, rest, input.types.len() as int) {
            None => {},
            Some((i, text)) => {
                if !(text.len() == 0 || cursor + text.len() > input.source.len()) {
                    if input.types[i].name.len() == 0 {
                        lemma_scan_terminal(input, cursor + text.len());
                    }
                }
            },
        }
    }
}

/// The nearest state below a node on top of an orderly stack is the entry
/// below the node.
proof fn lemma_state_below(stack: Seq<StackItem>)
    requires
        stack.len() >= 2,
        stack[stack.len() - 2] is State,
        stack[stack.len() - 1] is Node,
    ensures
        crate::parsers::lr::state_below(stack, stack.len() as int) == Some(
            stack[stack.len() - 2]->State_0,
        ),
{
    assert(crate::parsers::lr::state_below(stack, stack.len() as int)
        == crate::parsers::lr::state_below(stack, stack.len() - 1));
}

/// A move of the engine with a well sorted table keeps the configuration
/// orderly, and adds the token looked at to the leaves below the stack if
/// the move is a shift.
pub proof fn lemma_step_orderly(table: &ParseTableLR, grammar: &Grammar, input: Input, c: Config)
    requires
        grammar.wf(),
        sorted(table, grammar, input),
        orderly(grammar, c),
        c.nodes.len() < usize::MAX,
        step(table, grammar, input, c) is Go,
    ensures
        orderly(grammar, step(table, grammar, input, c)->Go_0),
        step(table, grammar, input, c)->Go_0.nodes.len() <= c.nodes.len() + 1,
        forest(
            step(table, grammar, input, c)->Go_0.stack,
            step(table, grammar, input, c)->Go_0.nodes,
            step(table, grammar, input, c)->Go_0.links,
        ) == if action_of(table, grammar, c) is Shift {
            forest(c.stack, c.nodes, c.links).push(c.lookahead)
        } else {
            forest(c.stack, c.nodes, c.links)
        },
{
    let next = step(table, grammar, input, c)->Go_0;
    let len = c.stack.len() as int;
    let before = forest(c.stack, c.nodes, c.links);
    assert(c.stack[len - 1] == c.stack.last());
    if len % 2 == 0 {
        assert(c.stack[len - 1] is Node);
        assert(c.stack[len - 2] is State);
        lemma_state_below(c.stack);
        let id = c.stack.last()->Node_0;
        let left = grammar@[c.nodes[id as int].rule_index as int].left;
        let action = table.lookup(c.stack[len - 2]->State_0, left);
        assert(action_of(table, grammar, c) == action);
        assert(action is Goto);
        let s = action->Goto_0;
        assert(next.stack == c.stack.push(StackItem::State(s)));
        assert(next.stack.drop_last() =~= c.stack);
        assert(forest(next.stack, next.nodes, next.links) =~= before);
        assert forall|p: int| 0 <= p < next.stack.len() implies if p % 2 == 0 {
            (#[trigger] next.stack[p]) is State
        } else {
            next.stack[p] is Node && next.stack[p]->Node_0 < next.nodes.len()
        } by {
            if p < len {
                assert(next.stack[p] == c.stack[p]);
            }
        }
    } else {
        assert(c.stack[len - 1] is State);
        let action = table.lookup(c.stack.last()->State_0, c.lookahead.token);
        assert(action_of(table, grammar, c) == action);
        assert(!(action is Goto));
        match action {
            ParseTableAction::Shift(s) => {
                lemma_scan_terminal(input, c.cursor);
                let id = c.nodes.len() as int;
                let leaf = NodeView { token: c.lookahead, rule_index: 0 };
                let none = Seq::<Link>::empty();
                assert(c.links + none =~= c.links);
                assert(next.nodes == c.nodes.push(leaf));
                assert(next.links == c.links);
                let mid = c.stack.push(StackItem::Node(id as usize));
                assert(next.stack == mid.push(StackItem::State(s)));
                assert(next.stack.drop_last() =~= mid);
                assert(mid.drop_last() =~= c.stack);
                assert forall|p: int|
                    0 <= p < c.stack.len() && (#[trigger] c.stack[p]) is Node implies c.stack[p]->Node_0
                    < c.nodes.len() by {
                    if p % 2 == 0 {
                        assert(c.stack[p] is State);
                    }
                }
                lemma_forest_stays(c.stack, c.nodes, c.links, leaf, none);
                lemma_no_children(c.nodes, c.links, id, c.links.len() as int);
                assert(yield_of(next.nodes, next.links, id) =~= seq![c.lookahead]);
                assert(mid.last() == StackItem::Node(id as usize));
                assert(forest(mid.drop_last(), next.nodes, next.links) == before);
                assert(forest(mid, next.nodes, next.links) =~= before + seq![c.lookahead]);
                assert(forest(next.stack, next.nodes, next.links) =~= before.push(c.lookahead));
                assert forall|p: int| 0 <= p < next.stack.len() implies if p % 2 == 0 {
                    (#[trigger] next.stack[p]) is State
                } else {
                    next.stack[p] is Node && next.stack[p]->Node_0 < next.nodes.len()
                } by {
                    if p < len {
                        assert(next.stack[p] == c.stack[p]);
                    }
                }
                assert forall|j: int| 0 <= j < next.links.len() implies 0 <= (
                #[trigger] next.links[j]).to < next.links[j].from < next.nodes.len() by {
                    assert(next.links[j] == c.links[j]);
                }
            },
            ParseTableAction::Reduce(r) => {
                let n = arity(grammar, r as int);
                let id = c.nodes.len() as int;
                let base = len - 2 * n;
                assert(next == reduced(grammar, c, r));
                let node = next.nodes[id];
                let more = Seq::new(
                    n as nat,
                    |k: int|
                        Link {
                            from: id,
                            to: child_entry(c.stack, n, k)->Node_0 as int,
                            position: k as usize,
                        },
                );
                assert(next.nodes =~= c.nodes.push(node));
                assert(next.links == c.links + more);
                let kept = c.stack.take(base);
                let span = c.stack.skip(base);
                let kids = Seq::new(n as nat, |k: int| child_entry(c.stack, n, k)->Node_0 as int);
                assert(reducible(c, n));
                assert forall|k: int| 0 <= k < n implies 0 <= #[trigger] kids[k] < id by {
                    assert(child_entry(c.stack, n, k) is Node);
                }
                assert(next.stack == kept.push(StackItem::Node(id as usize)));
                assert(next.stack.drop_last() =~= kept);
                assert forall|p: int|
                    0 <= p < kept.len() && (#[trigger] kept[p]) is Node implies kept[p]->Node_0
                    < c.nodes.len() by {
                    assert(kept[p] == c.stack[p]);
                    if p % 2 == 0 {
                        assert(c.stack[p] is State);
                    }
                }
                lemma_forest_stays(kept, c.nodes, c.links, node, more);
                lemma_forest_split(c.stack, c.nodes, c.links, base);
                lemma_children_new(c.nodes, c.links, more);
                assert(children_of(next.links, id, next.links.len() as int) =~= kids);
                if n == 0 {
                    assert(grammar@[r as int].right == seq![crate::grammar::model::EPSILON@]);
                    assert(r != 0) by {
                        if r == 0 {
                            assert(grammar@[0].right[0] == grammar@[1].left);
                            assert(grammar@[r as int].right[0] == crate::grammar::model::EPSILON@);
                        }
                    }
                    assert(span =~= Seq::<StackItem>::empty());
                    assert(yield_of(next.nodes, next.links, id) =~= Seq::<TokenView>::empty());
                    assert(forest(span, c.nodes, c.links) =~= Seq::<TokenView>::empty());
                } else {
                    assert forall|k: int| 0 <= k < kids.len() implies (#[trigger] span[2 * k])
                        == StackItem::Node(kids[k] as usize) && 0 <= kids[k] < id && kids[k]
                        <= usize::MAX by {
                        assert(span[2 * k] == c.stack[base + 2 * k]);
                        assert(child_entry(c.stack, n, k) == c.stack[base + 2 * k]);
                        assert(child_entry(c.stack, n, k) is Node);
                    }
                    assert forall|k: int| 0 <= k < kids.len() implies (#[trigger] span[2 * k + 1]) is State by {
                        assert(span[2 * k + 1] == c.stack[base + 2 * k + 1]);
                        assert((base + 2 * k + 1) % 2 == 0) by {
                            assert(len % 2 == 1);
                        }
                    }
                    lemma_span(span, c.nodes, c.links, kids, id);
                    lemma_yields_stay(c.nodes, c.links, node, more, kids, id);
                    assert(yield_of(next.nodes, next.links, id) == yields(
                        next.nodes,
                        next.links,
                        kids,
                        id,
                    ));
                }
                assert(next.stack.last() == StackItem::Node(id as usize));
                assert(forest(kept, next.nodes, next.links) == forest(kept, c.nodes, c.links));
                assert(forest(span, c.nodes, c.links) == yield_of(next.nodes, next.links, id));
                assert(before == forest(kept, c.nodes, c.links) + forest(span, c.nodes, c.links));
                assert(forest(next.stack, next.nodes, next.links) =~= before);
                assert forall|p: int| 0 <= p < next.stack.len() implies if p % 2 == 0 {
                    (#[trigger] next.stack[p]) is State
                } else {
                    next.stack[p] is Node && next.stack[p]->Node_0 < next.nodes.len()
                } by {
                    if p < base {
                        assert(next.stack[p] == c.stack[p]);
                    } else {
                        assert(base % 2 == 1) by {
                            assert(len % 2 == 1);
                        }
                    }
                }
                assert(next.stack.len() % 2 == 0) by {
                    assert(len % 2 == 1);
                }
                assert(next.stack.last() == StackItem::Node(id as usize));
                assert(next.nodes[id].rule_index == r);
                assert forall|j: int| 0 <= j < next.links.len() implies 0 <= (
                #[trigger] next.links[j]).to < next.links[j].from < next.nodes.len() by {
                    if j < c.links.len() {
                        assert(next.links[j] == c.links[j]);
                    } else {
                        assert(next.links[j] == more[j - c.links.len()]);
                        assert(kids[j - c.links.len()] < id);
                    }
                }
            },
            _ => {},
        }
    }
}

/// The tokens that the engine has taken from the input by shifts during
/// its first `n` moves.
pub open spec fn consumed(
    table: &ParseTableLR,
    grammar: &Grammar,
    input: Input,
    cursor: int,
    n: nat,
) -> Seq<TokenView>
    decreases n,
{
    if n == 0 {
        Seq::empty()
    } else {
        let before = consumed(table, grammar, input, cursor, (n - 1) as nat);
        match run(table, grammar, input, cursor, (n - 1) as nat) {
            Outcome::Go(c) => if action_of(table, grammar, c) is Shift && step(
                table,
                grammar,
                input,
                c,
            ) is Go {
                before.push(c.lookahead)
            } else {
                before
            },
            other => before,
        }
    }
}

/// Token number `k` of the input, counted from 0, as the tokenizer finds it
/// from position `cursor`, and the position behind it; nothing if the
/// tokenizer fails before.
pub open spec fn taken(input: Input, cursor: int, k: nat) -> Option<(TokenView, int)>
    decreases k,
{
    let from = if k == 0 {
        Some(cursor)
    } else {
        match taken(input, cursor, (k - 1) as nat) {
            Some((t, next)) => Some(next),
            None => None,
        }
    };
    match from {
        Some(at) => match scan(input.file, input.types, input.source, at) {
            Scan::Token(t, next) => Some((t, next)),
            Scan::Error(e, next) => None,
        },
        None => None,
    }
}

/// The position behind a token that was found.
pub open spec fn position_behind(found: Option<(TokenView, int)>) -> int {
    match found {
        Some((t, next)) => next,
        None => 0,
    }
}

/// After `n` moves the engine is in configuration `c`, which is orderly;
/// the leaves below its stack are the tokens it has taken; these are the
/// first tokens of the input, and the token it looks at is the next one.
pub open spec fn in_step(
    table: &ParseTableLR,
    grammar: &Grammar,
    input: Input,
    cursor: int,
    n: nat,
    c: Config,
) -> bool {
    let seen = consumed(table, grammar, input, cursor, n);
    &&& orderly(grammar, c)
    &&& c.nodes.len() <= n
    &&& forest(c.stack, c.nodes, c.links) == seen
    &&& taken(input, cursor, seen.len()) == Some((c.lookahead, c.cursor))
    &&& forall|j: nat|
        j < seen.len() ==> (#[trigger] taken(input, cursor, j)) == Some(
            (seen[j as int], position_behind(taken(input, cursor, j))),
        )
}

/// With a well sorted table, the leaves of the trees that the engine
/// builds are the tokens of the input in their order: in every
/// configuration that the engine reaches within its limit of moves, the
/// leaves below the nodes on its stack, from the bottom to the top and each
/// tree from left to right, are the tokens it has taken, which are the
/// first tokens of the input. Where it accepts with one tree on its stack,
/// the leaves of that tree are these tokens.
pub proof fn lemma_leaves_are_tokens(
    table: &ParseTableLR,
    grammar: &Grammar,
    input: Input,
    cursor: int,
    n: nat,
)
    requires
        grammar.wf(),
        sorted(table, grammar, input),
        n <= crate::grammar::derivation::GRAPH_LIMIT,
    ensures
        run(table, grammar, input, cursor, n) matches Outcome::Go(c) ==> in_step(
            table,
            grammar,
            input,
            cursor,
            n,
            c,
        ),
        run(table, grammar, input, cursor, n) matches Outcome::Accept(root, c) ==> in_step(
            table,
            grammar,
            input,
            cursor,
            n,
            c,
        ) && (c.stack.len() == 3 ==> yield_of(c.nodes, c.links, root) == consumed(
            table,
            grammar,
            input,
            cursor,
            n,
        )),
    decreases n,
{
    if n == 0 {
        lemma_scan_terminal(input, cursor);
        match begin(input, cursor) {
            Outcome::Go(c) => {
                reveal_with_fuel(forest, 3);
                assert(c.stack.drop_last() =~= Seq::<StackItem>::empty());
                assert(forest(c.stack, c.nodes, c.links) =~= Seq::<TokenView>::empty());
            },
            other => {},
        }
    } else {
        let m = (n - 1) as nat;
        lemma_leaves_are_tokens(table, grammar, input, cursor, m);
        let seen = consumed(table, grammar, input, cursor, m);
        let now = consumed(table, grammar, input, cursor, n);
        match run(table, grammar, input, cursor, m) {
            Outcome::Go(c) => {
                match step(table, grammar, input, c) {
                    Outcome::Go(next) => {
                        lemma_step_orderly(table, grammar, input, c);
                        if action_of(table, grammar, c) is Shift {
                            assert(now == seen.push(c.lookahead));
                            assert(taken(input, cursor, now.len()) == Some(
                                (next.lookahead, next.cursor),
                            ));
                            assert forall|j: nat| j < now.len() implies (#[trigger] taken(
                                input,
                                cursor,
                                j,
                            )) == Some(
                                (now[j as int], position_behind(taken(input, cursor, j))),
                            ) by {
                                if j < seen.len() {
                                    assert(now[j as int] == seen[j as int]);
                                }
                            }
                        } else {
                            assert(now == seen);
                            assert(next.lookahead == c.lookahead && next.cursor == c.cursor);
                        }
                    },
                    Outcome::Accept(root, same) => {
                        assert(now == seen);
                        if c.stack.len() == 3 {
                            reveal_with_fuel(forest, 5);
                            let one = c.stack.drop_last();
                            let none = one.drop_last();
                            assert(c.stack[2] is State);
                            assert(c.stack[1] is Node);
                            assert(c.stack[0] is State);
                            assert(one.last() == c.stack[1]);
                            assert(none.last() == c.stack[0]);
                            assert(none.drop_last() =~= Seq::<StackItem>::empty());
                            assert(forest(none, c.nodes, c.links) =~= Seq::<TokenView>::empty());
                            assert(forest(c.stack, c.nodes, c.links) =~= yield_of(
                                c.nodes,
                                c.links,
                                root,
                            ));
                        }
                    },
                    Outcome::Fail(e) => {},
                }
            },
            Outcome::Accept(root, c) => {
                assert(now == seen);
            },
            Outcome::Fail(e) => {},
        }
    }
}

/// The leaves of a tree that the engine hands out with a well sorted table
/// after it accepted with this one tree on its stack are the tokens that it
/// has taken from the input, in their order.
pub proof fn lemma_accepted_leaves(
    table: &ParseTableLR,
    grammar: &Grammar,
    input: Input,
    cursor: int,
    n: nat,
    tree: crate::grammar::derivation::Derivation,
)
    requires
        grammar.wf(),
        sorted(table, grammar, input),
        crate::parsers::lr::parsed(table, grammar, input, cursor, n, Ok(tree)),
        run(table, grammar, input, cursor, n)->Accept_1.stack.len() == 3,
    ensures
        run(table, grammar, input, cursor, n) is Accept,
        yield_of(tree.nodes(), tree.links(), tree.0 as int) == consumed(
            table,
            grammar,
            input,
            cursor,
            n,
        ),
{
    lemma_leaves_are_tokens(table, grammar, input, cursor, n);
}

} // verus!
