use lexion::grammar::{Grammar, GrammarRule};
use lexion::parsers::items::graph::{CanonicalCollectionGraph, GraphState};
use lexion::parsers::items::lr::{ClosurableItem, LRItem};
use lexion::parsers::items::model::LR0Item;
use lexion::parsers::items::set::ItemSet;
use lexion::parsers::lalr1::{lalr, GrammarParserLALR1};
use lexion::parsers::ll1::GrammarParserLL1;
use lexion::parsers::lr::{GrammarParserLR, TraceRow};
use lexion::parsers::lr0::GrammarParserLR0;
use lexion::parsers::slr1::GrammarParserSLR1;
use lexion::parsers::table::{ParseTableAction, ParseTableLR, ParseTableOverride};
use lexion::grammar::derivation::Derivation;

fn rule(left: &str, right: &[&str]) -> GrammarRule {
    GrammarRule { left: left.to_string(), right: right.iter().map(|s| s.to_string()).collect() }
}

fn brackets() -> Grammar {
    Grammar::from_rules(vec![rule("S", &["'a'", "S", "'b'"]), rule("S", &["ε"])])
}

fn assignments() -> Grammar {
    Grammar::from_rules(vec![
        rule("S", &["L", "'='", "R"]),
        rule("S", &["R"]),
        rule("L", &["'*'", "R"]),
        rule("L", &["'id'"]),
        rule("R", &["L"]),
    ])
}

fn sums() -> Grammar {
    Grammar::from_rules(vec![
        rule("'n'", &["[0-9]+"]),
        rule("E", &["E", "'+'", "T"]),
        rule("E", &["T"]),
        rule("T", &["'n'"]),
        rule("T", &["'('", "E", "')'"]),
    ])
}

fn items(list: &[(usize, usize)]) -> ItemSet {
    let mut set = ItemSet::new();
    for (r, d) in list {
        set.insert(LR0Item::new(*r, *d));
    }
    set
}

fn pairs(set: &ItemSet) -> Vec<(usize, usize)> {
    set.to_vec().iter().map(|i| (i.rule_index, i.dot_index)).collect()
}

fn leaves(d: &Derivation, id: usize, out: &mut Vec<String>) {
    let children = d.children(id);
    if children.is_empty() {
        let node = d.node(id).unwrap();
        if node.rule_index == 0 {
            out.push(node.token.value.clone());
        }
    }
    for c in children {
        leaves(d, c, out);
    }
}

fn text_of(d: &Derivation) -> String {
    let mut out = Vec::new();
    leaves(d, d.root(), &mut out);
    out.concat()
}

#[test]
fn item_parts() {
    let g = brackets();
    let item = LR0Item::new(1, 2);
    assert_eq!(item.get_rule_index(), 1);
    assert_eq!(item.get_dot_index(), 2);
    assert_eq!(item.get_rule(&g).left, "S");
    assert!(!item.is_final(&g));
    assert!(LR0Item::new(1, 3).is_final(&g));
    assert!(LR0Item::new(2, 0).is_final(&g));
    assert!(LR0Item::new(0, 1).is_accept(&g));
    assert!(!LR0Item::new(0, 0).is_accept(&g));
    assert!(!LR0Item::new(1, 1).is_accept(&g));
    assert_eq!(item.to_string(&g), "S -> 'a' S • 'b'");
    assert_eq!(LR0Item::new(0, 0).to_string(&g), "S' -> • S");
    assert_eq!(LR0Item::new(1, 3).to_string(&g), "S -> 'a' S 'b' •");
}

#[test]
fn item_sets_are_ordered_and_without_duplicates() {
    let mut set = ItemSet::new();
    assert!(set.insert(LR0Item::new(2, 0)));
    assert!(set.insert(LR0Item::new(0, 1)));
    assert!(set.insert(LR0Item::new(1, 5)));
    assert!(set.insert(LR0Item::new(1, 2)));
    assert!(!set.insert(LR0Item::new(1, 5)));
    assert_eq!(pairs(&set), vec![(0, 1), (1, 2), (1, 5), (2, 0)]);
    assert_eq!(set.len(), 4);
    assert!(set.contains(&LR0Item::new(1, 2)));
    assert!(!set.contains(&LR0Item::new(1, 3)));
    assert!(set.same_items(&items(&[(1, 2), (2, 0), (1, 5), (0, 1)])));
    assert!(!set.same_items(&items(&[(1, 2), (2, 0), (1, 5)])));
    assert!(!set.same_items(&items(&[(1, 2), (2, 0), (1, 5), (0, 2)])));
}

#[test]
fn closure_adds_the_rules_of_expected_nonterminals() {
    let g = brackets();
    let mut set = items(&[(0, 0)]);
    LR0Item::closure(&g, &mut set);
    assert_eq!(pairs(&set), vec![(0, 0), (1, 0), (2, 0)]);
    let mut set = items(&[(1, 1)]);
    LR0Item::closure(&g, &mut set);
    assert_eq!(pairs(&set), vec![(1, 0), (1, 1), (2, 0)]);
    let mut set = items(&[(1, 2)]);
    LR0Item::closure(&g, &mut set);
    assert_eq!(pairs(&set), vec![(1, 2)]);
}

#[test]
fn closure_is_idempotent() {
    let g = assignments();
    let mut once = items(&[(0, 0)]);
    LR0Item::closure(&g, &mut once);
    let mut twice = items(&pairs(&once));
    LR0Item::closure(&g, &mut twice);
    assert_eq!(pairs(&once), pairs(&twice));
    assert_eq!(pairs(&once), vec![(0, 0), (1, 0), (2, 0), (3, 0), (4, 0), (5, 0)]);
}

#[test]
fn goto_moves_the_dot_and_does_not_close() {
    let g = brackets();
    let set = items(&[(0, 0), (1, 0), (2, 0)]);
    assert_eq!(pairs(&LR0Item::goto(&g, &set, "'a'")), vec![(1, 1)]);
    assert_eq!(pairs(&LR0Item::goto(&g, &set, "S")), vec![(0, 1)]);
    assert_eq!(pairs(&LR0Item::goto(&g, &set, "'b'")), vec![]);
    assert_eq!(pairs(&LR0Item::goto(&g, &set, "ε")), vec![]);
    assert_eq!(pairs(&LR0Item::goto(&g, &set, "unknown")), vec![]);
}

#[test]
fn graph_state_operations() {
    let g = brackets();
    let mut state = GraphState::new(items(&[(0, 0)]));
    assert!(!state.is_closured());
    assert!(!state.is_final(&g));
    state.closure(&g);
    assert!(state.is_closured());
    assert_eq!(pairs(state.get_items()), vec![(0, 0), (1, 0), (2, 0)]);
    assert!(state.is_final(&g));
    assert!(!state.is_accept(&g));
    assert_eq!(pairs(&state.goto(&g, "S")), vec![(0, 1)]);
    assert_eq!(state.to_string(&g), "S' -> • S\nS -> • 'a' S 'b'\nS -> • ε\n");
    let accept = GraphState::new(items(&[(0, 1)]));
    assert!(accept.is_accept(&g));
    assert!(accept.is_final(&g));
}

#[test]
fn states_are_equal_when_their_items_are() {
    let g = brackets();
    let mut a = GraphState::new(items(&[(0, 0)]));
    let b = GraphState::new(items(&[(2, 0), (0, 0), (1, 0)]));
    assert!(!a.equals(&b));
    a.closure(&g);
    assert!(a.equals(&b));
    assert!(b.equals(&a));
}

#[test]
fn closing_a_closed_state_changes_nothing() {
    let g = brackets();
    let mut state = GraphState::new(items(&[(0, 0)]));
    state.closure(&g);
    let before = pairs(state.get_items());
    state.closure(&g);
    assert_eq!(pairs(state.get_items()), before);
}

#[test]
fn canonical_collection_of_the_bracket_grammar() {
    let g = brackets();
    let c = CanonicalCollectionGraph::new(&g, LR0Item::new(0, 0));
    assert_eq!(c.state_count(), 5);
    let states: Vec<Vec<(usize, usize)>> =
        (0..5).map(|i| pairs(c.state(&g, i).get_items())).collect();
    assert_eq!(
        states,
        vec![
            vec![(0, 0), (1, 0), (2, 0)],
            vec![(1, 0), (1, 1), (2, 0)],
            vec![(1, 2)],
            vec![(1, 3)],
            vec![(0, 1)],
        ]
    );
    let edges: Vec<Vec<(usize, usize, String)>> = (0..5)
        .map(|i| c.edges_from(i).iter().map(|e| (e.from, e.to, e.symbol.clone())).collect())
        .collect();
    assert_eq!(
        edges,
        vec![
            vec![(0, 1, "'a'".to_string()), (0, 4, "S".to_string())],
            vec![(1, 2, "S".to_string()), (1, 1, "'a'".to_string())],
            vec![(2, 3, "'b'".to_string())],
            vec![],
            vec![],
        ]
    );
}

#[test]
fn rebuilding_the_collection_gives_the_same_states_and_edges() {
    let g = assignments();
    let a = CanonicalCollectionGraph::new(&g, LR0Item::new(0, 0));
    let b = CanonicalCollectionGraph::new(&Grammar::from_rules(vec![
        rule("S", &["L", "'='", "R"]),
        rule("S", &["R"]),
        rule("L", &["'*'", "R"]),
        rule("L", &["'id'"]),
        rule("R", &["L"]),
    ]), LR0Item::new(0, 0));
    assert_eq!(a.state_count(), b.state_count());
    assert_eq!(a.state_count(), 10);
    for i in 0..a.state_count() {
        assert_eq!(pairs(a.state(&g, i).get_items()), pairs(b.state(&g, i).get_items()));
        let ea: Vec<(usize, usize, String)> =
            a.edges_from(i).iter().map(|e| (e.from, e.to, e.symbol.clone())).collect();
        let eb: Vec<(usize, usize, String)> =
            b.edges_from(i).iter().map(|e| (e.from, e.to, e.symbol.clone())).collect();
        assert_eq!(ea, eb);
    }
    assert_eq!(a.to_string(&g), b.to_string(&g));
}

#[test]
fn collection_in_text() {
    let g = brackets();
    let c = CanonicalCollectionGraph::new(&g, LR0Item::new(0, 0));
    let text = c.to_string(&g);
    assert!(text.starts_with("0*:\nS' -> • S\nS -> • 'a' S 'b'\nS -> • ε\n\n1*:\n"));
    assert!(text.ends_with("3*:\nS -> 'a' S 'b' •\n\n4**:\nS' -> S •\n\n"));
    assert!(text.contains("\n\n2:\nS -> 'a' S • 'b'\n\n"));
}

#[test]
fn table_entries_and_overrides() {
    let mut t = ParseTableLR::new(3);
    assert_eq!(t.get_action(0, "'a'"), ParseTableAction::Reject);
    t.insert_entry(0, "'a'", ParseTableAction::Shift(1));
    t.insert_entry(1, "'a'", ParseTableAction::Reduce(2));
    t.insert_entry(0, "S", ParseTableAction::Goto(2));
    assert_eq!(t.get_action(0, "'a'"), ParseTableAction::Shift(1));
    assert_eq!(t.get_action(1, "'a'"), ParseTableAction::Reduce(2));
    assert_eq!(t.get_action(0, "S"), ParseTableAction::Goto(2));
    assert_eq!(t.get_action(2, "'a'"), ParseTableAction::Reject);
    assert_eq!(t.get_action(0, "'b'"), ParseTableAction::Reject);
    t.insert_entry(0, "'a'", ParseTableAction::Reduce(7));
    assert_eq!(t.get_action(0, "'a'"), ParseTableAction::Reduce(7));
    t.apply_conflict_resolutions(vec![
        ParseTableOverride { state: 0, symbol: "'a'".to_string(), action: ParseTableAction::Accept },
        ParseTableOverride { state: 9, symbol: "'z'".to_string(), action: ParseTableAction::Shift(4) },
        ParseTableOverride { state: 0, symbol: "'a'".to_string(), action: ParseTableAction::Shift(5) },
    ]);
    assert_eq!(t.get_action(0, "'a'"), ParseTableAction::Shift(5));
    assert_eq!(t.get_action(9, "'z'"), ParseTableAction::Shift(4));
    assert_eq!(t.get_action(1, "'a'"), ParseTableAction::Reduce(2));
}

#[test]
fn slr_table_of_the_bracket_grammar() {
    let g = brackets();
    let p = GrammarParserSLR1::from_grammar(&g);
    let t = p.get_parse_table();
    assert_eq!(t.get_action(0, "'a'"), ParseTableAction::Shift(1));
    assert_eq!(t.get_action(0, "'b'"), ParseTableAction::Reduce(2));
    assert_eq!(t.get_action(0, "$"), ParseTableAction::Reduce(2));
    assert_eq!(t.get_action(0, "S"), ParseTableAction::Goto(4));
    assert_eq!(t.get_action(1, "'a'"), ParseTableAction::Shift(1));
    assert_eq!(t.get_action(1, "'b'"), ParseTableAction::Reduce(2));
    assert_eq!(t.get_action(1, "S"), ParseTableAction::Goto(2));
    assert_eq!(t.get_action(2, "'b'"), ParseTableAction::Shift(3));
    assert_eq!(t.get_action(2, "$"), ParseTableAction::Reject);
    assert_eq!(t.get_action(3, "'b'"), ParseTableAction::Reduce(1));
    assert_eq!(t.get_action(3, "$"), ParseTableAction::Reduce(1));
    assert_eq!(t.get_action(3, "'a'"), ParseTableAction::Reject);
    assert_eq!(t.get_action(4, "$"), ParseTableAction::Accept);
    assert_eq!(t.get_action(4, "'a'"), ParseTableAction::Reject);
    assert_eq!(t.get_action(5, "$"), ParseTableAction::Reject);
}

#[test]
fn slr_reductions_stay_within_follow() {
    for g in [brackets(), assignments(), sums()] {
        let p = GrammarParserSLR1::from_grammar(&g);
        let t = p.get_parse_table();
        let c = p.get_collection();
        let mut symbols = g.get_terminals().to_vec();
        symbols.extend(g.get_non_terminals().to_vec());
        for s in 0..c.state_count() {
            for y in &symbols {
                if let ParseTableAction::Reduce(r) = t.get_action(s, y) {
                    let follow = g.follow_of(&g.get_rule(r).left).unwrap();
                    assert!(follow.contains(y));
                    let state = c.state(&g, s);
                    assert!(state
                        .get_items()
                        .to_vec()
                        .iter()
                        .any(|i| i.rule_index == r && i.is_final(&g)));
                }
            }
        }
    }
}

#[test]
fn an_accepted_tree_holds_every_token_of_the_input() {
    let g = sums();
    let types = g.get_token_types();
    for text in ["1", "1 + 2", "(1+2) + (3)", " ( ( 7 ) ) "] {
        let mut tokens = Vec::new();
        let mut t = lexion::tokenizer::tokenizer::Tokenizer::from_string(
            text,
            types.iter().map(|k| lexion::tokenizer::token::TokenType::new(&k.name, &k.pattern)).collect(),
        );
        loop {
            let token = t.next().unwrap();
            if token.token == "$" {
                break;
            }
            tokens.push(token.value);
        }
        for d in [
            GrammarParserLR0::from_grammar(&g).parse_from_string(&g, text),
            GrammarParserSLR1::from_grammar(&g).parse_from_string(&g, text),
            GrammarParserLALR1::from_grammar(&g).parse_from_string(&g, text),
        ] {
            let d = d.unwrap();
            let mut found = Vec::new();
            leaves(&d, d.root(), &mut found);
            assert_eq!(found, tokens);
        }
    }
}

#[test]
fn children_stand_in_the_order_of_the_right_hand_side() {
    let g = sums();
    let d = GrammarParserSLR1::from_grammar(&g).parse_from_string(&g, "(1+2)+3").unwrap();
    let mut inner = 0;
    for id in 0..d.node_count() {
        let kids = d.children(id);
        let edges: Vec<(usize, usize)> = d
            .1
            .raw_edges()
            .iter()
            .filter(|e| e.source().index() == id)
            .map(|e| (e.weight, e.target().index()))
            .collect();
        assert_eq!(edges.len(), kids.len());
        for (k, (position, target)) in edges.iter().enumerate() {
            assert_eq!(*position, k);
            assert_eq!(*target, kids[k]);
        }
        if !kids.is_empty() {
            inner += 1;
            let rule = g.get_rule(d.node(id).unwrap().rule_index);
            assert_eq!(kids.len(), rule.right.len());
            for (k, c) in kids.iter().enumerate() {
                assert_eq!(d.node(*c).unwrap().token.token, rule.right[k]);
            }
        }
    }
    assert_eq!(inner, 8);
}

fn expression() -> Grammar {
    Grammar::from_rules(vec![
        rule("E", &["T", "E2"]),
        rule("E2", &["'+'", "T", "E2"]),
        rule("E2", &["ε"]),
        rule("T", &["F", "T2"]),
        rule("T2", &["'*'", "F", "T2"]),
        rule("T2", &["ε"]),
        rule("F", &["'('", "E", "')'"]),
        rule("F", &["'id'"]),
    ])
}

#[test]
fn prediction_table_of_the_expression_grammar() {
    let g = expression();
    let p = GrammarParserLL1::from_grammar(&g);
    assert!(p.is_ll1());
    assert_eq!(p.rule_for("E'", "'('"), Some(0));
    assert_eq!(p.rule_for("E", "'('"), Some(1));
    assert_eq!(p.rule_for("E", "'id'"), Some(1));
    assert_eq!(p.rule_for("E2", "'+'"), Some(2));
    assert_eq!(p.rule_for("E2", "ε"), Some(3));
    assert_eq!(p.rule_for("T", "'id'"), Some(4));
    assert_eq!(p.rule_for("T2", "'*'"), Some(5));
    assert_eq!(p.rule_for("T2", "ε"), Some(6));
    assert_eq!(p.rule_for("F", "'('"), Some(7));
    assert_eq!(p.rule_for("F", "'id'"), Some(8));
    assert_eq!(p.rule_for("E", "'+'"), None);
    assert_eq!(p.rule_for("F", "')'"), None);
    assert_eq!(p.rule_for("X", "'id'"), None);
    assert_eq!(p.rule_for("E", "'x'"), None);
    assert_eq!(p.rule_for("'id'", "'id'"), None);
}

#[test]
fn a_cell_claimed_twice_is_not_ll1_and_the_last_rule_holds_it() {
    let g = Grammar::from_rules(vec![
        rule("S", &["'a'", "'b'"]),
        rule("S", &["B"]),
        rule("B", &["'c'"]),
        rule("S", &["'a'", "'c'"]),
    ]);
    let p = GrammarParserLL1::from_grammar(&g);
    assert!(!p.is_ll1());
    assert_eq!(p.rule_for("S", "'a'"), Some(4));
    assert_eq!(p.rule_for("S", "'c'"), Some(2));
    assert_eq!(p.rule_for("B", "'c'"), Some(3));
}

#[test]
fn left_recursion_is_not_ll1() {
    let p = GrammarParserLL1::from_grammar(&sums());
    assert!(!p.is_ll1());
    assert!(GrammarParserLL1::from_grammar(&brackets()).is_ll1());
}

fn chain() -> Grammar {
    Grammar::from_rules(vec![
        rule("'n'", &["[0-9]+"]),
        rule("E", &["E", "'+'", "T"]),
        rule("E", &["T"]),
        rule("T", &["'n'"]),
    ])
}

#[test]
fn sentences_of_a_grammar_without_conflicts_are_accepted() {
    let g = brackets();
    let parser = GrammarParserSLR1::from_grammar(&g);
    for depth in 0..6 {
        let text = format!("{}{}", "a".repeat(depth), "b".repeat(depth));
        let d = parser.parse_from_string(&g, &text).unwrap();
        assert_eq!(text_of(&d), text);
    }
    let g = chain();
    for text in ["1", "1+2", "1 + 2 + 3", "10+20+30+40"] {
        let d = GrammarParserSLR1::from_grammar(&g).parse_from_string(&g, text).unwrap();
        assert_eq!(text_of(&d), text.replace(' ', ""));
        let d = GrammarParserLR0::from_grammar(&g).parse_from_string(&g, text).unwrap();
        assert_eq!(text_of(&d), text.replace(' ', ""));
    }
}

#[test]
fn lalr_accepts_sentences_where_the_start_symbol_stands_in_no_right_hand_side() {
    let g = Grammar::from_rules(vec![
        rule("'n'", &["[0-9]+"]),
        rule("S", &["E"]),
        rule("E", &["E", "'+'", "T"]),
        rule("E", &["T"]),
        rule("T", &["'n'"]),
        rule("T", &["'('", "E", "')'"]),
    ]);
    let parser = GrammarParserLALR1::from_grammar(&g);
    for text in ["1", "1+2", "1+2+3", "(1)", "(1+2)+(3+(4))"] {
        let d = parser.parse_from_string(&g, text).unwrap();
        assert_eq!(text_of(&d), text);
    }
    assert!(parser.parse_from_string(&g, "1+").is_err());
    assert!(parser.parse_from_string(&g, "(1").is_err());
}

#[test]
fn a_state_that_accepts_reduces_nothing() {
    let g = Grammar::from_rules(vec![
        rule("S", &["B", "'x'"]),
        rule("S", &["'y'"]),
        rule("B", &["S"]),
    ]);
    let parser = GrammarParserSLR1::from_grammar(&g);
    assert!(parser.parse_from_string(&g, "y").is_ok());
    match parser.parse_from_string(&g, "yx") {
        Ok(_) => panic!("the state that accepts reduces on 'x'"),
        Err(e) => assert_eq!(e.message, "unexpected token 'x'"),
    }
}

#[test]
fn lalr_lookahead_stops_at_the_accepting_state() {
    let g = chain();
    let parser = GrammarParserLALR1::from_grammar(&g);
    assert!(parser.parse_from_string(&g, "1").is_ok());
    match parser.parse_from_string(&g, "1+2") {
        Ok(_) => panic!("the table reduces on '+'"),
        Err(e) => assert_eq!(e.message, "unexpected token '+'"),
    }
}

#[test]
fn lr0_reduces_on_every_terminal() {
    let g = brackets();
    let p = GrammarParserLR0::from_grammar(&g);
    let t = p.get_parse_table();
    assert_eq!(t.get_action(3, "'a'"), ParseTableAction::Reduce(1));
    assert_eq!(t.get_action(3, "'b'"), ParseTableAction::Reduce(1));
    assert_eq!(t.get_action(3, "$"), ParseTableAction::Reduce(1));
    assert_eq!(t.get_action(0, "'a'"), ParseTableAction::Shift(1));
    assert_eq!(t.get_action(0, "'b'"), ParseTableAction::Reduce(2));
    assert_eq!(t.get_action(4, "$"), ParseTableAction::Accept);
    assert_eq!(t.get_action(4, "'a'"), ParseTableAction::Reject);
}

#[test]
fn balanced_brackets_are_accepted() {
    let g = brackets();
    for parser in [
        &GrammarParserSLR1::from_grammar(&g) as &dyn Parses,
        &GrammarParserLR0::from_grammar(&g),
        &GrammarParserLALR1::from_grammar(&g),
    ] {
        let d = parser.run(&g, "aabb").unwrap();
        assert_eq!(text_of(&d), "aabb");
        let root = d.node(d.root()).unwrap();
        assert_eq!(root.token.token, "S");
        assert_eq!(root.rule_index, 1);
        assert_eq!(d.children(d.root()).len(), 3);
        assert!(parser.run(&g, "").is_ok());
        assert!(parser.run(&g, "ab").is_ok());
        assert!(parser.run(&g, " a a b\nb ").is_ok());
    }
}

trait Parses {
    fn run(&self, grammar: &Grammar, text: &str) -> Result<Derivation, lexion::tokenizer::error::SyntaxError>;
}

impl Parses for GrammarParserSLR1 {
    fn run(&self, grammar: &Grammar, text: &str) -> Result<Derivation, lexion::tokenizer::error::SyntaxError> {
        self.parse_from_string(grammar, text)
    }
}

impl Parses for GrammarParserLR0 {
    fn run(&self, grammar: &Grammar, text: &str) -> Result<Derivation, lexion::tokenizer::error::SyntaxError> {
        self.parse_from_string(grammar, text)
    }
}

impl Parses for GrammarParserLALR1 {
    fn run(&self, grammar: &Grammar, text: &str) -> Result<Derivation, lexion::tokenizer::error::SyntaxError> {
        self.parse_from_string(grammar, text)
    }
}

#[test]
fn unbalanced_brackets_are_rejected_at_the_end_of_input() {
    let g = brackets();
    let p = GrammarParserSLR1::from_grammar(&g);
    let e = p.parse_from_string(&g, "aab").err().unwrap();
    assert_eq!(e.message, "unexpected end of input");
    assert_eq!((e.location.loc.line, e.location.loc.col), (1, 4));
    let e = GrammarParserLALR1::from_grammar(&g).parse_from_string(&g, "aab").err().unwrap();
    assert_eq!(e.message, "unexpected end of input");
}

#[test]
fn a_token_out_of_place_is_rejected_where_it_stands() {
    let g = brackets();
    let p = GrammarParserSLR1::from_grammar(&g);
    let e = p.parse_from_string(&g, "ab\n b").err().unwrap();
    assert_eq!(e.message, "unexpected token 'b'");
    assert_eq!((e.location.loc.line, e.location.loc.col), (2, 2));
    let e = p.parse_from_string(&g, "ba").err().unwrap();
    assert_eq!(e.message, "unexpected token 'b'");
    assert_eq!((e.location.loc.line, e.location.loc.col), (1, 1));
}

#[test]
fn a_lexical_error_ends_the_parse() {
    let g = brackets();
    let p = GrammarParserSLR1::from_grammar(&g);
    let e = p.parse_from_string(&g, "a#b").err().unwrap();
    assert_eq!(e.message, "unexpected token '#b'");
    assert_eq!((e.location.loc.line, e.location.loc.col), (1, 2));
    let e = p.parse_from_string(&g, "#").err().unwrap();
    assert_eq!(e.message, "unexpected token '#'");
    assert_eq!((e.location.loc.line, e.location.loc.col), (1, 1));
}

#[test]
fn the_tree_keeps_the_order_of_the_children() {
    let g = sums();
    let p = GrammarParserSLR1::from_grammar(&g);
    let d = p.parse_from_string(&g, "1 + (22 + 3)").unwrap();
    assert_eq!(text_of(&d), "1+(22+3)");
    let root = d.root();
    let node = d.node(root).unwrap();
    assert_eq!((node.token.token.as_str(), node.rule_index), ("E", 1));
    let children = d.children(root);
    let kinds: Vec<String> =
        children.iter().map(|c| d.node(*c).unwrap().token.token.clone()).collect();
    assert_eq!(kinds, vec!["E", "'+'", "T"]);
    let plus = d.node(children[1]).unwrap();
    assert_eq!(plus.token.value, "+");
    assert_eq!((plus.token.loc.loc.line, plus.token.loc.loc.col), (1, 3));
    let right = d.node(children[2]).unwrap();
    assert_eq!(right.rule_index, 4);
    assert_eq!((right.token.loc.loc.line, right.token.loc.loc.col), (1, 5));
    assert_eq!(d.node(d.node_count()).map(|n| n.rule_index), None);
}

#[test]
fn generated_sentences_parse_back_to_their_text() {
    let g = sums();
    let p = GrammarParserLALR1::from_grammar(&g);
    for text in ["7", "(7)", "1+2", "1+2+3", "((1)+(2+3))+4", "(((((5)))))"] {
        let d = p.parse_from_string(&g, text).unwrap();
        assert_eq!(text_of(&d), text);
    }
    let g = brackets();
    let p = GrammarParserLALR1::from_grammar(&g);
    let mut text = String::new();
    for n in 0..6 {
        let d = p.parse_from_string(&g, &text).unwrap();
        assert_eq!(text_of(&d), text);
        text = format!("a{}b", text);
        assert_eq!(text.len(), 2 * (n + 1));
    }
}

#[test]
fn the_node_of_an_empty_reduction_stands_at_the_lookahead() {
    let g = brackets();
    let p = GrammarParserSLR1::from_grammar(&g);
    let d = p.parse_from_string(&g, "ab").unwrap();
    let children = d.children(d.root());
    let inner = d.node(children[1]).unwrap();
    assert_eq!((inner.token.token.as_str(), inner.rule_index), ("S", 2));
    assert_eq!((inner.token.loc.loc.line, inner.token.loc.loc.col), (1, 2));
    assert!(d.children(children[1]).is_empty());
    let root = d.node(d.root()).unwrap();
    assert_eq!((root.token.loc.loc.line, root.token.loc.loc.col), (1, 1));
}

#[test]
fn the_tree_in_text() {
    let g = brackets();
    let p = GrammarParserSLR1::from_grammar(&g);
    let d = p.parse_from_string(&g, "ab").unwrap();
    let expected = "[S] (file:///inline:1:1)\n\
                    ├─[a] (file:///inline:1:1)\n\
                    ├─[S] (file:///inline:1:2)\n\
                    └─[b] (file:///inline:1:2)\n";
    assert_eq!(d.to_string(), expected);
    let g = sums();
    let p = GrammarParserSLR1::from_grammar(&g);
    let d = p.parse_from_string(&g, "12+3").unwrap();
    let expected = "[E] (file:///inline:1:1)\n\
                    ├─[E] (file:///inline:1:1)\n\
                    │ └─[T] (file:///inline:1:1)\n\
                    │   └─[n] `12` (file:///inline:1:1)\n\
                    ├─[+] (file:///inline:1:3)\n\
                    └─[T] (file:///inline:1:4)\n  \
                    └─[n] `3` (file:///inline:1:4)\n";
    assert_eq!(d.to_string(), expected);
    assert_eq!(d.node(d.root()).unwrap().to_string(), "[E] (file:///inline:1:1)");
    assert_eq!(ParseTableAction::Shift(12).to_string(), "s12");
    assert_eq!(ParseTableAction::Goto(0).to_string(), "0");
    assert_eq!(ParseTableAction::Reduce(105).to_string(), "r105");
    assert_eq!(ParseTableAction::Accept.to_string(), "acc");
    assert_eq!(ParseTableAction::Reject.to_string(), "");
}

#[test]
fn the_trace_has_a_row_for_each_move() {
    let g = brackets();
    let p = GrammarParserSLR1::from_grammar(&g);
    let mut trace: Vec<TraceRow> = Vec::new();
    assert!(p.parse_from_string_trace(&g, "ab", &mut trace).is_ok());
    let rows: Vec<(usize, String, String, String)> = trace
        .iter()
        .map(|r| (r.step, r.stack.clone(), r.lookahead.clone(), r.action.clone()))
        .collect();
    let expected = vec![
        (1, "[0]", "'a'", "s1"),
        (2, "[0, a, 1]", "'b'", "r2"),
        (3, "[0, a, 1, S]", "'b'", "2"),
        (4, "[0, a, 1, S, 2]", "'b'", "s3"),
        (5, "[0, a, 1, S, 2, b, 3]", "$", "r1"),
        (6, "[0, S]", "$", "4"),
        (7, "[0, S, 4]", "$", "acc"),
    ];
    let expected: Vec<(usize, String, String, String)> = expected
        .into_iter()
        .map(|(n, s, l, a)| (n, s.to_string(), l.to_string(), a.to_string()))
        .collect();
    assert_eq!(rows, expected);
    let mut trace: Vec<TraceRow> = Vec::new();
    assert!(p.parse_from_string_trace(&g, "b", &mut trace).is_err());
    assert_eq!(trace.len(), 3);
    assert_eq!(trace[2].action, "");
}

#[test]
fn an_override_changes_what_the_parser_does() {
    let g = brackets();
    let mut p = GrammarParserSLR1::from_grammar(&g);
    assert!(p.parse_from_string(&g, "ab").is_ok());
    let mut table = ParseTableLR::new(5);
    for s in 0..5 {
        for y in ["'a'", "'b'", "$", "S"] {
            table.insert_entry(s, y, p.get_parse_table().get_action(s, y));
        }
    }
    table.apply_conflict_resolutions(vec![ParseTableOverride {
        state: 2,
        symbol: "'b'".to_string(),
        action: ParseTableAction::Reject,
    }]);
    p = GrammarParserSLR1::with_table(p, table);
    let e = p.parse_from_string(&g, "ab").err().unwrap();
    assert_eq!(e.message, "unexpected token 'b'");
}

#[test]
fn slr_and_lalr_differ_on_the_assignment_grammar() {
    let g = assignments();
    let slr = GrammarParserSLR1::from_grammar(&g);
    let c = slr.get_collection();
    let reduce_item = LR0Item::new(5, 1);
    let shift_item = LR0Item::new(1, 1);
    let mut found = None;
    for s in 0..c.state_count() {
        let state = c.state(&g, s);
        if state.get_items().contains(&reduce_item) && state.get_items().contains(&shift_item) {
            found = Some(s);
        }
    }
    let s = found.unwrap();
    assert!(g.follow_of("R").unwrap().contains("'='"));
    assert!(matches!(slr.get_parse_table().get_action(s, "'='"), ParseTableAction::Shift(_)));
    assert_eq!(slr.get_parse_table().get_action(s, "$"), ParseTableAction::Reduce(5));
    let lookahead = lalr(&g, c, s, reduce_item);
    assert!(!lookahead.contains("'='"));
    assert!(lookahead.contains("$"));
    assert_eq!(lookahead.len(), 1);
    let p = GrammarParserLALR1::from_grammar(&g);
    assert!(matches!(p.get_parse_table().get_action(s, "'='"), ParseTableAction::Shift(_)));
    assert_eq!(p.get_parse_table().get_action(s, "$"), ParseTableAction::Reduce(5));
    for text in ["id", "*id", "id=id", "*id=**id", "**id=*id"] {
        assert!(p.parse_from_string(&g, text).is_ok());
        assert_eq!(text_of(&p.parse_from_string(&g, text).unwrap()), text);
    }
    assert!(p.parse_from_string(&g, "id=").is_err());
    assert!(p.parse_from_string(&g, "=id").is_err());
}

#[test]
fn lalr_lookaheads_of_the_assignment_grammar() {
    let g = assignments();
    let p = GrammarParserLALR1::from_grammar(&g);
    let c = p.get_collection();
    for s in 0..c.state_count() {
        let state = c.state(&g, s);
        for item in state.get_items().to_vec() {
            if !item.is_final(&g) || item.is_accept(&g) {
                continue;
            }
            let set = lalr(&g, c, s, item);
            let follow = g.follow_of(&g.get_rule(item.rule_index).left).unwrap();
            assert!(set.len() >= 1);
            for y in set.to_vec() {
                assert!(follow.contains(&y));
            }
        }
    }
    let accept = lalr(&g, c, 0, LR0Item::new(0, 0));
    assert_eq!(accept.len(), 0);
}

#[test]
fn an_expression_grammar_with_precedence() {
    let g = Grammar::from_rules(vec![
        rule("'num'", &["[0-9]+(\\.[0-9]+)?"]),
        rule("'id'", &["[a-zA-Z_][a-zA-Z0-9_]*"]),
        rule("E", &["E", "'+'", "T"]),
        rule("E", &["E", "'-'", "T"]),
        rule("E", &["T"]),
        rule("T", &["T", "'*'", "F"]),
        rule("T", &["T", "'/'", "F"]),
        rule("T", &["F"]),
        rule("F", &["'('", "E", "')'"]),
        rule("F", &["'-'", "F"]),
        rule("F", &["'num'"]),
        rule("F", &["'id'"]),
        rule("F", &["'id'", "'('", "A", "')'"]),
        rule("A", &["ε"]),
        rule("A", &["E", "R"]),
        rule("R", &["ε"]),
        rule("R", &["','", "E", "R"]),
    ]);
    let slr = GrammarParserSLR1::from_grammar(&g);
    let lalr1 = GrammarParserLALR1::from_grammar(&g);
    for text in ["1", "a+b*c", "(a+b)*c", "-x/3.5 - f(1, g(), h(2,3))", "f()", "a * /* no */ b // end"] {
        let expected: String = text
            .replace("/* no */", "")
            .replace("// end", "")
            .chars()
            .filter(|c| !c.is_whitespace())
            .collect();
        assert_eq!(text_of(&slr.parse_from_string(&g, text).unwrap()), expected);
        assert_eq!(text_of(&lalr1.parse_from_string(&g, text).unwrap()), expected);
    }
    for text in ["", "a+", "(a", "a b", "f(,)", "1 2"] {
        assert!(slr.parse_from_string(&g, text).is_err());
        assert!(lalr1.parse_from_string(&g, text).is_err());
    }
    let d = slr.parse_from_string(&g, "a+b*c").unwrap();
    let top = d.children(d.root());
    assert_eq!(d.node(d.root()).unwrap().rule_index, 1);
    assert_eq!(text_of_node(&d, top[0]), "a");
    assert_eq!(text_of_node(&d, top[2]), "b*c");
}

fn text_of_node(d: &Derivation, id: usize) -> String {
    let mut out = Vec::new();
    leaves(d, id, &mut out);
    out.concat()
}

#[test]
fn the_rendered_table_puts_terminals_before_nonterminals() {
    let g = brackets();
    let p = GrammarParserSLR1::from_grammar(&g);
    let text = p.get_parse_table().to_prettytable();
    assert_eq!(text.symbols, vec!["'b'", "'a'", "$", "S"]);
    assert_eq!(text.rows.len(), 5);
    assert_eq!(text.rows[0], vec!["r2", "s1", "r2", "4"]);
    assert_eq!(text.rows[1], vec!["r2", "s1", "r2", "2"]);
    assert_eq!(text.rows[2], vec!["s3", "", "", ""]);
    assert_eq!(text.rows[3], vec!["r1", "", "r1", ""]);
    assert_eq!(text.rows[4], vec!["", "", "acc", ""]);
}
