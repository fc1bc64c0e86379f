use lexion::grammar::{Grammar, GrammarRule};

fn rule(left: &str, right: &[&str]) -> GrammarRule {
    GrammarRule { left: left.to_string(), right: right.iter().map(|s| s.to_string()).collect() }
}

fn set_of(items: &[&str]) -> Vec<String> {
    let mut v: Vec<String> = items.iter().map(|s| s.to_string()).collect();
    v.sort();
    v
}

fn sorted(set: &lexion::text::StringSet) -> Vec<String> {
    let mut v = set.to_vec();
    v.sort();
    v
}

fn brackets() -> Grammar {
    Grammar::from_rules(vec![rule("S", &["'a'", "S", "'b'"]), rule("S", &["ε"])])
}

fn expression() -> Grammar {
    Grammar::from_rules(vec![
        rule("E", &["T", "E2"]),
        rule("E2", &["'+'", "T", "E2"]),
        rule("E2", &["ε"]),
        rule("T", &["F", "T2"]),
        rule("T2", &["'*'", "F", "T2"]),
        rule("T2", &["ε"]),
        rule("F", &["'('", "E", "')'"]),
        rule("F", &["'id'"]),
    ])
}

#[test]
fn terminal_classification() {
    assert!(Grammar::is_terminal("$"));
    assert!(Grammar::is_terminal("ε"));
    assert!(Grammar::is_terminal("'a'"));
    assert!(Grammar::is_terminal("''"));
    assert!(!Grammar::is_terminal("'"));
    assert!(!Grammar::is_terminal("a"));
    assert!(!Grammar::is_terminal("'a"));
    assert!(!Grammar::is_terminal("'a\nb'"));
    assert!(Grammar::is_non_terminal("S"));
    assert!(!Grammar::is_non_terminal("'+'"));
}

#[test]
fn stringify_strips_quotes() {
    assert_eq!(Grammar::stringify("'if'"), "if");
    assert_eq!(Grammar::stringify("S"), "S");
    assert_eq!(Grammar::stringify("$"), "$");
    assert_eq!(Grammar::stringify("ε"), "ε");
    assert_eq!(Grammar::stringify_jsmachine("'->'"), "-=>");
    assert_eq!(Grammar::stringify_jsmachine("ε"), "''");
    assert_eq!(Grammar::stringify_jsmachine("'x'"), "x");
}

#[test]
fn augmented_rule_comes_first() {
    let g = brackets();
    assert_eq!(g.get_rules().len(), 3);
    assert_eq!(g.get_rule(0).left, "S'");
    assert_eq!(g.get_rule(0).right, vec!["S".to_string()]);
    assert_eq!(g.get_rule(1).left, "S");
    assert_eq!(g.get_start_symbol(), "S");
    assert_eq!(g.get_augmented_start_symbol(), "S'");
}

#[test]
fn terminals_in_order_of_first_occurrence() {
    let g = expression();
    assert_eq!(
        g.get_terminals().to_vec(),
        vec!["'+'", "'*'", "'('", "')'", "'id'", "$"]
    );
    assert_eq!(g.get_non_terminals().to_vec(), vec!["E", "T", "E2", "F", "T2"]);
}

#[test]
fn first_of_a_terminal_is_itself() {
    let g = expression();
    for t in ["'+'", "'*'", "'('", "')'", "'id'", "$", "ε"] {
        assert_eq!(sorted(&g.first_of(t).unwrap()), set_of(&[t]));
    }
}

#[test]
fn first_sets_of_the_expression_grammar() {
    let g = expression();
    assert_eq!(sorted(&g.first_of("E").unwrap()), set_of(&["'('", "'id'"]));
    assert_eq!(sorted(&g.first_of("T").unwrap()), set_of(&["'('", "'id'"]));
    assert_eq!(sorted(&g.first_of("F").unwrap()), set_of(&["'('", "'id'"]));
    assert_eq!(sorted(&g.first_of("E2").unwrap()), set_of(&["'+'", "ε"]));
    assert_eq!(sorted(&g.first_of("T2").unwrap()), set_of(&["'*'", "ε"]));
}

#[test]
fn follow_sets_of_the_expression_grammar() {
    let g = expression();
    assert_eq!(sorted(&g.follow_of("E").unwrap()), set_of(&["$", "')'"]));
    assert_eq!(sorted(&g.follow_of("E2").unwrap()), set_of(&["$", "')'"]));
    assert_eq!(sorted(&g.follow_of("T").unwrap()), set_of(&["'+'", "$", "')'"]));
    assert_eq!(sorted(&g.follow_of("T2").unwrap()), set_of(&["'+'", "$", "')'"]));
    assert_eq!(sorted(&g.follow_of("F").unwrap()), set_of(&["'*'", "'+'", "$", "')'"]));
}

#[test]
fn follow_of_the_start_symbol_holds_end_of_input() {
    assert!(brackets().follow_of("S").unwrap().contains("$"));
    assert!(expression().follow_of("E").unwrap().contains("$"));
}

#[test]
fn lookups_of_absent_symbols() {
    let g = expression();
    assert!(g.first_of("X").is_none());
    assert!(g.first_of("'-'").is_none());
    assert!(g.first_of("E'").is_none());
    assert!(g.follow_of("X").is_none());
    assert!(g.follow_of("'+'").is_none());
    assert!(g.follow_of("E'").is_none());
    assert!(g.first_of("E").is_some());
    assert!(g.follow_of("E").is_some());
}

#[test]
fn nullable_symbols() {
    let g = expression();
    assert!(g.is_nullable("E2"));
    assert!(g.is_nullable("T2"));
    assert!(!g.is_nullable("E"));
    assert!(!g.is_nullable("T"));
    assert!(!g.is_nullable("F"));
    assert!(!g.is_nullable("'+'"));
    assert!(!g.is_nullable("ε"));
    assert!(!g.is_nullable("X"));
    assert!(brackets().is_nullable("S"));
    assert!(brackets().is_nullable("S'"));
}

#[test]
fn nullable_needs_every_symbol_of_a_right_hand_side() {
    let g = Grammar::from_rules(vec![
        rule("A", &["B", "'x'"]),
        rule("B", &["ε"]),
        rule("C", &["B", "B"]),
    ]);
    assert!(g.is_nullable("B"));
    assert!(g.is_nullable("C"));
    assert!(!g.is_nullable("A"));
}

#[test]
fn no_terminal_is_nullable() {
    let g = Grammar::from_rules(vec![rule("'a", &["ε"])]);
    assert_eq!(g.get_augmented_start_symbol(), "'a'");
    assert!(Grammar::is_terminal("'a'"));
    assert!(g.is_nullable("'a"));
    assert!(!g.is_nullable("'a'"));
    assert!(!g.is_nullable_sequence(&["'a'".to_string()]));
    assert!(g.is_nullable_sequence(&["'a".to_string()]));
    assert!(!g.is_nullable("ε"));
    assert!(!g.is_nullable_sequence(&["ε".to_string()]));
}

#[test]
fn epsilon_beside_nullable_symbols_leaves_a_rule_nullable() {
    let g = Grammar::from_rules(vec![
        rule("A", &["B", "ε"]),
        rule("B", &["ε"]),
        rule("C", &["ε", "'x'"]),
    ]);
    assert!(g.is_nullable("B"));
    assert!(g.is_nullable("A"));
    assert!(g.is_nullable("A'"));
    assert!(!g.is_nullable("C"));
}

#[test]
fn nullable_sequences() {
    let g = expression();
    let both = vec!["E2".to_string(), "T2".to_string()];
    let mixed = vec!["E2".to_string(), "T".to_string()];
    assert!(g.is_nullable_sequence(&both));
    assert!(!g.is_nullable_sequence(&mixed));
    assert!(g.is_nullable_sequence(&[]));
}

#[test]
fn rules_with_a_terminal_on_the_left_define_patterns() {
    let g = Grammar::from_rules(vec![
        rule("'id'", &["[a-z]+"]),
        rule("S", &["'id'"]),
    ]);
    assert_eq!(g.get_rules().len(), 2);
    assert_eq!(g.get_start_symbol(), "S");
    assert_eq!(g.get_terminals().to_vec(), vec!["'id'", "$"]);
}

#[test]
fn token_types_of_a_grammar() {
    let g = Grammar::from_rules(vec![
        rule("'id'", &["[a-z]+"]),
        rule("S", &["'id'", "'+'", "S"]),
        rule("S", &["'if'", "'('", "S", "')'"]),
        rule("S", &["ε"]),
    ]);
    let types: Vec<(String, String)> =
        g.get_token_types().into_iter().map(|t| (t.name, t.pattern)).collect();
    let expected = vec![
        ("", r"^\s+"),
        ("", r"^\/\/.*"),
        ("", r"^\/\*[\s\S]*?\*\/"),
        ("'+'", r"^\+"),
        ("'if'", "^if"),
        ("'('", r"^\("),
        ("')'", r"^\)"),
        ("'id'", "^[a-z]+"),
    ];
    let expected: Vec<(String, String)> =
        expected.into_iter().map(|(a, b)| (a.to_string(), b.to_string())).collect();
    assert_eq!(types, expected);
}

#[test]
fn rules_in_text() {
    let r = rule("S", &["'a'", "S", "'->'", "ε"]);
    assert_eq!(r.to_string(), "S -> 'a' S '->' ε");
    assert_eq!(r.to_jsmachine_string(), "S -> a S -=> ''");
    assert_eq!(brackets().to_jsmachine_string(), "S' -> S\nS -> a S b\nS -> ''");
}

#[test]
fn grammar_in_text() {
    let text = brackets().to_string();
    let expected = "Grammar {\n  S\n  Rules {\n    S' -> S\n    S -> 'a' S 'b'\n    S -> ε\n  }\n  \
                    Non-terminals {\n    S\n  }\n  Tokens {\n    ['a'] -> /^a/\n    ['b'] -> /^b/\n  }\n}";
    assert_eq!(text, expected);
}
