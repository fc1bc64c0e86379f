//! Grammars in text, and the token types that a grammar asks for.

use vstd::prelude::*;
use crate::grammar::{stringify_jsmachine, symbol_machine_text, symbol_text, Grammar, GrammarRule};
use crate::grammar::model::{stringify, terminals_of, RuleView, Symbol, EOF};
use crate::text::{join, join_strings, owned, same, strs};
use crate::tokenizer::patterns::{escape, escaped};
use crate::tokenizer::token::{type_text, type_views, TokenType, TokenTypeView};
use crate::tokenizer::tokens::{MULTI_LINE_COMMENT, SINGLE_LINE_COMMENT, WHITESPACE};

verus! {

/// A rule in text: its sides with an arrow between them.
pub open spec fn rule_text(rule: RuleView) -> Seq<char> {
    rule.left + " -> "@ + join(rule.right, " "@)
}

/// A rule in machine notation.
pub open spec fn rule_machine_text(rule: RuleView) -> Seq<char> {
    rule.left + " -> "@ + join(rule.right.map_values(|s: Symbol| stringify_jsmachine(s)), " "@)
}

impl GrammarRule {
    /// The rule in text.
    pub fn to_string(&self) -> (s: String)
        ensures
            s@ == rule_text(self@),
    {
        let mut s = self.left.clone();
        s.append(" -> ");
        s.append(join_strings(&self.right, " ").as_str());
        s
    }

    /// The rule in machine notation.
    pub fn to_jsmachine_string(&self) -> (s: String)
        ensures
            s@ == rule_machine_text(self@),
    {
        let ghost wanted = self@.right.map_values(|s: Symbol| stringify_jsmachine(s));
        let mut parts: Vec<String> = Vec::new();
        let mut k: usize = 0;
        while k < self.right.len()
            invariant
                k <= self.right@.len(),
                wanted == self@.right.map_values(|s: Symbol| stringify_jsmachine(s)),
                parts@.len() == k,
                forall|j: int| 0 <= j < k ==> parts@[j]@ == wanted[j],
            decreases self.right@.len() - k,
        {
            assert(self@.right[k as int] == self.right@[k as int]@);
            parts.push(symbol_machine_text(self.right[k].as_str()));
            k += 1;
        }
        assert(strs(parts@) =~= wanted);
        let mut s = self.left.clone();
        s.append(" -> ");
        s.append(join_strings(&parts, " ").as_str());
        s
    }
}

/// The first of the first `upto` pattern rules that defines `t`.
pub open spec fn rule_for(patterns: Seq<RuleView>, t: Symbol, upto: int) -> Option<int>
    decreases upto,
{
    if upto <= 0 {
        None
    } else {
        match rule_for(patterns, t, upto - 1) {
            Some(i) => Some(i),
            None => if patterns[upto - 1].left == t {
                Some(upto - 1)
            } else {
                None
            },
        }
    }
}

/// The token type of terminal `t`: the pattern of its rule if it has one,
/// else the literal text of the terminal; each anchored at the position.
pub open spec fn type_of(patterns: Seq<RuleView>, t: Symbol) -> TokenTypeView {
    TokenTypeView {
        name: t,
        pattern: match rule_for(patterns, t, patterns.len() as int) {
            Some(i) => "^"@ + patterns[i].right[0],
            None => "^"@ + escaped(stringify(t)),
        },
    }
}

/// The token types of those of `terminals` that have a pattern rule
/// (`ruled` is true) or have none (it is false), end-of-input left out.
pub open spec fn types_of(patterns: Seq<RuleView>, terminals: Seq<Symbol>, ruled: bool) -> Seq<
    TokenTypeView,
>
    decreases terminals.len(),
{
    if terminals.len() == 0 {
        Seq::empty()
    } else {
        let rest = types_of(patterns, terminals.drop_last(), ruled);
        let t = terminals.last();
        if t != EOF@ && (rule_for(patterns, t, patterns.len() as int) is Some) == ruled {
            rest.push(type_of(patterns, t))
        } else {
            rest
        }
    }
}

/// The types of the text that is skipped: white space and the two kinds of
/// comment.
pub open spec fn skipped_types() -> Seq<TokenTypeView> {
    seq![
        TokenTypeView { name: Seq::empty(), pattern: WHITESPACE@ },
        TokenTypeView { name: Seq::empty(), pattern: SINGLE_LINE_COMMENT@ },
        TokenTypeView { name: Seq::empty(), pattern: MULTI_LINE_COMMENT@ },
    ]
}

/// The token types of a grammar, in the order in which the tokenizer tries
/// them: the skipped types, then the terminals without a pattern rule, then
/// those with one, each group in the order of the terminal set.
pub open spec fn token_types(patterns: Seq<RuleView>, terminals: Seq<Symbol>) -> Seq<TokenTypeView> {
    skipped_types() + types_of(patterns, terminals, false) + types_of(patterns, terminals, true)
}

/// The texts of the rules, each indented.
pub open spec fn indented(lines: Seq<Seq<char>>) -> Seq<Seq<char>> {
    lines.map_values(|l: Seq<char>| "    "@ + l)
}

/// The token types that have a name.
pub open spec fn named(types: Seq<TokenTypeView>) -> Seq<TokenTypeView>
    decreases types.len(),
{
    if types.len() == 0 {
        Seq::empty()
    } else if types.last().name.len() > 0 {
        named(types.drop_last()).push(types.last())
    } else {
        named(types.drop_last())
    }
}

impl Grammar {
    /// The number of the first pattern rule that defines `t`.
    fn find_pattern(&self, t: &str) -> (found: Option<usize>)
        ensures
            found matches Some(i) ==> rule_for(self.patterns(), t@, self.patterns().len() as int)
                == Some(i as int) && i < self.patterns().len(),
            found is None ==> rule_for(self.patterns(), t@, self.patterns().len() as int) is None,
    {
        let mut k: usize = 0;
        while k < self.terminal_rules.len()
            invariant
                k <= self.patterns().len(),
                rule_for(self.patterns(), t@, k as int) is None,
            decreases self.patterns().len() - k,
        {
            assert(self.patterns()[k as int] == self.terminal_rules@[k as int]@);
            if same(self.terminal_rules[k].left.as_str(), t) {
                proof {
                    lemma_rule_for_stays(self.patterns(), t@, k + 1, self.patterns().len() as int);
                }
                return Some(k);
            }
            k += 1;
        }
        None
    }

    /// The token types of the terminals that have a pattern rule, or of
    /// those that have none.
    fn collect_types(&self, ruled: bool, types: &mut Vec<TokenType>)
        requires
            self.wf(),
        ensures
            type_views(final(types)@) == type_views(old(types)@) + types_of(
                self.patterns(),
                terminals_of(self.productions()),
                ruled,
            ),
    {
        let ghost given = type_views(types@);
        let ghost terminals = self.terminals@;
        let ghost patterns = self.patterns();
        let mut k: usize = 0;
        while k < self.terminals.len()
            invariant
                self.wf(),
                terminals == self.terminals@,
                patterns == self.patterns(),
                k <= terminals.len(),
                type_views(types@) == given + types_of(patterns, terminals.take(k as int), ruled),
            decreases terminals.len() - k,
        {
            let t = self.terminals.get(k);
            proof {
                assert(terminals.take(k + 1).drop_last() =~= terminals.take(k as int));
                assert(terminals.take(k + 1).last() == t@);
            }
            if !same(t.as_str(), EOF) {
                let found = self.find_pattern(t.as_str());
                if found.is_some() == ruled {
                    let mut pattern = owned("^");
                    match found {
                        Some(i) => {
                            assert(patterns[i as int] == self.terminal_rules@[i as int]@);
                            assert(patterns[i as int].right.len() > 0);
                            assert(patterns[i as int].right[0] == self.terminal_rules@[i as int].right@[0]@);
                            pattern.append(self.terminal_rules[i].right[0].as_str());
                        },
                        None => {
                            pattern.append(escape(symbol_text(t.as_str()).as_str()).as_str());
                        },
                    }
                    let ghost before = type_views(types@);
                    types.push(TokenType { name: t.clone(), pattern });
                    assert(type_views(types@) =~= before.push(type_of(patterns, t@)));
                }
            }
            k += 1;
        }
        assert(terminals.take(terminals.len() as int) =~= terminals);
    }

    /// The token types that the tokenizer needs for the grammar.
    pub fn get_token_types(&self) -> (types: Vec<TokenType>)
        requires
            self.wf(),
        ensures
            type_views(types@) == token_types(self.patterns(), terminals_of(self.productions())),
    {
        let mut types: Vec<TokenType> = Vec::new();
        types.push(TokenType { name: String::new(), pattern: owned(WHITESPACE) });
        types.push(TokenType { name: String::new(), pattern: owned(SINGLE_LINE_COMMENT) });
        types.push(TokenType { name: String::new(), pattern: owned(MULTI_LINE_COMMENT) });
        assert(type_views(types@) =~= skipped_types());
        self.collect_types(false, &mut types);
        self.collect_types(true, &mut types);
        types
    }

    /// The grammar in machine notation: its rules, one to a line.
    pub fn to_jsmachine_string(&self) -> (s: String)
        ensures
            s@ == join(self@.map_values(|r: RuleView| rule_machine_text(r)), "\n"@),
    {
        let ghost wanted = self@.map_values(|r: RuleView| rule_machine_text(r));
        let mut parts: Vec<String> = Vec::new();
        let mut k: usize = 0;
        while k < self.rules.len()
            invariant
                k <= self.rules@.len(),
                wanted == self@.map_values(|r: RuleView| rule_machine_text(r)),
                parts@.len() == k,
                forall|j: int| 0 <= j < k ==> parts@[j]@ == wanted[j],
            decreases self.rules@.len() - k,
        {
            assert(self@[k as int] == self.rules@[k as int]@);
            parts.push(self.rules[k].to_jsmachine_string());
            k += 1;
        }
        assert(strs(parts@) =~= wanted);
        join_strings(&parts, "\n")
    }

    /// The grammar in text: its start symbol, its rules, its nonterminals
    /// and its named token types.
    pub fn to_string(&self) -> (s: String)
        requires
            self.wf(),
        ensures
            s@ == "Grammar {\n  "@ + self.start() + "\n  Rules {\n"@ + join(
                indented(self@.map_values(|r: RuleView| rule_text(r))),
                "\n"@,
            ) + "\n  }\n  Non-terminals {\n"@ + join(
                indented(crate::grammar::model::scan_nonterminals(self.productions())),
                "\n"@,
            ) + "\n  }\n  Tokens {\n"@ + join(
                indented(
                    named(
                        token_types(self.patterns(), terminals_of(self.productions())),
                    ).map_values(|t: TokenTypeView| type_text(t)),
                ),
                "\n"@,
            ) + "\n  }\n}"@,
    {
        let ghost rule_lines = indented(self@.map_values(|r: RuleView| rule_text(r)));
        let mut rules: Vec<String> = Vec::new();
        let mut k: usize = 0;
        while k < self.rules.len()
            invariant
                k <= self.rules@.len(),
                rule_lines == indented(self@.map_values(|r: RuleView| rule_text(r))),
                rules@.len() == k,
                forall|j: int| 0 <= j < k ==> rules@[j]@ == rule_lines[j],
            decreases self.rules@.len() - k,
        {
            assert(self@[k as int] == self.rules@[k as int]@);
            let mut line = owned("    ");
            line.append(self.rules[k].to_string().as_str());
            rules.push(line);
            k += 1;
        }
        assert(strs(rules@) =~= rule_lines);
        let ghost symbol_lines = indented(self.non_terminals@);
        let mut symbols: Vec<String> = Vec::new();
        let mut k: usize = 0;
        while k < self.non_terminals.len()
            invariant
                k <= self.non_terminals@.len(),
                symbol_lines == indented(self.non_terminals@),
                symbols@.len() == k,
                forall|j: int| 0 <= j < k ==> symbols@[j]@ == symbol_lines[j],
            decreases self.non_terminals@.len() - k,
        {
            let mut line = owned("    ");
            line.append(self.non_terminals.get(k).as_str());
            symbols.push(line);
            k += 1;
        }
        assert(strs(symbols@) =~= symbol_lines);
        let types = self.get_token_types();
        let ghost all = type_views(types@);
        let ghost type_lines = indented(named(all).map_values(|t: TokenTypeView| type_text(t)));
        let mut tokens: Vec<String> = Vec::new();
        let mut k: usize = 0;
        while k < types.len()
            invariant
                k <= types@.len(),
                all == type_views(types@),
                strs(tokens@) == indented(
                    named(all.take(k as int)).map_values(|t: TokenTypeView| type_text(t)),
                ),
            decreases types@.len() - k,
        {
            proof {
                assert(all.take(k + 1).drop_last() =~= all.take(k as int));
                assert(all.take(k + 1).last() == types@[k as int]@);
            }
            if types[k].name.as_str().unicode_len() > 0 {
                let mut line = owned("    [");
                line.append(types[k].name.as_str());
                line.append("] -> /");
                line.append(types[k].pattern.as_str());
                line.append("/");
                let ghost before = strs(tokens@);
                let ghost t = types@[k as int]@;
                proof {
                    reveal_strlit("    [");
                    reveal_strlit("    ");
                    reveal_strlit("[");
                    assert("    ["@ =~= "    "@ + "["@);
                    assert(line@ =~= "    "@ + type_text(t));
                }
                tokens.push(line);
                proof {
                    let shorter = named(all.take(k as int)).map_values(|t: TokenTypeView| type_text(t));
                    let longer = named(all.take(k + 1)).map_values(|t: TokenTypeView| type_text(t));
                    assert(longer =~= shorter.push(type_text(t)));
                    assert(strs(tokens@) =~= before.push("    "@ + type_text(t)));
                    assert(indented(longer) =~= indented(shorter).push("    "@ + type_text(t)));
                }
            }
            k += 1;
        }
        assert(all.take(types@.len() as int) =~= all);
        let mut s = owned("Grammar {\n  ");
        s.append(self.start_symbol.as_str());
        s.append("\n  Rules {\n");
        s.append(join_strings(&rules, "\n").as_str());
        s.append("\n  }\n  Non-terminals {\n");
        s.append(join_strings(&symbols, "\n").as_str());
        s.append("\n  }\n  Tokens {\n");
        s.append(join_strings(&tokens, "\n").as_str());
        s.append("\n  }\n}");
        s
    }
}

/// Once a rule is found among the first rules it stays the one found.
pub proof fn lemma_rule_for_stays(patterns: Seq<RuleView>, t: Symbol, from: int, upto: int)
    requires
        0 < from <= upto,
        rule_for(patterns, t, from) is Some,
    ensures
        rule_for(patterns, t, upto) == rule_for(patterns, t, from),
    decreases upto - from,
{
    if from < upto {
        lemma_rule_for_stays(patterns, t, from, upto - 1);
    }
}

} // verus!
