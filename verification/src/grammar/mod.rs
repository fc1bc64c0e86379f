//! Grammars: the rule list, the symbol classes and the derived sets.

pub mod derivation;
pub mod display;
pub mod first;
pub mod follow;
pub mod model;
pub mod nullable;
pub mod symbols;

use vstd::prelude::*;
use vstd::string::{StringExecFns, StrSliceExecFns};
use crate::fixpoint::cell;
use crate::grammar::first::{build_first_sets, lemma_first_within_table};
use crate::grammar::follow::{
    build_follow_sets, first_exact, follow_exact, lemma_follow_within_table,
};
use crate::grammar::model::{
    all_in, augment, augmented_symbol, first_facts, first_set, follow_facts, follow_set, is_quoted,
    is_symbol, is_terminal, lemma_nullable_elim, lemma_nullable_is_nonterminal, lemma_pick, nullable_set, pattern_rules, pick,
    production_rules, rules_with, scan_nonterminals, scan_right_nonterminals, scan_right_terminals,
    scan_terminals, stringify, terminals_of, RuleView, Symbol, EOF, EPSILON,
};
use crate::grammar::nullable::build_props_nullable;
use crate::grammar::symbols::{build_table, SymbolTable};
use crate::text::{clone_strings, lemma_push_distinct, owned, same, strs, StringSet};

verus! {

/// A production `left -> right`. An empty production is written with the
/// epsilon marker as its only right-hand symbol.
pub struct GrammarRule {
    pub left: String,
    pub right: Vec<String>,
}

impl View for GrammarRule {
    type V = RuleView;

    open spec fn view(&self) -> RuleView {
        RuleView { left: self.left@, right: strs(self.right@) }
    }
}

/// The productions that a sequence of rules stands for.
pub open spec fn rule_views(rules: Seq<GrammarRule>) -> Seq<RuleView> {
    rules.map_values(|r: GrammarRule| r@)
}

/// The symbol `'->'`, which the machine notation writes differently.
pub open spec fn arrow_literal() -> Seq<char> {
    seq!['\'', '-', '>', '\'']
}

/// A symbol in machine notation: `-=>` for the arrow literal, two quotes for
/// epsilon, the text of the symbol otherwise.
pub open spec fn stringify_jsmachine(s: Seq<char>) -> Seq<char> {
    if s == arrow_literal() {
        seq!['-', '=', '>']
    } else if s == EPSILON@ {
        seq!['\'', '\'']
    } else {
        stringify(s)
    }
}

/// Whether `symbol` is written as a quoted literal.
fn quoted(symbol: &str) -> (r: bool)
    ensures
        r == is_quoted(symbol@),
{
    let n = symbol.unicode_len();
    if n < 2 {
        return false;
    }
    if symbol.get_char(0) != '\'' || symbol.get_char(n - 1) != '\'' {
        return false;
    }
    let mut i: usize = 1;
    while i < n - 1
        invariant
            2 <= n == symbol@.len(),
            1 <= i <= n - 1,
            forall|k: int| 1 <= k < i ==> symbol@[k] != '\n',
        decreases n - i,
    {
        if symbol.get_char(i) == '\n' {
            return false;
        }
        i += 1;
    }
    true
}

/// Whether `symbol` is a terminal.
pub fn symbol_is_terminal(symbol: &str) -> (r: bool)
    ensures
        r == is_terminal(symbol@),
{
    same(symbol, EOF) || same(symbol, EPSILON) || quoted(symbol)
}

/// The text of `symbol`: a quoted literal loses its quotes.
pub fn symbol_text(symbol: &str) -> (r: String)
    ensures
        r@ == stringify(symbol@),
{
    if same(symbol, EOF) || same(symbol, EPSILON) || !quoted(symbol) {
        owned(symbol)
    } else {
        let n = symbol.unicode_len();
        owned(symbol.substring_char(1, n - 1))
    }
}

/// `symbol` in machine notation.
pub fn symbol_machine_text(symbol: &str) -> (r: String)
    ensures
        r@ == stringify_jsmachine(symbol@),
{
    proof {
        reveal_strlit("'->'");
        reveal_strlit("-=>");
        reveal_strlit("''");
        assert("'->'"@ =~= arrow_literal());
        assert("-=>"@ =~= seq!['-', '=', '>']);
        assert("''"@ =~= seq!['\'', '\'']);
    }
    if same(symbol, "'->'") {
        owned("-=>")
    } else if same(symbol, EPSILON) {
        owned("''")
    } else {
        symbol_text(symbol)
    }
}

/// `symbol` followed by a prime.
fn primed(symbol: &String) -> (r: String)
    ensures
        r@ == augmented_symbol(symbol@),
{
    proof {
        reveal_strlit("'");
        assert("'"@ =~= seq!['\'']);
    }
    symbol.clone().concat("'")
}

/// A copy of a rule.
pub fn clone_rule(rule: &GrammarRule) -> (r: GrammarRule)
    ensures
        r@ == rule@,
{
    GrammarRule { left: rule.left.clone(), right: clone_strings(&rule.right) }
}

/// The rules of `rules` whose left-hand side is a terminal, or those whose
/// left-hand side is a nonterminal.
fn select_rules(rules: &Vec<GrammarRule>, terminal: bool) -> (out: Vec<GrammarRule>)
    ensures
        rule_views(out@) == rules_with(rule_views(rules@), terminal),
{
    let ghost views = rule_views(rules@);
    let mut out: Vec<GrammarRule> = Vec::new();
    let mut i: usize = 0;
    while i < rules.len()
        invariant
            views == rule_views(rules@),
            i <= rules.len(),
            rule_views(out@) == rules_with(views.take(i as int), terminal),
        decreases rules.len() - i,
    {
        proof {
            assert(views.take(i + 1).drop_last() =~= views.take(i as int));
            assert(views.take(i + 1).last() == rules@[i as int]@);
        }
        if symbol_is_terminal(rules[i].left.as_str()) == terminal {
            let ghost before = rule_views(out@);
            out.push(clone_rule(&rules[i]));
            assert(rule_views(out@) =~= before.push(rules@[i as int]@));
        }
        i += 1;
    }
    assert(views.take(rules.len() as int) =~= views);
    out
}

/// The nonterminals and the terminals of `productions`, each in order of
/// first occurrence, the terminals followed by end-of-input.
fn build_symbols(productions: &Vec<GrammarRule>) -> (sets: (StringSet, StringSet))
    ensures
        sets.0.wf(),
        sets.1.wf(),
        sets.0@ == scan_nonterminals(rule_views(productions@)),
        sets.1@ == terminals_of(rule_views(productions@)),
{
    let ghost views = rule_views(productions@);
    let mut non_terminals = StringSet::new();
    let mut terminals = StringSet::new();
    let mut i: usize = 0;
    while i < productions.len()
        invariant
            views == rule_views(productions@),
            i <= productions.len(),
            non_terminals.wf(),
            terminals.wf(),
            non_terminals@ == scan_nonterminals(views.take(i as int)),
            terminals@ == scan_terminals(views.take(i as int)),
        decreases productions.len() - i,
    {
        let rule = &productions[i];
        proof {
            assert(views.take(i + 1).drop_last() =~= views.take(i as int));
            assert(views.take(i + 1).last() == rule@);
        }
        non_terminals.insert(rule.left.clone());
        let ghost seen = non_terminals@;
        let ghost seen_terminals = terminals@;
        let ghost right = rule@.right;
        let mut j: usize = 0;
        while j < rule.right.len()
            invariant
                right == strs(rule.right@),
                j <= rule.right.len(),
                non_terminals.wf(),
                terminals.wf(),
                non_terminals@ == scan_right_nonterminals(seen, right.take(j as int)),
                terminals@ == scan_right_terminals(seen_terminals, right.take(j as int)),
            decreases rule.right.len() - j,
        {
            let symbol = &rule.right[j];
            proof {
                assert(right.take(j + 1).drop_last() =~= right.take(j as int));
                assert(right.take(j + 1).last() == symbol@);
            }
            if symbol_is_terminal(symbol.as_str()) {
                if !same(symbol.as_str(), EPSILON) {
                    terminals.insert(symbol.clone());
                }
            } else {
                non_terminals.insert(symbol.clone());
            }
            j += 1;
        }
        assert(right.take(rule.right.len() as int) =~= right);
        i += 1;
    }
    assert(views.take(productions.len() as int) =~= views);
    terminals.insert(owned(EOF));
    (non_terminals, terminals)
}

/// The members of `table` whose mark is set in `row`.
fn marked_names(table: &SymbolTable, row: &Vec<bool>) -> (set: StringSet)
    requires
        table.names.wf(),
        row@.len() == table.size(),
    ensures
        set.wf(),
        set@ == pick(table.names@, row@),
{
    let n = table.names.len();
    let ghost names = table.names@;
    let mut items: Vec<String> = Vec::new();
    let mut t: usize = 0;
    while t < n
        invariant
            n == table.size(),
            names == table.names@,
            row@.len() == n,
            t <= n,
            strs(items@) == pick(names.take(t as int), row@.take(t as int)),
        decreases n - t,
    {
        proof {
            assert(names.take(t + 1).drop_last() =~= names.take(t as int));
            assert(row@.take(t + 1).drop_last() =~= row@.take(t as int));
        }
        if row[t] {
            let ghost before = strs(items@);
            items.push(table.names.get(t).clone());
            assert(strs(items@) =~= before.push(names[t as int]));
        }
        t += 1;
    }
    proof {
        assert(names.take(n as int) =~= names);
        assert(row@.take(n as int) =~= row@);
        lemma_pick(names, row@);
    }
    StringSet { items }
}

/// A grammar: its productions with the augmented rule in front, the rules
/// that define token patterns, and the sets derived from the productions.
pub struct Grammar {
    pub(crate) rules: Vec<GrammarRule>,
    pub(crate) terminal_rules: Vec<GrammarRule>,
    pub(crate) start_symbol: String,
    pub(crate) non_terminals: StringSet,
    pub(crate) terminals: StringSet,
    pub(crate) table: SymbolTable,
    pub(crate) nullable: Vec<bool>,
    pub(crate) first: Vec<Vec<bool>>,
    pub(crate) follow: Vec<Vec<bool>>,
}

impl View for Grammar {
    type V = Seq<RuleView>;

    /// The rule list: the augmented rule, then the productions.
    open(crate) spec fn view(&self) -> Seq<RuleView> {
        rule_views(self.rules@)
    }
}

impl Grammar {
    /// The rules that define token patterns.
    pub open(crate) spec fn patterns(&self) -> Seq<RuleView> {
        rule_views(self.terminal_rules@)
    }

    /// The productions: the rule list without the augmented rule.
    pub open spec fn productions(&self) -> Seq<RuleView> {
        self@.skip(1)
    }

    /// The start symbol: the left-hand side of the first production.
    pub open spec fn start(&self) -> Symbol {
        self@[1].left
    }

    /// The rule list is an augmented list of productions with nonempty
    /// right-hand sides, and the stored sets are those of the model.
    pub open(crate) spec fn wf(&self) -> bool {
        &&& self@.len() >= 2
        &&& self@ == augment(self.productions())
        &&& forall|i: int| 0 <= i < self@.len() ==> (#[trigger] self@[i]).right.len() > 0
        &&& forall|i: int| 1 <= i < self@.len() ==> !is_terminal((#[trigger] self@[i]).left)
        &&& forall|i: int|
            0 <= i < self.patterns().len() ==> (#[trigger] self.patterns()[i]).right.len() > 0
                && is_terminal(self.patterns()[i].left)
        &&& self.start_symbol@ == self.start()
        &&& self.non_terminals.wf()
        &&& self.terminals.wf()
        &&& self.non_terminals@ == scan_nonterminals(self.productions())
        &&& self.terminals@ == terminals_of(self.productions())
        &&& self.table.wf(self@)
        &&& forall|x: Symbol| is_symbol(self.productions(), x) ==> self.table.names@.contains(x)
        &&& self.nullable@.len() == self.table.size()
        &&& forall|x: int|
            0 <= x < self.table.size() ==> self.nullable@[x] == nullable_set(self@).contains(
                #[trigger] self.table.names@[x],
            )
        &&& first_exact(&self.table, self@, self.first@)
        &&& follow_exact(&self.table, self@, self.start(), self.follow@)
    }

    /// Builds the grammar of `rules`. Rules with a terminal on the left
    /// define token patterns; the others are the productions, of which the
    /// first names the start symbol.
    pub fn from_rules(rules: Vec<GrammarRule>) -> (g: Grammar)
        requires
            exists|i: int| 0 <= i < rules@.len() && !is_terminal(#[trigger] rules@[i].left@),
            forall|i: int| 0 <= i < rules@.len() ==> (#[trigger] rules@[i]).right@.len() > 0,
        ensures
            g.wf(),
            g@ == augment(production_rules(rule_views(rules@))),
            g.patterns() == pattern_rules(rule_views(rules@)),
    {
        let ghost input = rule_views(rules@);
        let terminal_rules = select_rules(&rules, true);
        let productions = select_rules(&rules, false);
        proof {
            assert forall|i: int| 0 <= i < input.len() implies (#[trigger] input[i]).right.len()
                > 0 by {
                assert(input[i] == rules@[i]@);
            }
            let w = choose|i: int| 0 <= i < rules@.len() && !is_terminal(#[trigger] rules@[i].left@);
            assert(input[w] == rules@[w]@);
            lemma_rules_with(input, false);
            lemma_rules_with(input, true);
            assert(rules_with(input, false).contains(input[w]));
        }
        let ghost prods = rule_views(productions@);
        assert(prods[0] == productions@[0]@);
        let start_symbol = productions[0].left.clone();
        let (non_terminals, terminals) = build_symbols(&productions);
        let augmented_name = primed(&start_symbol);
        let mut start_right: Vec<String> = Vec::new();
        start_right.push(start_symbol.clone());
        let mut all: Vec<GrammarRule> = Vec::new();
        all.push(GrammarRule { left: augmented_name, right: start_right });
        proof {
            assert(all@[0]@.right =~= seq![prods[0].left]);
            assert(rule_views(all@) =~= augment(prods).take(1));
        }
        let mut i: usize = 0;
        while i < productions.len()
            invariant
                i <= productions.len(),
                prods == rule_views(productions@),
                all@.len() == i + 1,
                rule_views(all@) == augment(prods).take(i + 1),
            decreases productions.len() - i,
        {
            let ghost before = rule_views(all@);
            all.push(clone_rule(&productions[i]));
            proof {
                assert(prods[i as int] == productions@[i as int]@);
                assert(rule_views(all@) =~= before.push(prods[i as int]));
                assert(augment(prods).take(i + 2) =~= augment(prods).take(i + 1).push(
                    prods[i as int],
                ));
            }
            i += 1;
        }
        let ghost views = rule_views(all@);
        proof {
            assert(augment(prods).take(productions.len() + 1) =~= augment(prods));
            assert(views.skip(1) =~= prods);
        }
        let mut seed = StringSet::new();
        let mut k: usize = 0;
        while k < non_terminals.len()
            invariant
                k <= non_terminals@.len(),
                seed.wf(),
                forall|a: int| 0 <= a < k ==> seed@.contains(#[trigger] non_terminals@[a]),
            decreases non_terminals@.len() - k,
        {
            let ghost before = seed@;
            proof {
                lemma_push_distinct(before, non_terminals@[k as int]);
            }
            seed.insert(non_terminals.get(k).clone());
            proof {
                assert forall|a: int| 0 <= a < k + 1 implies seed@.contains(
                    #[trigger] non_terminals@[a],
                ) by {
                    assert(seed@.to_set().contains(non_terminals@[a]));
                }
            }
            k += 1;
        }
        let mut k: usize = 0;
        while k < terminals.len()
            invariant
                k <= terminals@.len(),
                seed.wf(),
                forall|a: int|
                    0 <= a < non_terminals@.len() ==> seed@.contains(#[trigger] non_terminals@[a]),
                forall|a: int| 0 <= a < k ==> seed@.contains(#[trigger] terminals@[a]),
            decreases terminals@.len() - k,
        {
            let ghost before = seed@;
            proof {
                lemma_push_distinct(before, terminals@[k as int]);
            }
            seed.insert(terminals.get(k).clone());
            proof {
                assert forall|a: int| 0 <= a < k + 1 implies seed@.contains(
                    #[trigger] terminals@[a],
                ) by {
                    assert(seed@.to_set().contains(terminals@[a]));
                }
                assert forall|a: int| 0 <= a < non_terminals@.len() implies seed@.contains(
                    #[trigger] non_terminals@[a],
                ) by {
                    assert(before.to_set().contains(non_terminals@[a]));
                    assert(seed@.to_set().contains(non_terminals@[a]));
                }
            }
            k += 1;
        }
        let ghost seeded = seed@;
        let table = build_table(&all, seed);
        proof {
            assert forall|x: Symbol| is_symbol(prods, x) implies table.names@.contains(x) by {
                if x == EPSILON@ {
                    assert(table.names@[table.eps as int] == x);
                } else if terminals@.contains(x) {
                    let a = choose|a: int| 0 <= a < terminals@.len() && terminals@[a] == x;
                    assert(seeded.contains(terminals@[a]));
                    let b = choose|b: int| 0 <= b < seeded.len() && seeded[b] == x;
                    assert(table.names@.contains(seeded[b]));
                } else {
                    let a = choose|a: int| 0 <= a < non_terminals@.len() && non_terminals@[a] == x;
                    assert(seeded.contains(non_terminals@[a]));
                    let b = choose|b: int| 0 <= b < seeded.len() && seeded[b] == x;
                    assert(table.names@.contains(seeded[b]));
                }
            }
        }
        let nullable = build_props_nullable(&table, Ghost(views));
        let first = build_first_sets(&table, Ghost(views));
        proof {
            assert(views[0] == augment(prods)[0]);
            assert(views[1] == prods[0]);
            assert(table.right_ok(views, 0));
            assert(views[0].right[0] == prods[0].left);
        }
        let origin = table.rights[0][0];
        let follow = build_follow_sets(&table, &first, origin, Ghost(views), Ghost(prods[0].left));
        let g = Grammar {
            rules: all,
            terminal_rules,
            start_symbol,
            non_terminals,
            terminals,
            table,
            nullable,
            first,
            follow,
        };
        proof {
            assert(g@ == views);
            assert(g.productions() =~= prods);
            assert forall|i: int| 0 <= i < g@.len() implies (#[trigger] g@[i]).right.len() > 0 by {
                if i > 0 {
                    assert(g@[i] == prods[i - 1]);
                }
            }
            assert forall|i: int| 1 <= i < g@.len() implies !is_terminal((#[trigger] g@[i]).left) by {
                assert(g@[i] == prods[i - 1]);
            }
        }
        g
    }

    /// The rule at `rule_index`; index 0 is the augmented rule.
    pub fn get_rule(&self, rule_index: usize) -> (rule: &GrammarRule)
        requires
            rule_index < self@.len(),
        ensures
            rule@ == self@[rule_index as int],
    {
        &self.rules[rule_index]
    }

    /// The rule list: the augmented rule, then the productions.
    pub fn get_rules(&self) -> (rules: &Vec<GrammarRule>)
        ensures
            rule_views(rules@) == self@,
    {
        &self.rules
    }

    /// The start symbol.
    pub fn get_start_symbol(&self) -> (s: String)
        requires
            self.wf(),
        ensures
            s@ == self.start(),
    {
        self.start_symbol.clone()
    }

    /// The terminals, in order of first occurrence, end-of-input last.
    pub fn get_terminals(&self) -> (set: &StringSet)
        requires
            self.wf(),
        ensures
            set.wf(),
            set@ == terminals_of(self.productions()),
    {
        &self.terminals
    }

    /// The nonterminals, in order of first occurrence.
    pub fn get_non_terminals(&self) -> (set: &StringSet)
        requires
            self.wf(),
        ensures
            set.wf(),
            set@ == scan_nonterminals(self.productions()),
    {
        &self.non_terminals
    }

    /// The name of the augmented start symbol: the start symbol followed
    /// by a prime.
    pub fn get_augmented_start_symbol(&self) -> (s: String)
        requires
            self.wf(),
        ensures
            s@ == augmented_symbol(self.start()),
    {
        primed(&self.start_symbol)
    }

    /// Whether `symbol` belongs to the symbol set of the grammar.
    pub fn has_symbol(&self, symbol: &str) -> (r: bool)
        requires
            self.wf(),
        ensures
            r == is_symbol(self.productions(), symbol@),
    {
        self.terminals.contains(symbol) || self.non_terminals.contains(symbol) || same(
            symbol,
            EPSILON,
        )
    }

    /// FIRST(`symbol`), for a symbol of the grammar; `None` for any other
    /// string.
    pub fn first_of(&self, symbol: &str) -> (r: Option<StringSet>)
        requires
            self.wf(),
        ensures
            r is Some <==> is_symbol(self.productions(), symbol@),
            r matches Some(set) ==> set.wf() && set@.to_set() == first_set(self@, symbol@),
    {
        if !self.has_symbol(symbol) {
            return None;
        }
        match self.table.number_of(symbol) {
            None => None,
            Some(x) => {
                assert(self.first@[x as int]@.len() == self.table.size());
                let set = marked_names(&self.table, &self.first[x]);
                proof {
                    let names = self.table.names@;
                    let row = self.first@[x as int]@;
                    lemma_pick(names, row);
                    lemma_first_within_table(&self.table, self@);
                    assert forall|t: Symbol| set@.to_set().contains(t) <==> first_set(
                        self@,
                        symbol@,
                    ).contains(t) by {
                        if set@.contains(t) {
                            let k = choose|k: int| 0 <= k < names.len() && row[k] && #[trigger] names[k] == t;
                            assert(cell(self.first@, x as int, k));
                        }
                        if first_set(self@, symbol@).contains(t) {
                            assert(first_facts(self@).contains((symbol@, t)));
                            assert(names.contains(symbol@));
                            let k = choose|k: int| 0 <= k < names.len() && names[k] == t;
                            assert(cell(self.first@, x as int, k));
                            assert(row[k] && names[k] == t);
                        }
                    }
                    assert(set@.to_set() =~= first_set(self@, symbol@));
                }
                Some(set)
            },
        }
    }

    /// FOLLOW(`symbol`), for a nonterminal of the grammar; `None` for any
    /// other string.
    pub fn follow_of(&self, symbol: &str) -> (r: Option<StringSet>)
        requires
            self.wf(),
        ensures
            r is Some <==> scan_nonterminals(self.productions()).contains(symbol@),
            r matches Some(set) ==> set.wf() && set@.to_set() == follow_set(
                self@,
                self.start(),
                symbol@,
            ),
    {
        if !self.non_terminals.contains(symbol) {
            return None;
        }
        assert(is_symbol(self.productions(), symbol@));
        match self.table.number_of(symbol) {
            None => None,
            Some(x) => {
                assert(self.follow@[x as int]@.len() == self.table.size());
                let set = marked_names(&self.table, &self.follow[x]);
                proof {
                    let names = self.table.names@;
                    let row = self.follow@[x as int]@;
                    lemma_pick(names, row);
                    lemma_follow_within_table(&self.table, self@, self.start());
                    assert forall|t: Symbol| set@.to_set().contains(t) <==> follow_set(
                        self@,
                        self.start(),
                        symbol@,
                    ).contains(t) by {
                        if set@.contains(t) {
                            let k = choose|k: int| 0 <= k < names.len() && row[k] && #[trigger] names[k] == t;
                            assert(cell(self.follow@, x as int, k));
                        }
                        if follow_set(self@, self.start(), symbol@).contains(t) {
                            assert(follow_facts(self@, self.start()).contains((symbol@, t)));
                            assert(names.contains(symbol@));
                            let k = choose|k: int| 0 <= k < names.len() && names[k] == t;
                            assert(cell(self.follow@, x as int, k));
                            assert(row[k] && names[k] == t);
                        }
                    }
                    assert(set@.to_set() =~= follow_set(self@, self.start(), symbol@));
                }
                Some(set)
            },
        }
    }

    /// Whether `symbol` is nullable: a nonterminal that derives the empty
    /// string. No terminal is nullable.
    pub fn is_nullable(&self, symbol: &str) -> (r: bool)
        requires
            self.wf(),
        ensures
            r == nullable_set(self@).contains(symbol@),
            r ==> !is_terminal(symbol@),
    {
        proof {
            if nullable_set(self@).contains(symbol@) {
                lemma_nullable_is_nonterminal(self@, symbol@);
            }
        }
        match self.table.number_of(symbol) {
            Some(x) => self.nullable[x],
            None => {
                proof {
                    if nullable_set(self@).contains(symbol@) {
                        let i = lemma_nullable_elim(self@, symbol@);
                        assert(self.table.left_ok(self@, i));
                        assert(self.table.names@[self.table.lefts@[i] as int] == symbol@);
                    }
                }
                false
            },
        }
    }

    /// Whether every symbol of `sequence` is nullable. A sequence that
    /// holds a terminal is not.
    pub fn is_nullable_sequence(&self, sequence: &[String]) -> (r: bool)
        requires
            self.wf(),
        ensures
            r == all_in(strs(sequence@), nullable_set(self@)),
            r ==> forall|k: int| 0 <= k < sequence@.len() ==> !is_terminal(#[trigger] sequence@[k]@),
    {
        let mut j: usize = 0;
        while j < sequence.len()
            invariant
                self.wf(),
                j <= sequence@.len(),
                forall|k: int|
                    0 <= k < j ==> nullable_set(self@).contains(#[trigger] strs(sequence@)[k]),
                forall|k: int| 0 <= k < j ==> !is_terminal(#[trigger] sequence@[k]@),
            decreases sequence@.len() - j,
        {
            assert(strs(sequence@)[j as int] == sequence@[j as int]@);
            if !self.is_nullable(sequence[j].as_str()) {
                return false;
            }
            j += 1;
        }
        true
    }

    /// Whether `symbol` is a terminal.
    pub fn is_terminal(symbol: &str) -> (r: bool)
        ensures
            r == is_terminal(symbol@),
    {
        symbol_is_terminal(symbol)
    }

    /// Whether `symbol` is a nonterminal.
    pub fn is_non_terminal(symbol: &str) -> (r: bool)
        ensures
            r == !is_terminal(symbol@),
    {
        !symbol_is_terminal(symbol)
    }

    /// The text of `symbol`: a quoted literal loses its quotes.
    pub fn stringify(symbol: &str) -> (r: String)
        ensures
            r@ == stringify(symbol@),
    {
        symbol_text(symbol)
    }

    /// `symbol` in machine notation.
    pub fn stringify_jsmachine(symbol: &str) -> (r: String)
        ensures
            r@ == stringify_jsmachine(symbol@),
    {
        symbol_machine_text(symbol)
    }
}

/// End-of-input follows the start symbol of every grammar.
pub proof fn lemma_end_follows_start(grammar: &Grammar)
    requires
        grammar.wf(),
    ensures
        follow_set(grammar@, grammar.start(), grammar.start()).contains(EOF@),
{
    crate::grammar::model::lemma_follow_start(grammar@, grammar.start());
}

/// Every kept rule is a rule of the input, and every rule of the input of
/// the wanted kind is kept.
pub proof fn lemma_rules_with(input: Seq<RuleView>, terminal: bool)
    ensures
        forall|k: int|
            0 <= k < rules_with(input, terminal).len() ==> input.contains(
                #[trigger] rules_with(input, terminal)[k],
            ) && is_terminal(rules_with(input, terminal)[k].left) == terminal,
        forall|i: int|
            0 <= i < input.len() && is_terminal(input[i].left) == terminal ==> rules_with(
                input,
                terminal,
            ).contains(#[trigger] input[i]),
    decreases input.len(),
{
    if input.len() > 0 {
        let rest = input.drop_last();
        lemma_rules_with(rest, terminal);
        let kept = rules_with(rest, terminal);
        let all = rules_with(input, terminal);
        assert forall|k: int| 0 <= k < all.len() implies input.contains(#[trigger] all[k])
            && is_terminal(all[k].left) == terminal by {
            if k < kept.len() {
                assert(all[k] == kept[k]);
                assert(rest.contains(kept[k]));
                let i = choose|i: int| 0 <= i < rest.len() && rest[i] == kept[k];
                assert(input[i] == all[k]);
            } else {
                assert(input[input.len() - 1] == all[k]);
            }
        }
        assert forall|i: int|
            0 <= i < input.len() && is_terminal(input[i].left) == terminal implies all.contains(
            #[trigger] input[i],
        ) by {
            if i < rest.len() {
                assert(rest[i] == input[i]);
                assert(kept.contains(rest[i]));
                let k = choose|k: int| 0 <= k < kept.len() && kept[k] == input[i];
                assert(all[k] == input[i]);
            } else {
                assert(all[all.len() - 1] == input[i]);
            }
        }
    }
}

} // verus!
