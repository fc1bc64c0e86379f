//! The mathematical model of a grammar: rules over symbols, the symbol
//! classes, and the nullable, FIRST and FOLLOW sets as least fixed points.

use vstd::prelude::*;
use crate::fixpoint::{lemma_lfp_derives, lemma_lfp_unfold, level, lfp, monotone};
use crate::text::push_distinct;

verus! {

/// The end-of-input symbol.
pub const EOF: &'static str = "$";

/// The marker of an empty production.
pub const EPSILON: &'static str = "ε";

/// A grammar symbol, as its characters.
pub type Symbol = Seq<char>;

/// A fact `(x, t)`: terminal `t` belongs to the set computed for symbol `x`.
pub type Fact = (Seq<char>, Seq<char>);

/// A production `left -> right`.
pub struct RuleView {
    pub left: Seq<char>,
    pub right: Seq<Seq<char>>,
}

/// A symbol written between single quotes, with no line break between them.
pub open spec fn is_quoted(s: Symbol) -> bool {
    &&& s.len() >= 2
    &&& s[0] == '\''
    &&& s[s.len() - 1] == '\''
    &&& forall|i: int| 1 <= i < s.len() - 1 ==> s[i] != '\n'
}

/// A symbol is a terminal if it is the end-of-input symbol, the epsilon
/// marker or a quoted literal; every other symbol is a nonterminal.
pub open spec fn is_terminal(s: Symbol) -> bool {
    s == EOF@ || s == EPSILON@ || is_quoted(s)
}

/// The text of a symbol: a quoted literal without its quotes, any other
/// symbol unchanged.
pub open spec fn stringify(s: Symbol) -> Seq<char> {
    if s == EOF@ || s == EPSILON@ || !is_terminal(s) {
        s
    } else {
        s.subrange(1, s.len() - 1)
    }
}

/// The rules of `input` whose left-hand side is a terminal (`terminal` is
/// true) or a nonterminal (it is false), in their order.
pub open spec fn rules_with(input: Seq<RuleView>, terminal: bool) -> Seq<RuleView>
    decreases input.len(),
{
    if input.len() == 0 {
        Seq::empty()
    } else {
        let rest = rules_with(input.drop_last(), terminal);
        if is_terminal(input.last().left) == terminal {
            rest.push(input.last())
        } else {
            rest
        }
    }
}

/// The productions of a rule list: its rules with a nonterminal on the left.
pub open spec fn production_rules(input: Seq<RuleView>) -> Seq<RuleView> {
    rules_with(input, false)
}

/// The rules with a terminal on the left: each gives the token pattern of
/// that terminal as its first right-hand symbol.
pub open spec fn pattern_rules(input: Seq<RuleView>) -> Seq<RuleView> {
    rules_with(input, true)
}

/// The name of the augmented start symbol for start symbol `start`.
pub open spec fn augmented_symbol(start: Symbol) -> Symbol {
    start + seq!['\'']
}

/// The rule list of the grammar built from `productions`: the augmented rule
/// `start' -> start` followed by the productions.
pub open spec fn augment(productions: Seq<RuleView>) -> Seq<RuleView> {
    seq![
        RuleView {
            left: augmented_symbol(productions[0].left),
            right: seq![productions[0].left],
        },
    ] + productions
}

/// The nonterminals met while scanning one right-hand side.
pub open spec fn scan_right_nonterminals(acc: Seq<Symbol>, right: Seq<Symbol>) -> Seq<Symbol>
    decreases right.len(),
{
    if right.len() == 0 {
        acc
    } else {
        let a = scan_right_nonterminals(acc, right.drop_last());
        if is_terminal(right.last()) {
            a
        } else {
            push_distinct(a, right.last())
        }
    }
}

/// The nonterminals of `productions` in order of first occurrence, each
/// rule's left-hand side before its right-hand side.
pub open spec fn scan_nonterminals(productions: Seq<RuleView>) -> Seq<Symbol>
    decreases productions.len(),
{
    if productions.len() == 0 {
        Seq::empty()
    } else {
        scan_right_nonterminals(
            push_distinct(scan_nonterminals(productions.drop_last()), productions.last().left),
            productions.last().right,
        )
    }
}

/// The terminals other than epsilon met while scanning one right-hand side.
pub open spec fn scan_right_terminals(acc: Seq<Symbol>, right: Seq<Symbol>) -> Seq<Symbol>
    decreases right.len(),
{
    if right.len() == 0 {
        acc
    } else {
        let a = scan_right_terminals(acc, right.drop_last());
        if is_terminal(right.last()) && right.last() != EPSILON@ {
            push_distinct(a, right.last())
        } else {
            a
        }
    }
}

/// The terminals that occur in right-hand sides, in order of first
/// occurrence.
pub open spec fn scan_terminals(productions: Seq<RuleView>) -> Seq<Symbol>
    decreases productions.len(),
{
    if productions.len() == 0 {
        Seq::empty()
    } else {
        scan_right_terminals(scan_terminals(productions.drop_last()), productions.last().right)
    }
}

/// The terminal set of a grammar, in order: the terminals of its right-hand
/// sides, then the end-of-input symbol.
pub open spec fn terminals_of(productions: Seq<RuleView>) -> Seq<Symbol> {
    push_distinct(scan_terminals(productions), EOF@)
}

/// Whether `x` belongs to the symbol set of the grammar: its terminals, its
/// nonterminals, epsilon and end-of-input.
pub open spec fn is_symbol(productions: Seq<RuleView>, x: Symbol) -> bool {
    terminals_of(productions).contains(x) || scan_nonterminals(productions).contains(x) || x
        == EPSILON@
}

/// The members of `names` whose mark is set, in their order.
pub open spec fn pick(names: Seq<Symbol>, marks: Seq<bool>) -> Seq<Symbol>
    decreases names.len(),
{
    if names.len() == 0 || marks.len() != names.len() {
        Seq::empty()
    } else {
        let rest = pick(names.drop_last(), marks.drop_last());
        if marks.last() {
            rest.push(names.last())
        } else {
            rest
        }
    }
}

/// The picked members are those whose mark is set, each once.
pub proof fn lemma_pick(names: Seq<Symbol>, marks: Seq<bool>)
    requires
        names.no_duplicates(),
        marks.len() == names.len(),
    ensures
        pick(names, marks).no_duplicates(),
        forall|s: Symbol|
            pick(names, marks).contains(s) <==> exists|t: int|
                0 <= t < names.len() && marks[t] && #[trigger] names[t] == s,
    decreases names.len(),
{
    if names.len() > 0 {
        let n1 = names.drop_last();
        let m1 = marks.drop_last();
        lemma_pick(n1, m1);
        let rest = pick(n1, m1);
        let all = pick(names, marks);
        assert forall|s: Symbol| all.contains(s) <==> exists|t: int|
            0 <= t < names.len() && marks[t] && #[trigger] names[t] == s by {
            if all.contains(s) {
                let k = choose|k: int| 0 <= k < all.len() && all[k] == s;
                if k < rest.len() {
                    assert(rest[k] == s);
                    assert(rest.contains(s));
                    let t = choose|t: int| 0 <= t < n1.len() && m1[t] && #[trigger] n1[t] == s;
                    assert(names[t] == s && marks[t]);
                } else {
                    assert(names[names.len() - 1] == s);
                }
            }
            if exists|t: int| 0 <= t < names.len() && marks[t] && #[trigger] names[t] == s {
                let t = choose|t: int| 0 <= t < names.len() && marks[t] && #[trigger] names[t] == s;
                if t < n1.len() {
                    assert(n1[t] == s && m1[t]);
                    assert(rest.contains(s));
                    let k = choose|k: int| 0 <= k < rest.len() && rest[k] == s;
                    assert(all[k] == s);
                } else {
                    assert(all[all.len() - 1] == s);
                }
            }
        }
        if marks.last() {
            if rest.contains(names.last()) {
                let t = choose|t: int| 0 <= t < n1.len() && m1[t] && #[trigger] n1[t] == names.last();
                assert(names[t] == names[names.len() - 1]);
            }
        }
    }
}

/// Every symbol of `right` is a member of `s`.
pub open spec fn all_in(right: Seq<Symbol>, s: Set<Symbol>) -> bool {
    forall|j: int| 0 <= j < right.len() ==> s.contains(#[trigger] right[j])
}

/// Every symbol of `right` is epsilon or a member of `s`: the right-hand
/// side derives the empty string when the members of `s` do.
pub open spec fn all_vanish(right: Seq<Symbol>, s: Set<Symbol>) -> bool {
    forall|j: int| 0 <= j < right.len() ==> (#[trigger] right[j]) == EPSILON@ || s.contains(right[j])
}

/// One round of the nullable computation: the nonterminals on the left of a
/// rule whose right-hand side holds nothing but epsilon and members of `s`.
/// The epsilon production is such a rule whatever `s` is.
pub open spec fn nullable_step(rules: Seq<RuleView>) -> spec_fn(Set<Symbol>) -> Set<Symbol> {
    |s: Set<Symbol>|
        Set::new(
            |a: Symbol|
                !is_terminal(a) && exists|i: int|
                    0 <= i < rules.len() && (#[trigger] rules[i]).left == a && all_vanish(
                        rules[i].right,
                        s,
                    ),
        )
}

/// The nullable symbols of `rules`: the nonterminals that derive the empty
/// string.
pub open spec fn nullable_set(rules: Seq<RuleView>) -> Set<Symbol> {
    lfp(nullable_step(rules))
}

/// Epsilon belongs to the set of each of `right[from..to]`.
pub open spec fn eps_between(right: Seq<Symbol>, s: Set<Fact>, from: int, to: int) -> bool {
    forall|p: int| from <= p < to ==> s.contains((#[trigger] right[p], EPSILON@))
}

/// Terminal `t` reaches the FIRST set of a rule with right-hand side `right`
/// through position `j`: it is a non-epsilon member of the set of `right[j]`
/// and all earlier positions hold epsilon; or `j` is the end, every position
/// holds epsilon, and `t` is epsilon.
pub open spec fn first_from_rule(right: Seq<Symbol>, s: Set<Fact>, j: int, t: Symbol) -> bool {
    ||| 0 <= j < right.len() && t != EPSILON@ && s.contains((right[j], t)) && eps_between(
        right,
        s,
        0,
        j,
    )
    ||| j == right.len() && t == EPSILON@ && eps_between(right, s, 0, j)
}

/// One round of the FIRST computation.
pub open spec fn first_step(rules: Seq<RuleView>) -> spec_fn(Set<Fact>) -> Set<Fact> {
    |s: Set<Fact>|
        Set::new(
            |f: Fact|
                if is_terminal(f.0) {
                    f.1 == f.0
                } else {
                    exists|i: int, j: int|
                        0 <= i < rules.len() && (#[trigger] rules[i]).left == f.0
                            && #[trigger] first_from_rule(rules[i].right, s, j, f.1)
                },
        )
}

/// All facts `(x, t)` with `t` in FIRST(`x`).
pub open spec fn first_facts(rules: Seq<RuleView>) -> Set<Fact> {
    lfp(first_step(rules))
}

/// FIRST(`x`).
pub open spec fn first_set(rules: Seq<RuleView>, x: Symbol) -> Set<Symbol> {
    Set::new(|t: Symbol| first_facts(rules).contains((x, t)))
}

/// Terminal `t` reaches FOLLOW of the symbol at position `p` of rule `i`
/// through position `j`: it is a non-epsilon member of FIRST(`right[j]`)
/// and epsilon is in FIRST of everything between; or `j` is the end,
/// epsilon is in FIRST of everything after `p`, and `t` follows the rule's
/// left-hand side according to `s`.
pub open spec fn follow_from_rule(
    rules: Seq<RuleView>,
    s: Set<Fact>,
    i: int,
    p: int,
    j: int,
    t: Symbol,
) -> bool {
    let right = rules[i].right;
    ||| p < j < right.len() && t != EPSILON@ && first_facts(rules).contains((right[j], t))
        && eps_between(right, first_facts(rules), p + 1, j)
    ||| j == right.len() && eps_between(right, first_facts(rules), p + 1, j) && s.contains(
        (rules[i].left, t),
    )
}

/// One round of the FOLLOW computation.
pub open spec fn follow_step(rules: Seq<RuleView>, start: Symbol) -> spec_fn(Set<Fact>) -> Set<
    Fact,
> {
    |s: Set<Fact>|
        Set::new(
            |f: Fact|
                !is_terminal(f.0) && ((f.0 == start && f.1 == EOF@) || exists|
                    i: int,
                    p: int,
                    j: int,
                |
                    0 <= i < rules.len() && 0 <= p < rules[i].right.len() && (
                    #[trigger] rules[i]).right[p] == f.0 && #[trigger] follow_from_rule(
                        rules,
                        s,
                        i,
                        p,
                        j,
                        f.1,
                    )),
        )
}

/// All facts `(b, t)` with `t` in FOLLOW(`b`).
pub open spec fn follow_facts(rules: Seq<RuleView>, start: Symbol) -> Set<Fact> {
    lfp(follow_step(rules, start))
}

/// FOLLOW(`b`).
pub open spec fn follow_set(rules: Seq<RuleView>, start: Symbol, b: Symbol) -> Set<Symbol> {
    Set::new(|t: Symbol| follow_facts(rules, start).contains((b, t)))
}

/// The round of the nullable computation is monotone.
pub proof fn lemma_nullable_monotone(rules: Seq<RuleView>)
    ensures
        monotone(nullable_step(rules)),
{
    let step = nullable_step(rules);
    assert forall|a: Set<Symbol>, b: Set<Symbol>| a.subset_of(b) implies #[trigger] step(
        a,
    ).subset_of(#[trigger] step(b)) by {
        let sa = step(a);
        let sb = step(b);
        assert forall|x: Symbol| sa.contains(x) implies sb.contains(x) by {
            let i = choose|i: int|
                0 <= i < rules.len() && (#[trigger] rules[i]).left == x && all_vanish(
                    rules[i].right,
                    a,
                );
            assert(all_vanish(rules[i].right, b));
        }
    }
}

/// The round of the FIRST computation is monotone.
pub proof fn lemma_first_monotone(rules: Seq<RuleView>)
    ensures
        monotone(first_step(rules)),
{
    let step = first_step(rules);
    assert forall|a: Set<Fact>, b: Set<Fact>| a.subset_of(b) implies #[trigger] step(a).subset_of(
        #[trigger] step(b),
    ) by {
        let sa = step(a);
        let sb = step(b);
        assert forall|f: Fact| sa.contains(f) implies sb.contains(f) by {
            if !is_terminal(f.0) {
                let (i, j) = choose|i: int, j: int|
                    0 <= i < rules.len() && (#[trigger] rules[i]).left == f.0
                        && #[trigger] first_from_rule(rules[i].right, a, j, f.1);
                assert(first_from_rule(rules[i].right, b, j, f.1));
            }
        }
    }
}

/// The round of the FOLLOW computation is monotone.
pub proof fn lemma_follow_monotone(rules: Seq<RuleView>, start: Symbol)
    ensures
        monotone(follow_step(rules, start)),
{
    let step = follow_step(rules, start);
    assert forall|a: Set<Fact>, b: Set<Fact>| a.subset_of(b) implies #[trigger] step(a).subset_of(
        #[trigger] step(b),
    ) by {
        let sa = step(a);
        let sb = step(b);
        assert forall|f: Fact| sa.contains(f) implies sb.contains(f) by {
            if !(f.0 == start && f.1 == EOF@) {
                let (i, p, j) = choose|i: int, p: int, j: int|
                    0 <= i < rules.len() && 0 <= p < rules[i].right.len() && (
                    #[trigger] rules[i]).right[p] == f.0 && #[trigger] follow_from_rule(
                        rules,
                        a,
                        i,
                        p,
                        j,
                        f.1,
                    );
                assert(follow_from_rule(rules, b, i, p, j, f.1));
            }
        }
    }
}

/// A nonterminal on the left of a rule is nullable when every symbol of the
/// right-hand side is epsilon or nullable.
pub proof fn lemma_nullable_intro(rules: Seq<RuleView>, i: int)
    requires
        0 <= i < rules.len(),
        !is_terminal(rules[i].left),
        all_vanish(rules[i].right, nullable_set(rules)),
    ensures
        nullable_set(rules).contains(rules[i].left),
{
    let step = nullable_step(rules);
    lemma_nullable_monotone(rules);
    let right = rules[i].right;
    let keep = |x: Symbol| x != EPSILON@;
    let premises = right.filter(keep);
    assert forall|j: int| 0 <= j < right.len() implies (#[trigger] right[j]) == EPSILON@
        || premises.to_set().contains(right[j]) by {
        if right[j] != EPSILON@ {
            assert(keep(right[j]));
            right.lemma_filter_contains(keep, j);
            let k = choose|k: int| 0 <= k < premises.len() && premises[k] == right[j];
            assert(premises.to_set().contains(premises[k]));
        }
    }
    assert forall|k: int| 0 <= k < premises.len() implies nullable_set(rules).contains(
        #[trigger] premises[k],
    ) by {
        right.lemma_filter_pred(keep, k);
        assert(premises.contains(premises[k]));
        right.lemma_filter_contains_rev(keep, premises[k]);
        let j = choose|j: int| 0 <= j < right.len() && right[j] == premises[k];
        assert(right[j] != EPSILON@);
    }
    assert(all_vanish(right, premises.to_set()));
    assert(step(premises.to_set()).contains(rules[i].left));
    lemma_lfp_derives(step, premises, rules[i].left);
}

/// A nullable symbol is a nonterminal on the left of a rule whose right-hand
/// side holds nothing but epsilon and nullable symbols.
pub proof fn lemma_nullable_elim(rules: Seq<RuleView>, a: Symbol) -> (i: int)
    requires
        nullable_set(rules).contains(a),
    ensures
        !is_terminal(a),
        0 <= i < rules.len(),
        rules[i].left == a,
        all_vanish(rules[i].right, nullable_set(rules)),
{
    let step = nullable_step(rules);
    lemma_nullable_monotone(rules);
    lemma_lfp_unfold(step, a);
    choose|i: int|
        0 <= i < rules.len() && (#[trigger] rules[i]).left == a && all_vanish(
            rules[i].right,
            nullable_set(rules),
        )
}

/// A nonterminal is nullable exactly when some rule with it on the left has
/// a right-hand side in which every symbol is epsilon or nullable; the
/// epsilon production is such a rule.
pub proof fn lemma_nullable_exactly(rules: Seq<RuleView>, a: Symbol)
    requires
        !is_terminal(a),
    ensures
        nullable_set(rules).contains(a) <==> exists|i: int|
            0 <= i < rules.len() && (#[trigger] rules[i]).left == a && all_vanish(
                rules[i].right,
                nullable_set(rules),
            ),
{
    if nullable_set(rules).contains(a) {
        let i = lemma_nullable_elim(rules, a);
        assert(rules[i].left == a);
    }
    if exists|i: int|
        0 <= i < rules.len() && (#[trigger] rules[i]).left == a && all_vanish(
            rules[i].right,
            nullable_set(rules),
        ) {
        let i = choose|i: int|
            0 <= i < rules.len() && (#[trigger] rules[i]).left == a && all_vanish(
                rules[i].right,
                nullable_set(rules),
            );
        lemma_nullable_intro(rules, i);
    }
}

/// No terminal is nullable.
pub proof fn lemma_nullable_is_nonterminal(rules: Seq<RuleView>, a: Symbol)
    requires
        nullable_set(rules).contains(a),
    ensures
        !is_terminal(a),
{
    let i = lemma_nullable_elim(rules, a);
}

/// A fact that one round derives from FIRST facts is a FIRST fact.
pub proof fn lemma_first_intro(rules: Seq<RuleView>, i: int, j: int, t: Symbol)
    requires
        0 <= i < rules.len(),
        !is_terminal(rules[i].left),
        first_from_rule(rules[i].right, first_facts(rules), j, t),
    ensures
        first_facts(rules).contains((rules[i].left, t)),
{
    let step = first_step(rules);
    let right = rules[i].right;
    lemma_first_monotone(rules);
    let prefix = Seq::new(j as nat, |p: int| (right[p], EPSILON@));
    let premises = if j < right.len() {
        prefix.push((right[j], t))
    } else {
        prefix
    };
    assert forall|p: int| 0 <= p < j implies premises.to_set().contains(
        (#[trigger] right[p], EPSILON@),
    ) by {
        assert(premises[p] == (right[p], EPSILON@));
    }
    assert(eps_between(right, premises.to_set(), 0, j));
    if j < right.len() {
        assert(premises[j] == (right[j], t));
        assert(premises.to_set().contains((right[j], t)));
    }
    let f: Fact = (rules[i].left, t);
    let ps = premises.to_set();
    assert(rules[i].left == f.0 && first_from_rule(rules[i].right, ps, j, f.1));
    assert(step(ps).contains(f));
    lemma_lfp_derives(step, premises, (rules[i].left, t));
}

/// The FIRST set of a terminal is the terminal itself.
pub proof fn lemma_first_terminal(rules: Seq<RuleView>, x: Symbol)
    requires
        is_terminal(x),
    ensures
        first_set(rules, x) == set![x],
{
    let step = first_step(rules);
    lemma_first_monotone(rules);
    assert(step(Set::<Fact>::empty()).contains((x, x)));
    assert(level(step, 1).contains((x, x)));
    assert forall|t: Symbol| first_set(rules, x).contains(t) implies t == x by {
        lemma_lfp_unfold(step, (x, t));
    }
    assert(first_set(rules, x) =~= set![x]);
}

/// A FOLLOW fact that one round derives from FOLLOW facts is a FOLLOW fact.
pub proof fn lemma_follow_intro(
    rules: Seq<RuleView>,
    start: Symbol,
    i: int,
    p: int,
    j: int,
    t: Symbol,
)
    requires
        0 <= i < rules.len(),
        0 <= p < rules[i].right.len(),
        !is_terminal(rules[i].right[p]),
        follow_from_rule(rules, follow_facts(rules, start), i, p, j, t),
    ensures
        follow_facts(rules, start).contains((rules[i].right[p], t)),
{
    let step = follow_step(rules, start);
    lemma_follow_monotone(rules, start);
    let right = rules[i].right;
    let premises = if j == right.len() {
        seq![(rules[i].left, t)]
    } else {
        Seq::<Fact>::empty()
    };
    if j == right.len() {
        assert(premises[0] == (rules[i].left, t));
        assert(premises.to_set().contains((rules[i].left, t)));
    }
    let f: Fact = (right[p], t);
    let ps = premises.to_set();
    assert(rules[i].right[p] == f.0 && follow_from_rule(rules, ps, i, p, j, f.1));
    assert(step(ps).contains(f));
    lemma_lfp_derives(step, premises, (right[p], t));
}

/// End-of-input follows the start symbol.
pub proof fn lemma_follow_start(rules: Seq<RuleView>, start: Symbol)
    requires
        !is_terminal(start),
    ensures
        follow_set(rules, start, start).contains(EOF@),
{
    let step = follow_step(rules, start);
    assert(step(Set::<Fact>::empty()).contains((start, EOF@)));
    assert(level(step, 1).contains((start, EOF@)));
}

} // verus!
