use vstd::prelude::*;

use crate::grammar::{
    rules_for_spec, GrammarView, ProductionRule, RuleView, SymbolView, TernaryGrammar,
    TernarySymbol,
};
use crate::grammar::lhs_is;
use crate::parse_tree::{forest_leaves, tree_leaves, ParseNode, TreeView};
use crate::text::{ternary_label, ternary_text};

verus! {

/// How a parse attempt ends when at most `fuel` non-terminal expansions may be
/// nested: it runs out of that budget, fails, or succeeds with a value and the
/// position after the tokens it consumed.
pub enum Attempt<T> {
    OutOfFuel,
    Fail,
    Done(T, nat),
}

/// A leaf for the word `s`.
pub open spec fn word_leaf(s: Seq<char>) -> TreeView {
    TreeView { symbol: SymbolView::Terminal(s), children: Seq::empty() }
}

/// Recursive descent for one symbol at `pos`: a terminal (or raw value,
/// matched by its `T(v)` text) must equal the next token; a non-terminal tries
/// its rules in order and takes the first that succeeds.
pub open spec fn parse_symbol_spec(
    g: GrammarView,
    sym: SymbolView,
    toks: Seq<Seq<char>>,
    pos: nat,
    fuel: nat,
) -> Attempt<TreeView>
    decreases fuel, 0nat, 0nat,
{
    match sym {
        SymbolView::Terminal(s) => {
            if pos < toks.len() && toks[pos as int] == s {
                Attempt::Done(word_leaf(s), pos + 1)
            } else {
                Attempt::Fail
            }
        },
        SymbolView::Ternary(v) => {
            if pos < toks.len() && toks[pos as int] == ternary_label(v) {
                Attempt::Done(word_leaf(ternary_label(v)), pos + 1)
            } else {
                Attempt::Fail
            }
        },
        SymbolView::NonTerminal(_) => {
            if fuel == 0 {
                Attempt::OutOfFuel
            } else {
                parse_rules_spec(g, rules_for_spec(g, sym), toks, pos, (fuel - 1) as nat)
            }
        },
    }
}

/// The first of `rules` that parses at `pos`; a rule that runs out of budget
/// stops the search.
pub open spec fn parse_rules_spec(
    g: GrammarView,
    rules: Seq<RuleView>,
    toks: Seq<Seq<char>>,
    pos: nat,
    fuel: nat,
) -> Attempt<TreeView>
    decreases fuel, 2nat, rules.len(),
{
    if rules.len() == 0 {
        Attempt::Fail
    } else {
        match parse_rule_spec(g, rules[0], toks, pos, fuel) {
            Attempt::Fail => parse_rules_spec(g, rules.drop_first(), toks, pos, fuel),
            other => other,
        }
    }
}

/// One rule at `pos`: its right-hand side parsed left to right, under a node
/// for its left-hand side.
pub open spec fn parse_rule_spec(
    g: GrammarView,
    rule: RuleView,
    toks: Seq<Seq<char>>,
    pos: nat,
    fuel: nat,
) -> Attempt<TreeView>
    decreases fuel, 1nat, 0nat,
{
    match parse_sequence_spec(g, rule.rhs, toks, pos, fuel) {
        Attempt::Done(cs, p) => Attempt::Done(TreeView { symbol: rule.lhs, children: cs }, p),
        Attempt::Fail => Attempt::Fail,
        Attempt::OutOfFuel => Attempt::OutOfFuel,
    }
}

/// A sequence of symbols parsed one after another from `pos`.
pub open spec fn parse_sequence_spec(
    g: GrammarView,
    rhs: Seq<SymbolView>,
    toks: Seq<Seq<char>>,
    pos: nat,
    fuel: nat,
) -> Attempt<Seq<TreeView>>
    decreases fuel, 0nat, rhs.len(),
{
    if rhs.len() == 0 {
        Attempt::Done(Seq::empty(), pos)
    } else {
        match parse_symbol_spec(g, rhs[0], toks, pos, fuel) {
            Attempt::Done(c, p) => match parse_sequence_spec(g, rhs.drop_first(), toks, p, fuel) {
                Attempt::Done(cs, q) => Attempt::Done(seq![c] + cs, q),
                Attempt::Fail => Attempt::Fail,
                Attempt::OutOfFuel => Attempt::OutOfFuel,
            },
            Attempt::Fail => Attempt::Fail,
            Attempt::OutOfFuel => Attempt::OutOfFuel,
        }
    }
}

/// Recursive descent from the start symbol ends on `toks`: some bound on the
/// nesting of non-terminal expansions suffices.
pub open spec fn parse_terminates(g: GrammarView, toks: Seq<Seq<char>>) -> bool {
    exists|f: nat| !(#[trigger] parse_symbol_spec(g, g.start, toks, 0, f) is OutOfFuel)
}

/// A nesting bound under which recursive descent on `toks` ends.
pub open spec fn sufficient_fuel(g: GrammarView, toks: Seq<Seq<char>>) -> nat {
    choose|f: nat| !(#[trigger] parse_symbol_spec(g, g.start, toks, 0, f) is OutOfFuel)
}

/// The parse of `toks`: the tree that recursive descent from the start symbol
/// builds, when it consumes every token.
pub open spec fn parse_spec(g: GrammarView, toks: Seq<Seq<char>>) -> Option<TreeView> {
    match parse_symbol_spec(g, g.start, toks, 0, sufficient_fuel(g, toks)) {
        Attempt::Done(t, p) => if p == toks.len() {
            Some(t)
        } else {
            None
        },
        _ => None,
    }
}

/// A recursive-descent parser for a grammar.
pub struct TernaryParser {
    grammar: TernaryGrammar,
}

impl View for TernaryParser {
    type V = GrammarView;

    closed spec fn view(&self) -> GrammarView {
        self.grammar@
    }
}

impl TernaryParser {
    /// A parser for `grammar`.
    pub fn new(grammar: TernaryGrammar) -> (r: Self)
        ensures
            r@ == grammar@,
    {
        TernaryParser { grammar }
    }

    /// Parses all of `tokens` from the start symbol: `Some` tree when recursive
    /// descent succeeds and consumes every token, `None` otherwise. Grammars on
    /// which the descent never ends (left recursion reached on this input) are
    /// left out.
    pub fn parse(&self, tokens: &[String]) -> (r: Option<ParseNode>)
        requires
            parse_terminates(self@, tokens.deep_view()),
        ensures
            match r {
                Some(n) => parse_spec(self@, tokens.deep_view()) == Some(n@),
                None => parse_spec(self@, tokens.deep_view()) is None,
            },
    {
        let ghost fuel = sufficient_fuel(self@, tokens.deep_view());
        let start = self.grammar.start().duplicate();
        match self.parse_symbol(&start, tokens, 0, Ghost(fuel)) {
            Some((node, pos)) => {
                if pos == tokens.len() {
                    Some(node)
                } else {
                    None
                }
            },
            None => None,
        }
    }

    fn parse_symbol(&self, sym: &TernarySymbol, tokens: &[String], pos: usize, Ghost(fuel): Ghost<nat>) -> (r: Option<(ParseNode, usize)>)
        requires
            pos <= tokens.len(),
            !(parse_symbol_spec(self@, sym@, tokens.deep_view(), pos as nat, fuel) is OutOfFuel),
        ensures
            match r {
                Some((n, p)) => pos <= p <= tokens.len() && parse_symbol_spec(
                    self@,
                    sym@,
                    tokens.deep_view(),
                    pos as nat,
                    fuel,
                ) == Attempt::Done(n@, p as nat),
                None => parse_symbol_spec(self@, sym@, tokens.deep_view(), pos as nat, fuel) is Fail,
            },
        decreases fuel, 0nat,
    {
        let ghost toks = tokens.deep_view();
        match sym {
            TernarySymbol::Terminal(s) => {
                if pos < tokens.len() && tokens[pos].eq(s) {
                    let node = ParseNode { symbol: TernarySymbol::Terminal(s.clone()), children: Vec::new() };
                    assert(node@.children =~= Seq::<TreeView>::empty());
                    Some((node, pos + 1))
                } else {
                    None
                }
            },
            TernarySymbol::Ternary(v) => {
                let s = ternary_text(*v);
                if pos < tokens.len() && tokens[pos].eq(&s) {
                    let node = ParseNode { symbol: TernarySymbol::Terminal(s), children: Vec::new() };
                    assert(node@.children =~= Seq::<TreeView>::empty());
                    Some((node, pos + 1))
                } else {
                    None
                }
            },
            TernarySymbol::NonTerminal(_) => {
                let ghost f = (fuel - 1) as nat;
                let rules = self.grammar.rules_for(sym);
                let ghost rv = rules@.map_values(|x: &ProductionRule| x@);
                assert(rv.skip(0) =~= rv);
                for k in 0..rules.len()
                    invariant
                        fuel > 0,
                        f == fuel - 1,
                        pos <= tokens.len(),
                        toks == tokens.deep_view(),
                        rv == rules@.map_values(|x: &ProductionRule| x@),
                        rv == rules_for_spec(self@, sym@),
                        sym@ is NonTerminal,
                        parse_symbol_spec(self@, sym@, toks, pos as nat, fuel)
                            == parse_rules_spec(self@, rv.skip(k as int), toks, pos as nat, f),
                        !(parse_symbol_spec(self@, sym@, toks, pos as nat, fuel) is OutOfFuel),
                {
                    let rule = rules[k];
                    assert(rv.skip(k as int)[0] == rule@);
                    assert(rv.skip(k as int).drop_first() =~= rv.skip(k + 1));
                    if let Some((node, new_pos)) = self.try_rule(rule, tokens, pos, Ghost(f)) {
                        return Some((node, new_pos));
                    }
                }
                None
            },
        }
    }

    fn try_rule(&self, rule: &ProductionRule, tokens: &[String], pos: usize, Ghost(fuel): Ghost<nat>) -> (r: Option<(ParseNode, usize)>)
        requires
            pos <= tokens.len(),
            !(parse_rule_spec(self@, rule@, tokens.deep_view(), pos as nat, fuel) is OutOfFuel),
        ensures
            match r {
                Some((n, p)) => pos <= p <= tokens.len() && parse_rule_spec(
                    self@,
                    rule@,
                    tokens.deep_view(),
                    pos as nat,
                    fuel,
                ) == Attempt::Done(n@, p as nat),
                None => parse_rule_spec(self@, rule@, tokens.deep_view(), pos as nat, fuel) is Fail,
            },
        decreases fuel, 1nat,
    {
        let ghost toks = tokens.deep_view();
        let ghost rhs = rule@.rhs;
        let mut children: Vec<ParseNode> = Vec::new();
        let mut current_pos = pos;
        assert(rhs.skip(0) =~= rhs);
        for j in 0..rule.rhs.len()
            invariant
                pos <= current_pos <= tokens.len(),
                toks == tokens.deep_view(),
                rhs == rule@.rhs,
                rhs.len() == rule.rhs.len(),
                parse_sequence_spec(self@, rhs, toks, pos as nat, fuel) == prepend_children(
                    children@.map_values(|c: ParseNode| c@),
                    parse_sequence_spec(self@, rhs.skip(j as int), toks, current_pos as nat, fuel),
                ),
                !(parse_rule_spec(self@, rule@, toks, pos as nat, fuel) is OutOfFuel),
        {
            assert(rhs.skip(j as int)[0] == rule.rhs[j as int]@);
            assert(rhs.skip(j as int).drop_first() =~= rhs.skip(j + 1));
            match self.parse_symbol(&rule.rhs[j], tokens, current_pos, Ghost(fuel)) {
                Some((child, new_pos)) => {
                    let ghost before = children@.map_values(|c: ParseNode| c@);
                    children.push(child);
                    assert(children@.map_values(|c: ParseNode| c@) =~= before.push(child@));
                    proof {
                        lemma_prepend_children_push(before, child@, parse_sequence_spec(self@, rhs.skip(j + 1), toks, new_pos as nat, fuel));
                    }
                    current_pos = new_pos;
                },
                None => {
                    return None;
                },
            }
        }
        assert(rhs.skip(rule.rhs.len() as int) =~= Seq::<SymbolView>::empty());
        let node = ParseNode { symbol: rule.lhs.duplicate(), children };
        assert(node@.children =~= children@.map_values(|c: ParseNode| c@));
        Some((node, current_pos))
    }
}

/// `cs` placed before the trees of a successful attempt; failures unchanged.
pub open spec fn prepend_children(cs: Seq<TreeView>, a: Attempt<Seq<TreeView>>) -> Attempt<Seq<TreeView>> {
    match a {
        Attempt::Done(ds, q) => Attempt::Done(cs + ds, q),
        Attempt::Fail => Attempt::Fail,
        Attempt::OutOfFuel => Attempt::OutOfFuel,
    }
}

proof fn lemma_prepend_children_push(cs: Seq<TreeView>, c: TreeView, a: Attempt<Seq<TreeView>>)
    ensures
        prepend_children(cs, prepend_children(seq![c], a)) == prepend_children(cs.push(c), a),
{
    if let Attempt::Done(ds, q) = a {
        assert(cs + (seq![c] + ds) =~= cs.push(c) + ds);
    }
}


/// The symbol at the root of the tree built for `sym`: a raw value is matched,
/// and recorded, as the word `T(v)`.
pub open spec fn root_symbol(sym: SymbolView) -> SymbolView {
    match sym {
        SymbolView::Ternary(v) => SymbolView::Terminal(ternary_label(v)),
        _ => sym,
    }
}

/// `t` is a node for `rule`: its symbol is the rule's left-hand side and its
/// children's symbols follow the right-hand side.
pub open spec fn expands_by(rule: RuleView, t: TreeView) -> bool {
    &&& rule.lhs == t.symbol
    &&& rule.rhs.len() == t.children.len()
    &&& forall|j: int| 0 <= j < rule.rhs.len() ==> root_symbol(rule.rhs[j]) == (#[trigger] t.children[j]).symbol
}

/// `t` is a derivation in `g`: each node is a word leaf, or stands for one of
/// the grammar's rules and has derivations as children.
pub open spec fn is_derivation(g: GrammarView, t: TreeView) -> bool
    decreases t,
{
    ||| (t.symbol is Terminal && t.children.len() == 0)
    ||| {
        &&& exists|i: int| 0 <= i < g.rules.len() && expands_by(#[trigger] g.rules[i], t)
        &&& forall|j: int| 0 <= j < t.children.len() ==> is_derivation(g, #[trigger] t.children[j])
    }
}

/// A symbol parsed from any position spells out the tokens it consumed: the
/// position moves forward within the tokens, the words at the leaves of the
/// tree are the consumed tokens, the root carries the symbol (a raw value as
/// its `T(v)` word), and the tree is a derivation in the grammar.
pub proof fn lemma_symbol_sound(g: GrammarView, sym: SymbolView, toks: Seq<Seq<char>>, pos: nat, fuel: nat)
    requires
        pos <= toks.len(),
    ensures
        parse_symbol_spec(g, sym, toks, pos, fuel) matches Attempt::Done(t, p) ==> {
            &&& pos <= p <= toks.len()
            &&& tree_leaves(t) == toks.subrange(pos as int, p as int)
            &&& t.symbol == root_symbol(sym)
            &&& is_derivation(g, t)
        },
    decreases fuel, 0nat, 0nat,
{
    match sym {
        SymbolView::NonTerminal(_) => {
            if fuel > 0 {
                let rules = rules_for_spec(g, sym);
                assert forall|i: int| 0 <= i < rules.len() implies (#[trigger] rules[i]).lhs == sym
                    && g.rules.contains(rules[i]) by {
                    g.rules.lemma_filter_pred(lhs_is(sym), i);
                    assert(rules.contains(rules[i]));
                    g.rules.lemma_filter_contains_rev(lhs_is(sym), rules[i]);
                }
                lemma_rules_sound(g, sym, rules, toks, pos, (fuel - 1) as nat);
            }
        },
        _ => {
            if let Attempt::Done(t, p) = parse_symbol_spec(g, sym, toks, pos, fuel) {
                assert(toks.subrange(pos as int, p as int) =~= seq![toks[pos as int]]);
            }
        },
    }
}

proof fn lemma_rules_sound(
    g: GrammarView,
    sym: SymbolView,
    rules: Seq<RuleView>,
    toks: Seq<Seq<char>>,
    pos: nat,
    fuel: nat,
)
    requires
        sym is NonTerminal,
        pos <= toks.len(),
        forall|i: int| 0 <= i < rules.len() ==> (#[trigger] rules[i]).lhs == sym,
        forall|i: int| 0 <= i < rules.len() ==> g.rules.contains(#[trigger] rules[i]),
    ensures
        parse_rules_spec(g, rules, toks, pos, fuel) matches Attempt::Done(t, p) ==> {
            &&& pos <= p <= toks.len()
            &&& tree_leaves(t) == toks.subrange(pos as int, p as int)
            &&& t.symbol == sym
            &&& is_derivation(g, t)
        },
    decreases fuel, 2nat, rules.len(),
{
    if rules.len() > 0 {
        lemma_rule_sound(g, rules[0], toks, pos, fuel);
        lemma_rules_sound(g, sym, rules.drop_first(), toks, pos, fuel);
    }
}

proof fn lemma_rule_sound(g: GrammarView, rule: RuleView, toks: Seq<Seq<char>>, pos: nat, fuel: nat)
    requires
        rule.lhs is NonTerminal,
        pos <= toks.len(),
        g.rules.contains(rule),
    ensures
        parse_rule_spec(g, rule, toks, pos, fuel) matches Attempt::Done(t, p) ==> {
            &&& pos <= p <= toks.len()
            &&& tree_leaves(t) == toks.subrange(pos as int, p as int)
            &&& t.symbol == rule.lhs
            &&& is_derivation(g, t)
        },
    decreases fuel, 1nat, 0nat,
{
    lemma_sequence_sound(g, rule.rhs, toks, pos, fuel);
    if let Attempt::Done(cs, p) = parse_sequence_spec(g, rule.rhs, toks, pos, fuel) {
        if cs.len() == 0 {
            assert(toks.subrange(pos as int, p as int).len() == 0);
        }
        let t = TreeView { symbol: rule.lhs, children: cs };
        let i = choose|i: int| 0 <= i < g.rules.len() && g.rules[i] == rule;
        assert(expands_by(g.rules[i], t));
        assert(is_derivation(g, t));
    }
}

proof fn lemma_sequence_sound(g: GrammarView, rhs: Seq<SymbolView>, toks: Seq<Seq<char>>, pos: nat, fuel: nat)
    requires
        pos <= toks.len(),
    ensures
        parse_sequence_spec(g, rhs, toks, pos, fuel) matches Attempt::Done(cs, p) ==> {
            &&& pos <= p <= toks.len()
            &&& forest_leaves(cs) == toks.subrange(pos as int, p as int)
            &&& cs.len() == rhs.len()
            &&& forall|j: int| 0 <= j < cs.len() ==> (#[trigger] cs[j]).symbol == root_symbol(rhs[j])
            &&& forall|j: int| 0 <= j < cs.len() ==> is_derivation(g, #[trigger] cs[j])
        },
    decreases fuel, 0nat, rhs.len(),
{
    if rhs.len() == 0 {
        assert(toks.subrange(pos as int, pos as int) =~= Seq::<Seq<char>>::empty());
    } else {
        lemma_symbol_sound(g, rhs[0], toks, pos, fuel);
        if let Attempt::Done(c, p) = parse_symbol_spec(g, rhs[0], toks, pos, fuel) {
            lemma_sequence_sound(g, rhs.drop_first(), toks, p, fuel);
            if let Attempt::Done(cs, q) = parse_sequence_spec(g, rhs.drop_first(), toks, p, fuel) {
                let all = seq![c] + cs;
                assert(all[0] == c);
                assert(all.drop_first() =~= cs);
                assert forall|j: int| 0 < j < all.len() implies #[trigger] all[j] == cs[j - 1]
                    && rhs[j] == rhs.drop_first()[j - 1] by {}
                assert(toks.subrange(pos as int, q as int) =~= toks.subrange(pos as int, p as int)
                    + toks.subrange(p as int, q as int));
            }
        }
    }
}

/// A successful parse spells out its input and derives it in the grammar: the
/// words at the leaves of the tree, left to right, are exactly the tokens; the
/// root carries the start symbol (a raw start value as its `T(v)` word); and
/// every inner node stands for one of the grammar's rules.
pub proof fn lemma_parse_yields_input(g: GrammarView, toks: Seq<Seq<char>>, t: TreeView)
    requires
        parse_spec(g, toks) == Some(t),
    ensures
        tree_leaves(t) == toks,
        t.symbol == root_symbol(g.start),
        is_derivation(g, t),
{
    lemma_symbol_sound(g, g.start, toks, 0, sufficient_fuel(g, toks));
    assert(toks.subrange(0, toks.len() as int) =~= toks);
}


proof fn lemma_symbol_fuel(g: GrammarView, sym: SymbolView, toks: Seq<Seq<char>>, pos: nat, f1: nat, f2: nat)
    requires
        f1 <= f2,
        !(parse_symbol_spec(g, sym, toks, pos, f1) is OutOfFuel),
    ensures
        parse_symbol_spec(g, sym, toks, pos, f2) == parse_symbol_spec(g, sym, toks, pos, f1),
    decreases f1, 0nat, 0nat,
{
    if sym is NonTerminal {
        lemma_rules_fuel(g, rules_for_spec(g, sym), toks, pos, (f1 - 1) as nat, (f2 - 1) as nat);
    }
}

proof fn lemma_rules_fuel(g: GrammarView, rules: Seq<RuleView>, toks: Seq<Seq<char>>, pos: nat, f1: nat, f2: nat)
    requires
        f1 <= f2,
        !(parse_rules_spec(g, rules, toks, pos, f1) is OutOfFuel),
    ensures
        parse_rules_spec(g, rules, toks, pos, f2) == parse_rules_spec(g, rules, toks, pos, f1),
    decreases f1, 2nat, rules.len(),
{
    if rules.len() > 0 {
        lemma_rule_fuel(g, rules[0], toks, pos, f1, f2);
        if parse_rule_spec(g, rules[0], toks, pos, f1) is Fail {
            lemma_rules_fuel(g, rules.drop_first(), toks, pos, f1, f2);
        }
    }
}

proof fn lemma_rule_fuel(g: GrammarView, rule: RuleView, toks: Seq<Seq<char>>, pos: nat, f1: nat, f2: nat)
    requires
        f1 <= f2,
        !(parse_rule_spec(g, rule, toks, pos, f1) is OutOfFuel),
    ensures
        parse_rule_spec(g, rule, toks, pos, f2) == parse_rule_spec(g, rule, toks, pos, f1),
    decreases f1, 1nat, 0nat,
{
    lemma_sequence_fuel(g, rule.rhs, toks, pos, f1, f2);
}

proof fn lemma_sequence_fuel(g: GrammarView, rhs: Seq<SymbolView>, toks: Seq<Seq<char>>, pos: nat, f1: nat, f2: nat)
    requires
        f1 <= f2,
        !(parse_sequence_spec(g, rhs, toks, pos, f1) is OutOfFuel),
    ensures
        parse_sequence_spec(g, rhs, toks, pos, f2) == parse_sequence_spec(g, rhs, toks, pos, f1),
    decreases f1, 0nat, rhs.len(),
{
    if rhs.len() > 0 {
        lemma_symbol_fuel(g, rhs[0], toks, pos, f1, f2);
        if let Attempt::Done(c, p) = parse_symbol_spec(g, rhs[0], toks, pos, f1) {
            lemma_sequence_fuel(g, rhs.drop_first(), toks, p, f1, f2);
        }
    }
}

/// Recursive descent does not depend on the nesting bound once the bound
/// suffices: every bound under which the descent ends gives the same result,
/// which is the one `parse_spec` takes.
pub proof fn lemma_parse_bound_irrelevant(g: GrammarView, toks: Seq<Seq<char>>, f: nat)
    requires
        !(parse_symbol_spec(g, g.start, toks, 0, f) is OutOfFuel),
    ensures
        parse_symbol_spec(g, g.start, toks, 0, f) == parse_symbol_spec(
            g,
            g.start,
            toks,
            0,
            sufficient_fuel(g, toks),
        ),
{
    let c = sufficient_fuel(g, toks);
    assert(!(parse_symbol_spec(g, g.start, toks, 0, c) is OutOfFuel));
    if f <= c {
        lemma_symbol_fuel(g, g.start, toks, 0, f, c);
    } else {
        lemma_symbol_fuel(g, g.start, toks, 0, c, f);
    }
}


/// One rule respects `nullable` and `rank`: when every symbol of its right
/// side is in `nullable`, so is its left side; and every non-terminal of its
/// right side that only `nullable` symbols precede ranks strictly below its
/// left side.
pub open spec fn rule_ranked(rule: RuleView, nullable: Set<SymbolView>, rank: spec_fn(SymbolView) -> nat) -> bool {
    &&& (forall|k: int| 0 <= k < rule.rhs.len() ==> nullable.contains(#[trigger] rule.rhs[k]))
        ==> nullable.contains(rule.lhs)
    &&& forall|i: int|
        0 <= i < rule.rhs.len() && (#[trigger] rule.rhs[i]) is NonTerminal && (forall|k: int|
            0 <= k < i ==> nullable.contains(rule.rhs[k])) ==> rank(rule.rhs[i]) < rank(rule.lhs)
}

/// `nullable` and `rank` witness that `g` has no left recursion: `nullable`
/// holds every non-terminal that can succeed without consuming a token, and
/// `rank` decreases along every left edge (from a rule's non-terminal left
/// side to a non-terminal of its right side preceded only by nullable
/// symbols), so no non-terminal reaches itself through left edges.
pub open spec fn left_ranking(g: GrammarView, nullable: Set<SymbolView>, rank: spec_fn(SymbolView) -> nat) -> bool {
    forall|j: int|
        0 <= j < g.rules.len() && (#[trigger] g.rules[j]).lhs is NonTerminal ==> rule_ranked(
            g.rules[j],
            nullable,
            rank,
        )
}

/// `g` has no left recursion: some ranking orders its left edges.
pub open spec fn free_of_left_recursion(g: GrammarView) -> bool {
    exists|nullable: Set<SymbolView>, rank: spec_fn(SymbolView) -> nat| left_ranking(g, nullable, rank)
}

proof fn lemma_symbol_ends(
    g: GrammarView,
    nullable: Set<SymbolView>,
    rank: spec_fn(SymbolView) -> nat,
    sym: SymbolView,
    toks: Seq<Seq<char>>,
    pos: nat,
) -> (f: nat)
    requires
        left_ranking(g, nullable, rank),
        pos <= toks.len(),
    ensures
        !(parse_symbol_spec(g, sym, toks, pos, f) is OutOfFuel),
        parse_symbol_spec(g, sym, toks, pos, f) matches Attempt::Done(t, p) && p == pos
            ==> nullable.contains(sym),
    decreases toks.len() - pos, rank(sym), 2nat, 0nat,
{
    if sym is NonTerminal {
        let rules = rules_for_spec(g, sym);
        assert forall|i: int| 0 <= i < rules.len() implies (#[trigger] rules[i]).lhs == sym
            && rule_ranked(rules[i], nullable, rank) by {
            g.rules.lemma_filter_pred(lhs_is(sym), i);
            assert(rules.contains(rules[i]));
            g.rules.lemma_filter_contains_rev(lhs_is(sym), rules[i]);
            let j = choose|j: int| 0 <= j < g.rules.len() && g.rules[j] == rules[i];
            assert(g.rules[j].lhs is NonTerminal);
        }
        let f1 = lemma_rules_ends(g, nullable, rank, sym, rules, toks, pos);
        f1 + 1
    } else {
        0
    }
}

proof fn lemma_rules_ends(
    g: GrammarView,
    nullable: Set<SymbolView>,
    rank: spec_fn(SymbolView) -> nat,
    x: SymbolView,
    rules: Seq<RuleView>,
    toks: Seq<Seq<char>>,
    pos: nat,
) -> (f: nat)
    requires
        left_ranking(g, nullable, rank),
        pos <= toks.len(),
        x is NonTerminal,
        forall|i: int| 0 <= i < rules.len() ==> (#[trigger] rules[i]).lhs == x && rule_ranked(
            rules[i],
            nullable,
            rank,
        ),
    ensures
        !(parse_rules_spec(g, rules, toks, pos, f) is OutOfFuel),
        parse_rules_spec(g, rules, toks, pos, f) matches Attempt::Done(t, p) && p == pos
            ==> nullable.contains(x),
    decreases toks.len() - pos, rank(x), 1nat, rules.len(),
{
    if rules.len() == 0 {
        0
    } else {
        assert(rules[0].lhs == x);
        let f0 = lemma_rule_ends(g, nullable, rank, rules[0], toks, pos);
        if parse_rule_spec(g, rules[0], toks, pos, f0) is Fail {
            let rest = rules.drop_first();
            assert forall|i: int| 0 <= i < rest.len() implies (#[trigger] rest[i]).lhs == x
                && rule_ranked(rest[i], nullable, rank) by {
                assert(rest[i] == rules[i + 1]);
            }
            let f1 = lemma_rules_ends(g, nullable, rank, x, rest, toks, pos);
            let f = if f0 >= f1 { f0 } else { f1 };
            lemma_rule_fuel(g, rules[0], toks, pos, f0, f);
            lemma_rules_fuel(g, rest, toks, pos, f1, f);
            f
        } else {
            f0
        }
    }
}

proof fn lemma_rule_ends(
    g: GrammarView,
    nullable: Set<SymbolView>,
    rank: spec_fn(SymbolView) -> nat,
    rule: RuleView,
    toks: Seq<Seq<char>>,
    pos: nat,
) -> (f: nat)
    requires
        left_ranking(g, nullable, rank),
        pos <= toks.len(),
        rule.lhs is NonTerminal,
        rule_ranked(rule, nullable, rank),
    ensures
        !(parse_rule_spec(g, rule, toks, pos, f) is OutOfFuel),
        parse_rule_spec(g, rule, toks, pos, f) matches Attempt::Done(t, p) && p == pos
            ==> nullable.contains(rule.lhs),
    decreases toks.len() - pos, rank(rule.lhs), 0nat, rule.rhs.len() + 1,
{
    assert(rule.rhs.skip(0) =~= rule.rhs);
    let f = lemma_sequence_ends(g, nullable, rank, rule, 0, toks, pos, pos);
    f
}

proof fn lemma_sequence_ends(
    g: GrammarView,
    nullable: Set<SymbolView>,
    rank: spec_fn(SymbolView) -> nat,
    rule: RuleView,
    i: int,
    toks: Seq<Seq<char>>,
    pos: nat,
    p: nat,
) -> (f: nat)
    requires
        left_ranking(g, nullable, rank),
        rule.lhs is NonTerminal,
        rule_ranked(rule, nullable, rank),
        0 <= i <= rule.rhs.len(),
        pos <= p <= toks.len(),
        p == pos ==> forall|k: int| 0 <= k < i ==> nullable.contains(#[trigger] rule.rhs[k]),
    ensures
        !(parse_sequence_spec(g, rule.rhs.skip(i), toks, p, f) is OutOfFuel),
        parse_sequence_spec(g, rule.rhs.skip(i), toks, p, f) matches Attempt::Done(cs, q) && q == pos
            ==> forall|k: int| 0 <= k < rule.rhs.len() ==> nullable.contains(#[trigger] rule.rhs[k]),
    decreases toks.len() - pos, rank(rule.lhs), 0nat, rule.rhs.len() - i,
{
    let rhs = rule.rhs;
    if i == rhs.len() {
        assert(rhs.skip(i) =~= Seq::<SymbolView>::empty());
        0
    } else {
        let s = rhs[i];
        assert(rhs.skip(i)[0] == s);
        assert(rhs.skip(i).drop_first() =~= rhs.skip(i + 1));
        let f0 = if s is NonTerminal {
            if p == pos {
                assert(rank(s) < rank(rule.lhs));
            }
            lemma_symbol_ends(g, nullable, rank, s, toks, p)
        } else {
            0
        };
        lemma_symbol_sound(g, s, toks, p, f0);
        match parse_symbol_spec(g, s, toks, p, f0) {
            Attempt::Done(c, p1) => {
                if p1 == pos {
                    assert(nullable.contains(s));
                }
                let f1 = lemma_sequence_ends(g, nullable, rank, rule, i + 1, toks, pos, p1);
                let f = if f0 >= f1 { f0 } else { f1 };
                lemma_symbol_fuel(g, s, toks, p, f0, f);
                lemma_sequence_fuel(g, rhs.skip(i + 1), toks, p1, f1, f);
                lemma_sequence_sound(g, rhs.skip(i + 1), toks, p1, f);
                f
            },
            _ => f0,
        }
    }
}

/// Recursive descent ends on every input when the grammar has no left
/// recursion, so `parse` accepts every token list for such a grammar.
pub proof fn lemma_no_left_recursion_terminates(g: GrammarView, toks: Seq<Seq<char>>)
    requires
        free_of_left_recursion(g),
    ensures
        parse_terminates(g, toks),
{
    let (nullable, rank) = choose|nullable: Set<SymbolView>, rank: spec_fn(SymbolView) -> nat|
        left_ranking(g, nullable, rank);
    let f = lemma_symbol_ends(g, nullable, rank, g.start, toks, 0);
    assert(!(parse_symbol_spec(g, g.start, toks, 0, f) is OutOfFuel));
}


/// The symbols of `rhs` parse one after another: the i-th parses at `ps[i]`,
/// giving the tree `cs[i]` and ending at `ps[i + 1]`, where the next starts.
pub open spec fn parses_in_turn(
    g: GrammarView,
    rhs: Seq<SymbolView>,
    toks: Seq<Seq<char>>,
    ps: Seq<nat>,
    cs: Seq<TreeView>,
    fuel: nat,
) -> bool {
    &&& ps.len() == rhs.len() + 1
    &&& cs.len() == rhs.len()
    &&& forall|i: int|
        0 <= i < rhs.len() ==> parse_symbol_spec(g, #[trigger] rhs[i], toks, ps[i], fuel) == Attempt::Done(
            cs[i],
            ps[i + 1],
        )
}

proof fn lemma_parses_in_turn_tail(
    g: GrammarView,
    rhs: Seq<SymbolView>,
    toks: Seq<Seq<char>>,
    ps: Seq<nat>,
    cs: Seq<TreeView>,
    fuel: nat,
)
    requires
        rhs.len() > 0,
        parses_in_turn(g, rhs, toks, ps, cs, fuel),
    ensures
        parses_in_turn(g, rhs.drop_first(), toks, ps.drop_first(), cs.drop_first(), fuel),
{
    assert forall|i: int| 0 <= i < rhs.drop_first().len() implies parse_symbol_spec(
        g,
        #[trigger] rhs.drop_first()[i],
        toks,
        ps.drop_first()[i],
        fuel,
    ) == Attempt::Done(cs.drop_first()[i], ps.drop_first()[i + 1]) by {
        assert(rhs.drop_first()[i] == rhs[i + 1]);
    }
}

/// A right-hand side whose symbols parse one after another succeeds as a
/// whole, with those trees, ending where the last symbol ends.
pub proof fn lemma_sequence_in_turn(
    g: GrammarView,
    rhs: Seq<SymbolView>,
    toks: Seq<Seq<char>>,
    ps: Seq<nat>,
    cs: Seq<TreeView>,
    fuel: nat,
)
    requires
        parses_in_turn(g, rhs, toks, ps, cs, fuel),
    ensures
        parse_sequence_spec(g, rhs, toks, ps[0], fuel) == Attempt::Done(cs, ps.last()),
    decreases rhs.len(),
{
    if rhs.len() == 0 {
        assert(cs =~= Seq::<TreeView>::empty());
    } else {
        lemma_parses_in_turn_tail(g, rhs, toks, ps, cs, fuel);
        lemma_sequence_in_turn(g, rhs.drop_first(), toks, ps.drop_first(), cs.drop_first(), fuel);
        assert(rhs[0] == rhs[0]);
        assert(parse_symbol_spec(g, rhs[0], toks, ps[0], fuel) == Attempt::Done(cs[0], ps[1]));
        assert(seq![cs[0]] + cs.drop_first() =~= cs);
        assert(ps.drop_first().last() == ps.last());
    }
}

/// A successful right-hand side is made of symbols that parsed one after
/// another from its start to its end.
pub proof fn lemma_sequence_done_in_turn(
    g: GrammarView,
    rhs: Seq<SymbolView>,
    toks: Seq<Seq<char>>,
    pos: nat,
    ds: Seq<TreeView>,
    q: nat,
    fuel: nat,
)
    requires
        parse_sequence_spec(g, rhs, toks, pos, fuel) == Attempt::Done(ds, q),
    ensures
        exists|qs: Seq<nat>| #[trigger] parses_in_turn(g, rhs, toks, qs, ds, fuel) && qs[0] == pos && qs.last() == q,
    decreases rhs.len(),
{
    if rhs.len() == 0 {
        let qs = seq![pos];
        assert(ds =~= Seq::<TreeView>::empty());
        assert(parses_in_turn(g, rhs, toks, qs, ds, fuel));
        assert(qs.last() == pos && qs[0] == pos);
    } else {
        if let Attempt::Done(c, p) = parse_symbol_spec(g, rhs[0], toks, pos, fuel) {
            if let Attempt::Done(ds1, q1) = parse_sequence_spec(g, rhs.drop_first(), toks, p, fuel) {
                lemma_sequence_done_in_turn(g, rhs.drop_first(), toks, p, ds1, q1, fuel);
                let qs1 = choose|qs1: Seq<nat>|
                    #[trigger] parses_in_turn(g, rhs.drop_first(), toks, qs1, ds1, fuel) && qs1[0] == p
                        && qs1.last() == q1;
                let qs = seq![pos] + qs1;
                assert(ds == seq![c] + ds1);
                assert forall|i: int| 0 <= i < rhs.len() implies parse_symbol_spec(
                    g,
                    #[trigger] rhs[i],
                    toks,
                    qs[i],
                    fuel,
                ) == Attempt::Done(ds[i], qs[i + 1]) by {
                    if i > 0 {
                        assert(rhs[i] == rhs.drop_first()[i - 1]);
                        assert(qs[i] == qs1[i - 1]);
                        assert(qs[i + 1] == qs1[i]);
                        assert(ds[i] == ds1[i - 1]);
                    }
                }
                assert(parses_in_turn(g, rhs, toks, qs, ds, fuel));
                assert(qs.last() == qs1.last());
            }
        }
    }
}

/// A right-hand side fails exactly where one of its symbols fails: when its
/// first `k` symbols parse one after another and the next one fails there,
/// the whole fails; and a failing right-hand side always has such a symbol.
pub proof fn lemma_sequence_fails_at_symbol(
    g: GrammarView,
    rhs: Seq<SymbolView>,
    toks: Seq<Seq<char>>,
    pos: nat,
    k: int,
    ps: Seq<nat>,
    cs: Seq<TreeView>,
    fuel: nat,
)
    ensures
        0 <= k < rhs.len() && parses_in_turn(g, rhs.take(k), toks, ps, cs, fuel) && parse_symbol_spec(
            g,
            rhs[k],
            toks,
            ps[k],
            fuel,
        ) is Fail ==> parse_sequence_spec(g, rhs, toks, ps[0], fuel) is Fail,
        parse_sequence_spec(g, rhs, toks, pos, fuel) is Fail ==> exists|j: int, qs: Seq<nat>, ds: Seq<TreeView>|
            0 <= j < rhs.len() && #[trigger] parses_in_turn(g, rhs.take(j), toks, qs, ds, fuel) && qs[0] == pos
                && parse_symbol_spec(g, rhs[j], toks, qs[j], fuel) is Fail,
    decreases rhs.len(),
{
    if rhs.len() > 0 {
        if 0 <= k < rhs.len() && parses_in_turn(g, rhs.take(k), toks, ps, cs, fuel) && parse_symbol_spec(
            g,
            rhs[k],
            toks,
            ps[k],
            fuel,
        ) is Fail {
            if k > 0 {
                assert(rhs.take(k)[0] == rhs[0]);
                lemma_parses_in_turn_tail(g, rhs.take(k), toks, ps, cs, fuel);
                assert(rhs.take(k).drop_first() =~= rhs.drop_first().take(k - 1));
                assert(rhs.drop_first()[k - 1] == rhs[k]);
                lemma_sequence_fails_at_symbol(
                    g,
                    rhs.drop_first(),
                    toks,
                    ps[1],
                    k - 1,
                    ps.drop_first(),
                    cs.drop_first(),
                    fuel,
                );
            }
        }
        match parse_symbol_spec(g, rhs[0], toks, pos, fuel) {
            Attempt::Fail => {
                let qs = seq![pos];
                assert(rhs.take(0) =~= Seq::<SymbolView>::empty());
                assert(parses_in_turn(g, rhs.take(0), toks, qs, Seq::<TreeView>::empty(), fuel));
            },
            Attempt::Done(c, p) => {
                lemma_sequence_fails_at_symbol(g, rhs.drop_first(), toks, p, 0, ps, cs, fuel);
                if parse_sequence_spec(g, rhs.drop_first(), toks, p, fuel) is Fail {
                    let (j1, qs1, ds1) = choose|j1: int, qs1: Seq<nat>, ds1: Seq<TreeView>|
                        0 <= j1 < rhs.drop_first().len() && #[trigger] parses_in_turn(
                            g,
                            rhs.drop_first().take(j1),
                            toks,
                            qs1,
                            ds1,
                            fuel,
                        ) && qs1[0] == p && parse_symbol_spec(g, rhs.drop_first()[j1], toks, qs1[j1], fuel) is Fail;
                    let j = j1 + 1;
                    let qs = seq![pos] + qs1;
                    let ds = seq![c] + ds1;
                    assert forall|i: int| 0 <= i < rhs.take(j).len() implies parse_symbol_spec(
                        g,
                        #[trigger] rhs.take(j)[i],
                        toks,
                        qs[i],
                        fuel,
                    ) == Attempt::Done(ds[i], qs[i + 1]) by {
                        if i > 0 {
                            assert(rhs.take(j)[i] == rhs.drop_first().take(j1)[i - 1]);
                            assert(qs[i] == qs1[i - 1]);
                            assert(qs[i + 1] == qs1[i]);
                            assert(ds[i] == ds1[i - 1]);
                        } else {
                            assert(rhs.take(j)[0] == rhs[0]);
                        }
                    }
                    assert(parses_in_turn(g, rhs.take(j), toks, qs, ds, fuel));
                    assert(rhs[j] == rhs.drop_first()[j1]);
                    assert(qs[j] == qs1[j1]);
                }
            },
            Attempt::OutOfFuel => {},
        }
    }
}

/// A rule succeeds exactly when its right-hand side does, with a node for its
/// left side over the right side's trees, and fails exactly when its
/// right-hand side fails: no rule is turned down before its symbols are
/// tried.
pub proof fn lemma_rule_is_its_sequence(g: GrammarView, rule: RuleView, toks: Seq<Seq<char>>, pos: nat, fuel: nat)
    ensures
        parse_sequence_spec(g, rule.rhs, toks, pos, fuel) matches Attempt::Done(cs, p) ==> parse_rule_spec(
            g,
            rule,
            toks,
            pos,
            fuel,
        ) == Attempt::Done(TreeView { symbol: rule.lhs, children: cs }, p),
        parse_rule_spec(g, rule, toks, pos, fuel) is Fail <==> parse_sequence_spec(g, rule.rhs, toks, pos, fuel) is Fail,
        parse_rule_spec(g, rule, toks, pos, fuel) is OutOfFuel <==> parse_sequence_spec(g, rule.rhs, toks, pos, fuel) is OutOfFuel,
{
}

/// The rules are tried in order and the first that succeeds wins: when rule
/// `k` succeeds and every earlier one fails, the list gives rule `k`'s
/// result; the list fails exactly when every rule fails.
pub proof fn lemma_rules_first_match(g: GrammarView, rules: Seq<RuleView>, toks: Seq<Seq<char>>, pos: nat, fuel: nat, k: int)
    ensures
        0 <= k < rules.len() && !(parse_rule_spec(g, rules[k], toks, pos, fuel) is Fail) && (forall|j: int|
            0 <= j < k ==> #[trigger] parse_rule_spec(g, rules[j], toks, pos, fuel) is Fail) ==> parse_rules_spec(
            g,
            rules,
            toks,
            pos,
            fuel,
        ) == parse_rule_spec(g, rules[k], toks, pos, fuel),
        parse_rules_spec(g, rules, toks, pos, fuel) is Fail <==> forall|j: int|
            0 <= j < rules.len() ==> #[trigger] parse_rule_spec(g, rules[j], toks, pos, fuel) is Fail,
    decreases rules.len(),
{
    if rules.len() > 0 {
        let rest = rules.drop_first();
        lemma_rules_first_match(g, rest, toks, pos, fuel, k - 1);
        if 0 <= k < rules.len() && !(parse_rule_spec(g, rules[k], toks, pos, fuel) is Fail) && (forall|j: int|
            0 <= j < k ==> #[trigger] parse_rule_spec(g, rules[j], toks, pos, fuel) is Fail) {
            if k > 0 {
                assert(parse_rule_spec(g, rules[0], toks, pos, fuel) is Fail);
                assert(rest[k - 1] == rules[k]);
                assert forall|j: int| 0 <= j < k - 1 implies #[trigger] parse_rule_spec(g, rest[j], toks, pos, fuel) is Fail by {
                    assert(rest[j] == rules[j + 1]);
                }
            }
        }
        if forall|j: int| 0 <= j < rest.len() ==> #[trigger] parse_rule_spec(g, rest[j], toks, pos, fuel) is Fail {
        } else {
        }
        assert((forall|j: int| 0 <= j < rules.len() ==> #[trigger] parse_rule_spec(g, rules[j], toks, pos, fuel) is Fail)
            <==> (parse_rule_spec(g, rules[0], toks, pos, fuel) is Fail && forall|j: int|
            0 <= j < rest.len() ==> #[trigger] parse_rule_spec(g, rest[j], toks, pos, fuel) is Fail)) by {
            if parse_rule_spec(g, rules[0], toks, pos, fuel) is Fail && forall|j: int|
                0 <= j < rest.len() ==> #[trigger] parse_rule_spec(g, rest[j], toks, pos, fuel) is Fail {
                assert forall|j: int| 0 <= j < rules.len() implies #[trigger] parse_rule_spec(g, rules[j], toks, pos, fuel) is Fail by {
                    if j > 0 {
                        assert(rules[j] == rest[j - 1]);
                    }
                }
            }
            if forall|j: int| 0 <= j < rules.len() ==> #[trigger] parse_rule_spec(g, rules[j], toks, pos, fuel) is Fail {
                assert forall|j: int| 0 <= j < rest.len() implies #[trigger] parse_rule_spec(g, rest[j], toks, pos, fuel) is Fail by {
                    assert(rest[j] == rules[j + 1]);
                }
            }
        }
    }
}

/// A terminal (or a raw value, by its `T(v)` word) matches exactly the next
/// token: it succeeds, consuming that one token, when the token equals its
/// word, and fails otherwise.
pub proof fn lemma_terminal_matches_next_token(g: GrammarView, sym: SymbolView, toks: Seq<Seq<char>>, pos: nat, fuel: nat)
    requires
        !(sym is NonTerminal),
    ensures
        root_symbol(sym) matches SymbolView::Terminal(w) && parse_symbol_spec(g, sym, toks, pos, fuel) == if pos
            < toks.len() && toks[pos as int] == w {
            Attempt::Done(TreeView { symbol: SymbolView::Terminal(w), children: Seq::empty() }, pos + 1)
        } else {
            Attempt::Fail
        },
{
}

/// Whenever the descent from the start symbol, under any nesting bound,
/// consumes every token, `parse` gives that tree.
pub proof fn lemma_parse_complete(g: GrammarView, toks: Seq<Seq<char>>, f: nat, t: TreeView)
    requires
        parse_symbol_spec(g, g.start, toks, 0, f) == Attempt::Done(t, toks.len()),
    ensures
        parse_terminates(g, toks),
        parse_spec(g, toks) == Some(t),
{
    assert(!(parse_symbol_spec(g, g.start, toks, 0, f) is OutOfFuel));
    lemma_parse_bound_irrelevant(g, toks, f);
}


/// A non-terminal tries its rules in the grammar's order and takes the first
/// that succeeds: when its `k`-th rule succeeds and every earlier one fails,
/// it gives that rule's result; it fails exactly when every one of its rules
/// fails.
pub proof fn lemma_nonterminal_first_match(
    g: GrammarView,
    sym: SymbolView,
    toks: Seq<Seq<char>>,
    pos: nat,
    fuel: nat,
    k: int,
)
    requires
        sym is NonTerminal,
    ensures
        ({
            let rules = rules_for_spec(g, sym);
            &&& 0 <= k < rules.len() && !(parse_rule_spec(g, rules[k], toks, pos, fuel) is Fail) && (forall|j: int|
                0 <= j < k ==> #[trigger] parse_rule_spec(g, rules[j], toks, pos, fuel) is Fail)
                ==> parse_symbol_spec(g, sym, toks, pos, fuel + 1) == parse_rule_spec(g, rules[k], toks, pos, fuel)
            &&& parse_symbol_spec(g, sym, toks, pos, fuel + 1) is Fail <==> forall|j: int|
                0 <= j < rules.len() ==> #[trigger] parse_rule_spec(g, rules[j], toks, pos, fuel) is Fail
        }),
{
    lemma_rules_first_match(g, rules_for_spec(g, sym), toks, pos, fuel, k);
}

} // verus!
