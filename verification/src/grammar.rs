use vstd::prelude::*;

use crate::text::{push_char, ternary_label, ternary_text};

verus! {

/// A grammar symbol: a terminal word, a non-terminal name, or a raw ternary
/// value (-1, 0 or +1).
#[derive(Clone, PartialEq, Eq, Debug, Hash)]
pub enum TernarySymbol {
    Terminal(String),
    NonTerminal(String),
    Ternary(i8),
}

/// What a symbol stands for, with its text as characters.
pub enum SymbolView {
    Terminal(Seq<char>),
    NonTerminal(Seq<char>),
    Ternary(i8),
}

impl View for TernarySymbol {
    type V = SymbolView;

    open spec fn view(&self) -> SymbolView {
        match self {
            TernarySymbol::Terminal(s) => SymbolView::Terminal(s@),
            TernarySymbol::NonTerminal(s) => SymbolView::NonTerminal(s@),
            TernarySymbol::Ternary(v) => SymbolView::Ternary(*v),
        }
    }
}

impl TernarySymbol {
    /// A copy of the symbol.
    pub fn duplicate(&self) -> (r: Self)
        ensures
            r@ == self@,
    {
        match self {
            TernarySymbol::Terminal(s) => TernarySymbol::Terminal(s.clone()),
            TernarySymbol::NonTerminal(s) => TernarySymbol::NonTerminal(s.clone()),
            TernarySymbol::Ternary(v) => TernarySymbol::Ternary(*v),
        }
    }

    /// Whether two symbols are the same.
    pub fn same_as(&self, other: &Self) -> (r: bool)
        ensures
            r == (self@ == other@),
    {
        match (self, other) {
            (TernarySymbol::Terminal(a), TernarySymbol::Terminal(b)) => a.eq(b),
            (TernarySymbol::NonTerminal(a), TernarySymbol::NonTerminal(b)) => a.eq(b),
            (TernarySymbol::Ternary(a), TernarySymbol::Ternary(b)) => *a == *b,
            _ => false,
        }
    }
}

/// A production rule `lhs -> rhs`.
#[derive(Clone, PartialEq, Eq, Debug)]
pub struct ProductionRule {
    pub lhs: TernarySymbol,
    pub rhs: Vec<TernarySymbol>,
}

/// What a rule stands for.
pub struct RuleView {
    pub lhs: SymbolView,
    pub rhs: Seq<SymbolView>,
}

impl View for ProductionRule {
    type V = RuleView;

    open spec fn view(&self) -> RuleView {
        RuleView { lhs: self.lhs@, rhs: self.rhs@.map_values(|s: TernarySymbol| s@) }
    }
}

impl ProductionRule {
    /// The rule `lhs -> rhs`.
    pub fn new(lhs: TernarySymbol, rhs: Vec<TernarySymbol>) -> (r: Self)
        ensures
            r.lhs == lhs,
            r.rhs == rhs,
    {
        ProductionRule { lhs, rhs }
    }
}

/// A context-free grammar: its rules, in the order they were added, and its
/// start symbol.
pub struct TernaryGrammar {
    rules: Vec<ProductionRule>,
    start: TernarySymbol,
}

/// What a grammar stands for.
pub struct GrammarView {
    pub rules: Seq<RuleView>,
    pub start: SymbolView,
}

impl View for TernaryGrammar {
    type V = GrammarView;

    closed spec fn view(&self) -> GrammarView {
        GrammarView { rules: self.rules@.map_values(|r: ProductionRule| r@), start: self.start@ }
    }
}

/// The rules of `g` whose left-hand side is `sym`, in the grammar's order.
pub open spec fn rules_for_spec(g: GrammarView, sym: SymbolView) -> Seq<RuleView> {
    g.rules.filter(lhs_is(sym))
}

/// The test that a rule's left-hand side is `sym`.
pub open spec fn lhs_is(sym: SymbolView) -> spec_fn(RuleView) -> bool {
    |r: RuleView| r.lhs == sym
}

/// A symbol is terminal in `g` when no rule has it as left-hand side.
pub open spec fn is_terminal_spec(g: GrammarView, sym: SymbolView) -> bool {
    rules_for_spec(g, sym).len() == 0
}

/// The strings a symbol stands for when it is not expanded: a terminal's word,
/// a raw value's `T(v)` text, and nothing for a non-terminal.
pub open spec fn leaf_strings(sym: SymbolView) -> Seq<Seq<char>> {
    match sym {
        SymbolView::Terminal(s) => seq![s],
        SymbolView::Ternary(v) => seq![ternary_label(v)],
        SymbolView::NonTerminal(_) => Seq::empty(),
    }
}

/// `e` appended to the partial string `p`, with one space between them unless
/// `p` is empty.
pub open spec fn join_words(p: Seq<char>, e: Seq<char>) -> Seq<char> {
    if p.len() == 0 {
        e
    } else {
        p + seq![' '] + e
    }
}

/// Every partial string extended by every expansion, partial strings outermost.
pub open spec fn extend_all(partials: Seq<Seq<char>>, exps: Seq<Seq<char>>) -> Seq<Seq<char>>
    decreases partials.len(),
{
    if partials.len() == 0 {
        Seq::empty()
    } else {
        extend_all(partials.drop_last(), exps) + exps.map_values(
            |e: Seq<char>| join_words(partials.last(), e),
        )
    }
}

/// The strings generated from `sym` with at most `depth` expansions: a symbol
/// that is terminal, or reached with depth 0, stands for its leaf strings;
/// otherwise each of its rules is expanded in order.
pub open spec fn generate_spec(g: GrammarView, sym: SymbolView, depth: nat) -> Seq<Seq<char>>
    decreases depth, 0nat, 0nat,
{
    if depth == 0 || is_terminal_spec(g, sym) {
        leaf_strings(sym)
    } else {
        generate_rules(g, rules_for_spec(g, sym), (depth - 1) as nat)
    }
}

/// The strings generated by a list of rules, one rule after another.
pub open spec fn generate_rules(g: GrammarView, rules: Seq<RuleView>, depth: nat) -> Seq<Seq<char>>
    decreases depth, 1nat, rules.len(),
{
    if rules.len() == 0 {
        Seq::empty()
    } else {
        generate_rules(g, rules.drop_last(), depth) + generate_sequence(g, rules.last().rhs, depth)
    }
}

/// The strings generated by a right-hand side: every combination of the
/// strings of its symbols, joined by spaces, leftmost symbol outermost.
pub open spec fn generate_sequence(g: GrammarView, rhs: Seq<SymbolView>, depth: nat) -> Seq<Seq<char>>
    decreases depth, 0nat, rhs.len(),
{
    if rhs.len() == 0 {
        seq![Seq::<char>::empty()]
    } else {
        extend_all(generate_sequence(g, rhs.drop_last(), depth), generate_spec(g, rhs.last(), depth))
    }
}

impl TernaryGrammar {
    /// A grammar with no rules and the given start symbol.
    pub fn new(start: TernarySymbol) -> (r: Self)
        ensures
            r@.rules == Seq::<RuleView>::empty(),
            r@.start == start@,
    {
        let g = TernaryGrammar { rules: Vec::new(), start };
        assert(g@.rules =~= Seq::<RuleView>::empty());
        g
    }

    /// Appends a rule after the existing ones.
    pub fn add_rule(&mut self, rule: ProductionRule)
        ensures
            final(self)@.rules == old(self)@.rules.push(rule@),
            final(self)@.start == old(self)@.start,
    {
        self.rules.push(rule);
        assert(self@.rules =~= old(self)@.rules.push(rule@));
    }

    /// The rules whose left-hand side is `sym`, in the order they were added.
    pub fn rules_for(&self, sym: &TernarySymbol) -> (r: Vec<&ProductionRule>)
        ensures
            r@.map_values(|x: &ProductionRule| x@) == rules_for_spec(self@, sym@),
    {
        let ghost pred = lhs_is(sym@);
        let mut out: Vec<&ProductionRule> = Vec::new();
        let n = self.rules.len();
        for i in 0..n
            invariant
                n == self.rules@.len(),
                self@.rules.len() == n,
                pred == lhs_is(sym@),
                out@.map_values(|x: &ProductionRule| x@) =~= self@.rules.take(i as int).filter(pred),
        {
            let rule = &self.rules[i];
            proof {
                reveal(Seq::filter);
                assert(self@.rules.take(i + 1).drop_last() =~= self@.rules.take(i as int));
                assert(self@.rules.take(i + 1).last() == rule@);
            }
            if rule.lhs.same_as(sym) {
                out.push(rule);
            }
            assert(out@.map_values(|x: &ProductionRule| x@) =~= self@.rules.take(i + 1).filter(pred));
        }
        assert(self@.rules.take(n as int) =~= self@.rules);
        out
    }

    /// All rules, in the order they were added.
    pub fn rules(&self) -> (r: &[ProductionRule])
        ensures
            r@.map_values(|x: ProductionRule| x@) == self@.rules,
    {
        let r = self.rules.as_slice();
        assert(r@.map_values(|x: ProductionRule| x@) =~= self@.rules);
        r
    }

    /// The start symbol.
    pub fn start(&self) -> (r: &TernarySymbol)
        ensures
            r@ == self@.start,
    {
        &self.start
    }

    /// Whether no rule has `sym` as its left-hand side.
    pub fn is_terminal(&self, sym: &TernarySymbol) -> (r: bool)
        ensures
            r == is_terminal_spec(self@, sym@),
    {
        let rs = self.rules_for(sym);
        assert(rs@.map_values(|x: &ProductionRule| x@).len() == rs@.len());
        rs.len() == 0
    }
    /// All strings generated from the start symbol with at most `max_depth`
    /// expansions.
    pub fn generate(&self, max_depth: usize) -> (r: Vec<String>)
        ensures
            r.deep_view() == generate_spec(self@, self@.start, max_depth as nat),
    {
        let start = self.start.duplicate();
        self.generate_from(&start, max_depth)
    }

    fn leaf_strings_of(sym: &TernarySymbol) -> (r: Vec<String>)
        ensures
            r.deep_view() == leaf_strings(sym@),
    {
        let mut r: Vec<String> = Vec::new();
        match sym {
            TernarySymbol::Terminal(s) => r.push(s.clone()),
            TernarySymbol::Ternary(v) => r.push(ternary_text(*v)),
            TernarySymbol::NonTerminal(_) => {},
        }
        assert(r.deep_view() =~= leaf_strings(sym@));
        r
    }

    fn join(p: &String, e: &String) -> (r: String)
        ensures
            r@ == join_words(p@, e@),
    {
        if p.as_str().is_empty() {
            e.clone()
        } else {
            let mut s = p.clone();
            push_char(&mut s, ' ');
            s.append(e.as_str());
            s
        }
    }

    fn extend_partials(partials: &Vec<String>, expansions: &Vec<String>) -> (r: Vec<String>)
        ensures
            r.deep_view() == extend_all(partials.deep_view(), expansions.deep_view()),
    {
        let mut out: Vec<String> = Vec::new();
        let ghost exps = expansions.deep_view();
        for a in 0..partials.len()
            invariant
                out.deep_view() == extend_all(partials.deep_view().take(a as int), exps),
                exps == expansions.deep_view(),
        {
            let p = &partials[a];
            let ghost before = out.deep_view();
            for b in 0..expansions.len()
                invariant
                    out.deep_view() == before + exps.take(b as int).map_values(
                        |e: Seq<char>| join_words(p@, e),
                    ),
                    exps == expansions.deep_view(),
            {
                let s = Self::join(p, &expansions[b]);
                let ghost prev = out.deep_view();
                out.push(s);
                assert(out.deep_view() =~= prev.push(join_words(p@, exps[b as int])));
                assert(out.deep_view() =~= before + exps.take(b + 1).map_values(
                    |e: Seq<char>| join_words(p@, e),
                ));
            }
            assert(exps.take(expansions.len() as int) =~= exps);
            assert(partials.deep_view().take(a + 1).drop_last() =~= partials.deep_view().take(a as int));
            assert(partials.deep_view().take(a + 1).last() == p@);
        }
        assert(partials.deep_view().take(partials.len() as int) =~= partials.deep_view());
        out
    }

    fn generate_from(&self, sym: &TernarySymbol, depth: usize) -> (r: Vec<String>)
        ensures
            r.deep_view() == generate_spec(self@, sym@, depth as nat),
        decreases depth,
    {
        if depth == 0 || self.is_terminal(sym) {
            return Self::leaf_strings_of(sym);
        }
        let ghost g = self@;
        let d = depth - 1;
        let rules = self.rules_for(sym);
        let ghost rules_view = rules@.map_values(|x: &ProductionRule| x@);
        let mut results: Vec<String> = Vec::new();
        for k in 0..rules.len()
            invariant
                0 < depth,
                d == depth - 1,
                g == self@,
                rules_view == rules@.map_values(|x: &ProductionRule| x@),
                results.deep_view() == generate_rules(g, rules_view.take(k as int), d as nat),
        {
            let rule = rules[k];
            let mut partials: Vec<String> = Vec::new();
            partials.push(String::new());
            assert(partials.deep_view() =~= seq![Seq::<char>::empty()]);
            let ghost rhs = rule@.rhs;
            assert(rhs.take(0) =~= Seq::<SymbolView>::empty());
            for j in 0..rule.rhs.len()
                invariant
                    0 < depth,
                    d == depth - 1,
                    g == self@,
                    rhs == rule@.rhs,
                    partials.deep_view() == generate_sequence(g, rhs.take(j as int), d as nat),
            {
                let expansions = self.generate_from(&rule.rhs[j], d);
                partials = Self::extend_partials(&partials, &expansions);
                assert(rhs.take(j + 1).drop_last() =~= rhs.take(j as int));
            }
            assert(rhs.take(rule.rhs.len() as int) =~= rhs);
            let ghost before = results.deep_view();
            results.append(&mut partials);
            assert(rules_view.take(k + 1).drop_last() =~= rules_view.take(k as int));
            assert(results.deep_view() =~= before + generate_sequence(g, rhs, d as nat));
        }
        assert(rules_view.take(rules.len() as int) =~= rules_view);
        results
    }
}


/// Every rule of `g` has a non-terminal left side.
pub open spec fn rules_expand_non_terminals(g: GrammarView) -> bool {
    forall|j: int| 0 <= j < g.rules.len() ==> (#[trigger] g.rules[j]).lhs is NonTerminal
}

proof fn lemma_extend_all_contains(partials: Seq<Seq<char>>, exps: Seq<Seq<char>>, x: Seq<char>)
    ensures
        extend_all(partials, exps).contains(x) <==> exists|i: int, j: int|
            0 <= i < partials.len() && 0 <= j < exps.len() && x == join_words(
                #[trigger] partials[i],
                #[trigger] exps[j],
            ),
    decreases partials.len(),
{
    if partials.len() > 0 {
        let init = partials.drop_last();
        let last = partials.last();
        let head = extend_all(init, exps);
        let tail = exps.map_values(|e: Seq<char>| join_words(last, e));
        lemma_extend_all_contains(init, exps, x);
        assert(extend_all(partials, exps) == head + tail);
        if extend_all(partials, exps).contains(x) {
            let n = choose|n: int| 0 <= n < (head + tail).len() && (head + tail)[n] == x;
            if n < head.len() {
                assert(head[n] == x);
                let (i, j) = choose|i: int, j: int|
                    0 <= i < init.len() && 0 <= j < exps.len() && x == join_words(
                        #[trigger] init[i],
                        #[trigger] exps[j],
                    );
                assert(partials[i] == init[i]);
            } else {
                let j = n - head.len();
                assert(tail[j] == x);
                assert(partials[partials.len() - 1] == last);
                assert(x == join_words(partials[partials.len() - 1], exps[j]));
            }
        }
        if exists|i: int, j: int|
            0 <= i < partials.len() && 0 <= j < exps.len() && x == join_words(
                #[trigger] partials[i],
                #[trigger] exps[j],
            ) {
            let (i, j) = choose|i: int, j: int|
                0 <= i < partials.len() && 0 <= j < exps.len() && x == join_words(
                    #[trigger] partials[i],
                    #[trigger] exps[j],
                );
            if i < partials.len() - 1 {
                assert(init[i] == partials[i]);
                assert(head.contains(x));
                let n = choose|n: int| 0 <= n < head.len() && head[n] == x;
                assert((head + tail)[n] == x);
            } else {
                assert(tail[j] == x);
                assert((head + tail)[head.len() + j] == x);
            }
        }
    }
}

proof fn lemma_generate_rules_contains(g: GrammarView, rules: Seq<RuleView>, d: nat, x: Seq<char>)
    ensures
        generate_rules(g, rules, d).contains(x) <==> exists|k: int|
            0 <= k < rules.len() && generate_sequence(g, (#[trigger] rules[k]).rhs, d).contains(x),
    decreases rules.len(),
{
    if rules.len() > 0 {
        let init = rules.drop_last();
        let head = generate_rules(g, init, d);
        let tail = generate_sequence(g, rules.last().rhs, d);
        lemma_generate_rules_contains(g, init, d, x);
        assert(generate_rules(g, rules, d) == head + tail);
        if (head + tail).contains(x) {
            let n = choose|n: int| 0 <= n < (head + tail).len() && (head + tail)[n] == x;
            if n < head.len() {
                assert(head[n] == x);
                let k = choose|k: int|
                    0 <= k < init.len() && generate_sequence(g, (#[trigger] init[k]).rhs, d).contains(x);
                assert(rules[k] == init[k]);
            } else {
                assert(tail[n - head.len()] == x);
                assert(rules[rules.len() - 1] == rules.last());
            }
        }
        if exists|k: int| 0 <= k < rules.len() && generate_sequence(g, (#[trigger] rules[k]).rhs, d).contains(x) {
            let k = choose|k: int|
                0 <= k < rules.len() && generate_sequence(g, (#[trigger] rules[k]).rhs, d).contains(x);
            if k < rules.len() - 1 {
                assert(init[k] == rules[k]);
                let n = choose|n: int| 0 <= n < head.len() && head[n] == x;
                assert((head + tail)[n] == x);
            } else {
                let n = choose|n: int| 0 <= n < tail.len() && tail[n] == x;
                assert((head + tail)[head.len() + n] == x);
            }
        }
    }
}

/// Raising the depth bound never loses a string: when every rule's left side
/// is a non-terminal, each string generated from `sym` within depth `d` is
/// also generated within depth `d + 1`.
pub proof fn lemma_generate_depth_monotone(g: GrammarView, sym: SymbolView, d: nat)
    requires
        rules_expand_non_terminals(g),
    ensures
        forall|x: Seq<char>| generate_spec(g, sym, d).contains(x) ==> #[trigger] generate_spec(
            g,
            sym,
            d + 1,
        ).contains(x),
    decreases d, 0nat,
{
    if !is_terminal_spec(g, sym) {
        let rules = rules_for_spec(g, sym);
        g.rules.lemma_filter_pred(lhs_is(sym), 0);
        assert(rules.contains(rules[0]));
        g.rules.lemma_filter_contains_rev(lhs_is(sym), rules[0]);
        assert(sym is NonTerminal);
    }
    if !is_terminal_spec(g, sym) && d > 0 {
        let rules = rules_for_spec(g, sym);
        assert(generate_spec(g, sym, d) == generate_rules(g, rules, (d - 1) as nat));
        assert(generate_spec(g, sym, d + 1) == generate_rules(g, rules, d));
        assert forall|x: Seq<char>| generate_spec(g, sym, d).contains(x) implies #[trigger] generate_spec(
            g,
            sym,
            d + 1,
        ).contains(x) by {
            lemma_generate_rules_contains(g, rules, (d - 1) as nat, x);
            lemma_generate_rules_contains(g, rules, d, x);
            let k = choose|k: int|
                0 <= k < rules.len() && generate_sequence(g, (#[trigger] rules[k]).rhs, (d - 1) as nat).contains(x);
            let e = (d - 1) as nat;
            lemma_generate_sequence_monotone(g, rules[k].rhs, e);
            assert(generate_sequence(g, rules[k].rhs, e + 1).contains(x));
            assert(e + 1 == d);
            assert(generate_sequence(g, rules[k].rhs, d).contains(x));
        }
    }
}

proof fn lemma_generate_sequence_monotone(g: GrammarView, rhs: Seq<SymbolView>, d: nat)
    requires
        rules_expand_non_terminals(g),
    ensures
        forall|x: Seq<char>| generate_sequence(g, rhs, d).contains(x) ==> #[trigger] generate_sequence(
            g,
            rhs,
            d + 1,
        ).contains(x),
    decreases d, rhs.len(),
{
    if rhs.len() > 0 {
        let init = rhs.drop_last();
        let last = rhs.last();
        lemma_generate_sequence_monotone(g, init, d);
        lemma_generate_depth_monotone(g, last, d);
        assert forall|x: Seq<char>| generate_sequence(g, rhs, d).contains(x) implies #[trigger] generate_sequence(
            g,
            rhs,
            d + 1,
        ).contains(x) by {
            let p0 = generate_sequence(g, init, d);
            let e0 = generate_spec(g, last, d);
            let p1 = generate_sequence(g, init, d + 1);
            let e1 = generate_spec(g, last, d + 1);
            lemma_extend_all_contains(p0, e0, x);
            lemma_extend_all_contains(p1, e1, x);
            let (i, j) = choose|i: int, j: int|
                0 <= i < p0.len() && 0 <= j < e0.len() && x == join_words(#[trigger] p0[i], #[trigger] e0[j]);
            assert(p0.contains(p0[i]));
            assert(e0.contains(e0[j]));
            assert(p1.contains(p0[i]));
            assert(e1.contains(e0[j]));
            let i1 = choose|i1: int| 0 <= i1 < p1.len() && p1[i1] == p0[i];
            let j1 = choose|j1: int| 0 <= j1 < e1.len() && e1[j1] == e0[j];
            assert(x == join_words(p1[i1], e1[j1]));
        }
    }
}


/// Every partial string is extended by every expansion, partial strings
/// outermost: the result has one string per pair, the pair (i, j) at index
/// `i * exps.len() + j`.
pub proof fn lemma_extend_all_pairs(partials: Seq<Seq<char>>, exps: Seq<Seq<char>>)
    ensures
        extend_all(partials, exps).len() == partials.len() * exps.len(),
        forall|i: int, j: int|
            0 <= i < partials.len() && 0 <= j < exps.len() ==> extend_all(partials, exps)[i * exps.len() + j]
                == join_words(#[trigger] partials[i], #[trigger] exps[j]),
    decreases partials.len(),
{
    let n = partials.len() as int;
    let m = exps.len() as int;
    if n > 0 {
        let init = partials.drop_last();
        lemma_extend_all_pairs(init, exps);
        let head = extend_all(init, exps);
        let tail = exps.map_values(|e: Seq<char>| join_words(partials.last(), e));
        assert(extend_all(partials, exps) == head + tail);
        assert((n - 1) * m + m == n * m) by (nonlinear_arith);
        assert forall|i: int, j: int| 0 <= i < n && 0 <= j < m implies extend_all(partials, exps)[i * m + j]
            == join_words(#[trigger] partials[i], #[trigger] exps[j]) by {
            if i < n - 1 {
                assert(i * m + j < (n - 1) * m) by (nonlinear_arith)
                    requires
                        0 <= i < n - 1,
                        0 <= j < m,
                ;
                assert(init[i] == partials[i]);
                assert((head + tail)[i * m + j] == head[i * m + j]);
            } else {
                assert(i * m == (n - 1) * m);
                assert((head + tail)[i * m + j] == tail[j]);
            }
        }
    }
}


/// A symbol that has rules, reached with depth left, generates exactly the
/// strings that one of its rules' right-hand sides generates one level down.
pub proof fn lemma_generate_expands_rules(g: GrammarView, sym: SymbolView, d: nat, x: Seq<char>)
    requires
        !is_terminal_spec(g, sym),
    ensures
        generate_spec(g, sym, d + 1).contains(x) <==> exists|k: int|
            0 <= k < rules_for_spec(g, sym).len() && generate_sequence(
                g,
                (#[trigger] rules_for_spec(g, sym)[k]).rhs,
                d,
            ).contains(x),
{
    lemma_generate_rules_contains(g, rules_for_spec(g, sym), d, x);
}

} // verus!
