use vstd::prelude::*;

use crate::grammar::{leaf_strings, SymbolView, TernarySymbol};
use crate::text::ternary_text;

verus! {

/// A node of a parse tree: its symbol and its children, left to right.
#[derive(PartialEq, Eq, Debug)]
pub struct ParseNode {
    pub symbol: TernarySymbol,
    pub children: Vec<ParseNode>,
}

/// What a parse tree stands for.
pub struct TreeView {
    pub symbol: SymbolView,
    pub children: Seq<TreeView>,
}

impl View for ParseNode {
    type V = TreeView;

    open spec fn view(&self) -> TreeView {
        node_view(*self)
    }
}

/// The tree that a node stands for.
pub open spec fn node_view(n: ParseNode) -> TreeView
    decreases n,
{
    TreeView {
        symbol: n.symbol@,
        children: Seq::new(
            n.children@.len(),
            |i: int| if 0 <= i < n.children@.len() { node_view(n.children@[i]) } else { arbitrary() },
        ),
    }
}

/// The words at the leaves of a tree, left to right.
pub open spec fn tree_leaves(t: TreeView) -> Seq<Seq<char>>
    decreases t,
{
    if t.children.len() == 0 {
        leaf_strings(t.symbol)
    } else {
        forest_leaves(t.children)
    }
}

/// The words at the leaves of a list of trees, left to right.
pub open spec fn forest_leaves(ts: Seq<TreeView>) -> Seq<Seq<char>>
    decreases ts,
{
    if ts.len() == 0 {
        Seq::empty()
    } else {
        tree_leaves(ts[0]) + forest_leaves(ts.drop_first())
    }
}

/// The leaves of a list of trees followed by one more tree.
pub proof fn lemma_forest_leaves_push(ts: Seq<TreeView>, t: TreeView)
    ensures
        forest_leaves(ts.push(t)) == forest_leaves(ts) + tree_leaves(t),
    decreases ts.len(),
{
    if ts.len() == 0 {
        assert(ts.push(t).drop_first() =~= Seq::<TreeView>::empty());
        assert(ts.push(t)[0] == t);
        assert(forest_leaves(ts.push(t).drop_first()) == Seq::<Seq<char>>::empty());
        assert(forest_leaves(ts.push(t)) =~= tree_leaves(t));
    } else {
        assert(ts.push(t).drop_first() =~= ts.drop_first().push(t));
        lemma_forest_leaves_push(ts.drop_first(), t);
        assert(forest_leaves(ts.push(t)) =~= forest_leaves(ts) + tree_leaves(t));
    }
}

impl ParseNode {
    /// A leaf for the terminal word `text`.
    pub fn terminal(text: &str) -> (r: Self)
        ensures
            r@.symbol == SymbolView::Terminal(text@),
            r@.children.len() == 0,
    {
        ParseNode { symbol: TernarySymbol::Terminal(String::from_str(text)), children: Vec::new() }
    }

    /// A node for the non-terminal `name` with the given children.
    pub fn non_terminal(name: &str, children: Vec<ParseNode>) -> (r: Self)
        ensures
            r@.symbol == SymbolView::NonTerminal(name@),
            r@.children == children@.map_values(|c: ParseNode| c@),
    {
        let r = ParseNode { symbol: TernarySymbol::NonTerminal(String::from_str(name)), children };
        assert(r@.children =~= children@.map_values(|c: ParseNode| c@));
        r
    }

    /// A deep copy of the tree.
    pub fn duplicate(&self) -> (r: Self)
        ensures
            r@ == self@,
        decreases self,
    {
        let mut children: Vec<ParseNode> = Vec::new();
        for i in 0..self.children.len()
            invariant
                children@.len() == i,
                i <= self.children@.len(),
                forall|j: int| 0 <= j < i ==> (#[trigger] children@[j])@ == self.children@[j]@,
        {
            children.push(self.children[i].duplicate());
        }
        let r = ParseNode { symbol: self.symbol.duplicate(), children };
        assert(r@.children =~= self@.children);
        r
    }

    /// Whether the node has no children.
    pub fn is_leaf(&self) -> (r: bool)
        ensures
            r == (self@.children.len() == 0),
    {
        self.children.len() == 0
    }

    /// The words at the leaves of the tree, left to right.
    pub fn terminals(&self) -> (r: Vec<String>)
        ensures
            r.deep_view() == tree_leaves(self@),
        decreases self,
    {
        if self.is_leaf() {
            let mut r: Vec<String> = Vec::new();
            match &self.symbol {
                TernarySymbol::Terminal(s) => r.push(s.clone()),
                TernarySymbol::Ternary(v) => r.push(ternary_text(*v)),
                TernarySymbol::NonTerminal(_) => {},
            }
            assert(r.deep_view() =~= leaf_strings(self@.symbol));
            r
        } else {
            let ghost kids = self@.children;
            let mut out: Vec<String> = Vec::new();
            for i in 0..self.children.len()
                invariant
                    kids == self@.children,
                    kids.len() == self.children.len(),
                    out.deep_view() == forest_leaves(kids.take(i as int)),
            {
                let mut part = self.children[i].terminals();
                let ghost before = out.deep_view();
                out.append(&mut part);
                proof {
                    assert(kids.take(i + 1) =~= kids.take(i as int).push(kids[i as int]));
                    lemma_forest_leaves_push(kids.take(i as int), kids[i as int]);
                }
                assert(out.deep_view() =~= forest_leaves(kids.take(i + 1)));
            }
            assert(kids.take(self.children.len() as int) =~= kids);
            out
        }
    }
}

} // verus!
