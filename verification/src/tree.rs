use vstd::prelude::*;
use crate::grammar::{Symbol, SpecSymbol, SpecProduction};

verus! {

/// A parse tree: a grammar symbol and, for a non-terminal, the trees of the symbols it was
/// expanded to.
#[derive(Debug, PartialEq)]
pub struct ParseTree {
    pub value: Symbol,
    pub children: Vec<ParseTree>,
}

/// The symbols at the roots of a list of trees.
pub open spec fn roots(ts: Seq<ParseTree>) -> Seq<SpecSymbol> {
    ts.map_values(|t: ParseTree| t.value@)
}

/// The tree is built by the productions `ps`: a terminal is a leaf, and the children of a
/// non-terminal have as symbols the right side of one of its productions, and are built
/// by `ps` in turn.
pub open spec fn tree_ok(ps: Seq<SpecProduction>, t: ParseTree) -> bool
    decreases t,
{
    match t.value {
        Symbol::Terminal(_) => t.children@.len() == 0,
        Symbol::NonTerminal(a) => {
            &&& exists|q: int| 0 <= q < ps.len() && (#[trigger] ps[q]).lhs == a@ && ps[q].rhs == roots(t.children@)
            &&& forall|i: int| 0 <= i < t.children@.len() ==> tree_ok(ps, #[trigger] t.children@[i])
        },
    }
}

/// The terminals at the leaves of a tree, from left to right.
pub open spec fn tree_yield(t: ParseTree) -> Seq<Seq<char>>
    decreases t, 1nat,
{
    match t.value {
        Symbol::Terminal(s) => seq![s@],
        Symbol::NonTerminal(_) => forest_yield(t.children@),
    }
}

/// The terminals at the leaves of a list of trees, from left to right.
pub open spec fn forest_yield(ts: Seq<ParseTree>) -> Seq<Seq<char>>
    decreases ts, 0nat,
{
    if ts.len() == 0 {
        Seq::empty()
    } else {
        forest_yield(ts.drop_last()) + tree_yield(ts.last())
    }
}

/// The inner nodes of the tree in post-order, each as the name of its non-terminal and the
/// symbols of its children.
pub open spec fn node_shapes(t: ParseTree) -> Seq<(Seq<char>, Seq<SpecSymbol>)>
    decreases t, 1nat,
{
    match t.value {
        Symbol::Terminal(_) => Seq::empty(),
        Symbol::NonTerminal(a) => forest_shapes(t.children@).push((a@, roots(t.children@))),
    }
}

/// The inner nodes of a list of trees in post-order.
pub open spec fn forest_shapes(ts: Seq<ParseTree>) -> Seq<(Seq<char>, Seq<SpecSymbol>)>
    decreases ts, 0nat,
{
    if ts.len() == 0 {
        Seq::empty()
    } else {
        forest_shapes(ts.drop_last()) + node_shapes(ts.last())
    }
}

/// The left and right sides of the productions `ds`.
pub open spec fn prod_shapes(ps: Seq<SpecProduction>, ds: Seq<usize>) -> Seq<(Seq<char>, Seq<SpecSymbol>)> {
    ds.map_values(|d: usize| (ps[d as int].lhs, ps[d as int].rhs))
}

/// The inner nodes of two lists of trees side by side.
pub proof fn lemma_forest_shapes_append(a: Seq<ParseTree>, b: Seq<ParseTree>)
    ensures
        forest_shapes(a + b) == forest_shapes(a) + forest_shapes(b),
    decreases b.len(),
{
    if b.len() == 0 {
        assert(a + b =~= a);
        assert(forest_shapes(a) + forest_shapes(b) =~= forest_shapes(a));
    } else {
        assert((a + b).drop_last() =~= a + b.drop_last());
        assert((a + b).last() == b.last());
        lemma_forest_shapes_append(a, b.drop_last());
        assert(forest_shapes(a + b) =~= forest_shapes(a) + forest_shapes(b));
    }
}

} // verus!
