use vstd::prelude::*;
use crate::bits::mem;
use crate::analysis::Sym;
use crate::grammar::{Symbol, SpecSymbol, SpecProduction, sym_name};
use crate::symbols::{sym_matches, prod_matches};
use crate::closure::{ItemView, valid_item};
use crate::dfa::{after_sym, has_entry, state_wf, lemma_dfa_kernel, lemma_dfa_first_state, lemma_dfa_expanded};
use crate::parser::{Lr1Parser, is_reduce, markers_fresh, single_start};
use crate::complete::{sentence_tree, conflict_free, lemma_sentence_tree, lemma_sentence_not_rejected};
use crate::tree::{ParseTree, roots, tree_ok, tree_yield, forest_yield, node_shapes, forest_shapes, prod_shapes, lemma_forest_shapes_append};
use crate::run::{
    Config, Move, Outcome, id_of, reduction, next_move, run, reaches, start_config, parse_ends,
    lemma_reduce_choice, lemma_transition_target, lemma_id_of, lemma_reaches_refl,
    lemma_reaches_move, lemma_reaches_trans, lemma_reaches_run,
};

verus! {

/// What a successful parse gives: the tree at the bottom of the stack, and the productions
/// reduced by, in the order of the reductions (the rightmost derivation, reversed).
pub struct ParseOutput {
    pub tree: ParseTree,
    pub derivation: Vec<usize>,
}

/// The parse is stuck: in state `state` the automaton has no transition on `symbol`.
#[derive(Debug)]
pub struct ParseError {
    pub state: usize,
    pub symbol: Symbol,
}

/// State `from` has a transition on `x` to state `to`.
pub open spec fn goto_of(tr: Seq<Seq<(Sym, usize)>>, from: int, x: Sym, to: usize) -> bool {
    exists|e: int| 0 <= e < tr[from].len() && tr[from][e] == (x, to)
}

/// The state under element `k` of a stack of states: the start state under the first.
pub open spec fn state_below(st: Seq<usize>, k: int) -> int {
    if k == 0 {
        0
    } else {
        st[k - 1] as int
    }
}

/// The states `st` of a stack are reached from the start state, each from the one below it
/// on the symbol beside it in `syms`.
pub open spec fn path_ok(p: Lr1Parser, st: Seq<usize>, syms: Seq<Sym>) -> bool {
    &&& st.len() == syms.len()
    &&& forall|k: int| 0 <= k < st.len() ==> (#[trigger] st[k]) < p.states().len()
    &&& forall|k: int| 0 <= k < st.len() ==> #[trigger] goto_of(p.trans(), state_below(st, k), syms[k], st[k])
}

/// The terminals of an input.
pub open spec fn tokens(input: Seq<&str>) -> Seq<Seq<char>> {
    input.map_values(|s: &str| s@)
}

/// No symbol of the parser's grammar that stands for `v` has a transition from `state`.
pub open spec fn stuck(p: Lr1Parser, state: int, v: SpecSymbol) -> bool {
    forall|x: Sym| #[trigger] sym_matches(p.cfgctx.names(), x, v) ==> !has_entry(p.trans()[state], x)
}

/// Two symbols over indices that stand for the same symbol are equal, and so are two symbols
/// that one symbol over indices stands for.
pub proof fn lemma_sym_matches_unique(names: Seq<Seq<char>>, x: Sym, y: Sym, v: SpecSymbol, w: SpecSymbol)
    requires
        names.no_duplicates(),
        sym_matches(names, x, v),
        sym_matches(names, y, w),
    ensures
        x == y ==> v == w,
        v == w ==> x == y,
{
    if v == w && x.id != y.id {
        assert(names[x.id as int] != names[y.id as int]);
    }
}

/// The yield of two lists of trees side by side.
pub proof fn lemma_forest_yield_append(a: Seq<ParseTree>, b: Seq<ParseTree>)
    ensures
        forest_yield(a + b) == forest_yield(a) + forest_yield(b),
    decreases b.len(),
{
    if b.len() == 0 {
        assert(a + b =~= a);
        assert(forest_yield(b) =~= Seq::<Seq<char>>::empty());
        assert(forest_yield(a) + forest_yield(b) =~= forest_yield(a));
    } else {
        assert((a + b).drop_last() =~= a + b.drop_last());
        assert((a + b).last() == b.last());
        lemma_forest_yield_append(a, b.drop_last());
        assert(forest_yield(a + b) =~= forest_yield(a) + forest_yield(b));
    }
}

/// An item of the state on top of a stack reached from the start state has the symbols
/// before its dot on top of the stack.
pub proof fn lemma_viable(p: Lr1Parser, st: Seq<usize>, syms: Seq<Sym>, it: ItemView)
    requires
        p.wf(),
        path_ok(p, st, syms),
        p.states()[state_below(st, st.len() as int)].contains(it),
    ensures
        it.d <= st.len(),
        forall|j: int| 0 <= j < it.d ==> syms[st.len() - it.d + j] == #[trigger] p.cfgctx.g()[it.p as int].rhs[j],
        p.states()[state_below(st, st.len() - it.d)].contains(ItemView { p: it.p, d: 0, la: it.la }),
    decreases it.d,
{
    let ctx = p.cfgctx;
    let states = p.states();
    let tr = p.trans();
    let l = st.len() as int;
    let top = state_below(st, l);
    let m = choose|m: int| 0 <= m < states[top].len() && states[top][m] == it;
    if it.d == 0 {
        assert(it == ItemView { p: it.p, d: 0, la: it.la });
        return;
    }
    if l == 0 {
        lemma_dfa_first_state(ctx, p.start@, states, tr, m);
        return;
    }
    let i = state_below(st, l - 1);
    assert(goto_of(tr, i, syms[l - 1], st[l - 1]));
    let e = choose|e: int| 0 <= e < tr[i].len() && tr[i][e] == (syms[l - 1], st[l - 1]);
    lemma_dfa_kernel(ctx, p.start@, states, tr, i, e, m);
    let m0 = choose|m0: int|
        0 <= m0 < states[i].len() && #[trigger] states[i][m0] == (ItemView {
            p: states[tr[i][e].1 as int][m].p,
            d: (states[tr[i][e].1 as int][m].d - 1) as nat,
            la: states[tr[i][e].1 as int][m].la,
        }) && after_sym(ctx.g(), states[i][m0]) == Some(tr[i][e].0);
    let prev = states[i][m0];
    let st2 = st.take(l - 1);
    let syms2 = syms.take(l - 1);
    assert forall|k: int| 0 <= k < st2.len() implies #[trigger] goto_of(tr, state_below(st2, k), syms2[k], st2[k]) by {
        assert(goto_of(tr, state_below(st, k), syms[k], st[k]));
        assert(state_below(st2, k) == state_below(st, k));
    }
    assert forall|k: int| 0 <= k < st2.len() implies (#[trigger] st2[k]) < states.len() by {
        assert(st[k] < states.len());
    }
    assert(state_below(st2, st2.len() as int) == i);
    assert(states[i][m0] == prev);
    lemma_viable(p, st2, syms2, prev);
    assert forall|j: int| 0 <= j < it.d implies syms[l - it.d + j] == #[trigger] ctx.g()[it.p as int].rhs[j] by {
        if j < it.d - 1 {
            assert(syms2[(l - 1) - prev.d + j] == ctx.g()[prev.p as int].rhs[j]);
        } else {
            assert(after_sym(ctx.g(), prev) == Some(syms[l - 1]));
        }
    }
    assert(state_below(st2, st2.len() - prev.d) == state_below(st, l - it.d));
}

/// The symbols of a list of terminals.
pub open spec fn terminals(ts: Seq<Seq<char>>) -> Seq<SpecSymbol> {
    ts.map_values(|t: Seq<char>| SpecSymbol::Terminal(t))
}

/// The index of the last non-terminal of a sentential form, or -1 when it has none.
pub open spec fn last_nonterminal(f: Seq<SpecSymbol>) -> int
    decreases f.len(),
{
    if f.len() == 0 {
        -1
    } else if f.last() is NonTerminal {
        f.len() - 1
    } else {
        last_nonterminal(f.drop_last())
    }
}

/// The productions `ds`, taken from the last to the first, are the steps of a rightmost
/// derivation of `to` from `f`: each replaces the last non-terminal of the form, which is its
/// left side, by its right side.
pub open spec fn rightmost_derives(ps: Seq<SpecProduction>, f: Seq<SpecSymbol>, ds: Seq<usize>, to: Seq<SpecSymbol>) -> bool
    decreases ds.len(),
{
    if ds.len() == 0 {
        f == to
    } else {
        let q = ds.last() as int;
        let i = last_nonterminal(f);
        &&& 0 <= q < ps.len()
        &&& 0 <= i
        &&& f[i] == SpecSymbol::NonTerminal(ps[q].lhs)
        &&& rightmost_derives(ps, f.take(i) + ps[q].rhs + f.skip(i + 1), ds.drop_last(), to)
    }
}

pub proof fn lemma_last_nonterminal_range(f: Seq<SpecSymbol>)
    ensures
        -1 <= last_nonterminal(f) < f.len(),
        last_nonterminal(f) >= 0 ==> f[last_nonterminal(f)] is NonTerminal,
    decreases f.len(),
{
    if f.len() > 0 && !(f.last() is NonTerminal) {
        lemma_last_nonterminal_range(f.drop_last());
    }
}

/// The last non-terminal of a form that ends with terminals.
pub proof fn lemma_last_nonterminal(a: Seq<SpecSymbol>, x: SpecSymbol, w: Seq<SpecSymbol>)
    requires
        x is NonTerminal,
        forall|i: int| 0 <= i < w.len() ==> #[trigger] w[i] is Terminal,
    ensures
        last_nonterminal(a.push(x) + w) == a.len(),
    decreases w.len(),
{
    if w.len() == 0 {
        assert(a.push(x) + w =~= a.push(x));
    } else {
        assert((a.push(x) + w).drop_last() =~= a.push(x) + w.drop_last());
        assert(w[w.len() - 1] is Terminal);
        lemma_last_nonterminal(a, x, w.drop_last());
    }
}

/// A terminal at the end of both forms plays no part in a rightmost derivation.
pub proof fn lemma_rightmost_strip(ps: Seq<SpecProduction>, f: Seq<SpecSymbol>, ds: Seq<usize>, to: Seq<SpecSymbol>, t: Seq<char>)
    requires
        rightmost_derives(ps, f.push(SpecSymbol::Terminal(t)), ds, to.push(SpecSymbol::Terminal(t))),
    ensures
        rightmost_derives(ps, f, ds, to),
    decreases ds.len(),
{
    let ft = f.push(SpecSymbol::Terminal(t));
    assert(ft.drop_last() =~= f);
    if ds.len() == 0 {
        assert(f =~= ft.drop_last());
        assert(to =~= to.push(SpecSymbol::Terminal(t)).drop_last());
    } else {
        let q = ds.last() as int;
        let i = last_nonterminal(f);
        assert(last_nonterminal(ft) == i);
        lemma_last_nonterminal_range(f);
        assert(ft[i] == f[i]);
        let f2 = f.take(i) + ps[q].rhs + f.skip(i + 1);
        assert(ft.take(i) + ps[q].rhs + ft.skip(i + 1) =~= f2.push(SpecSymbol::Terminal(t)));
        lemma_rightmost_strip(ps, f2, ds.drop_last(), to, t);
    }
}

/// The first `k` states of a stack reached from the start state are reached from it too.
pub proof fn lemma_path_prefix(p: Lr1Parser, st: Seq<usize>, syms: Seq<Sym>, k: int)
    requires
        path_ok(p, st, syms),
        0 <= k <= st.len(),
    ensures
        path_ok(p, st.take(k), syms.take(k)),
        forall|j: int| 0 <= j <= k ==> state_below(st.take(k), j) == state_below(st, j),
{
    let st2 = st.take(k);
    let syms2 = syms.take(k);
    assert forall|j: int| 0 <= j <= k implies state_below(st2, j) == state_below(st, j) by {}
    assert forall|j: int| 0 <= j < st2.len() implies #[trigger] goto_of(p.trans(), state_below(st2, j), syms2[j], st2[j]) by {
        assert(goto_of(p.trans(), state_below(st, j), syms[j], st[j]));
    }
    assert forall|j: int| 0 <= j < st2.len() implies (#[trigger] st2[j]) < p.states().len() by {
        assert(st[j] < p.states().len());
    }
}

/// When the start symbol and the end marker occur only in the augmented production, the
/// stack after the end marker is shifted holds two trees: one for the symbol the augmented
/// production starts with, whose leaves are the input, and the end marker.
pub proof fn lemma_accepted(
    p: Lr1Parser,
    st: Seq<usize>,
    syms: Seq<Sym>,
    trees: Seq<ParseTree>,
    toks: Seq<Seq<char>>,
)
    requires
        p.wf(),
        markers_fresh(p.cfgctx.augmented_cfg@),
        path_ok(p, st, syms),
        trees.len() == st.len(),
        st.len() >= 1,
        syms.last().terminal,
        sym_matches(p.cfgctx.names(), syms.last(), SpecSymbol::Terminal(p.cfgctx.augmented_cfg@.end)),
        forall|k: int| 0 <= k < trees.len() ==> #[trigger] sym_matches(p.cfgctx.names(), syms[k], trees[k].value@),
        forall|k: int| 0 <= k < trees.len() ==> tree_ok(p.cfgctx.augmented_cfg@.productions, #[trigger] trees[k]),
        forest_yield(trees) == toks.push(p.cfgctx.augmented_cfg@.end),
    ensures
        trees.len() == 2,
        trees[0].value@ == p.cfgctx.augmented_cfg@.productions.last().rhs[0],
        trees[1].value@ == SpecSymbol::Terminal(p.cfgctx.augmented_cfg@.end),
        tree_yield(trees[0]) == toks,
{
    let ctx = p.cfgctx;
    let a = ctx.augmented_cfg@;
    let ps = a.productions;
    let names = ctx.names();
    let g = ctx.g();
    let states = p.states();
    let tr = p.trans();
    let l = st.len() as int;
    let lb = l - 1;
    let last = ps.len() - 1;
    let t = state_below(st, lb);
    let x = syms[lb];
    assert(goto_of(tr, t, x, st[lb]));
    let e = choose|e: int| 0 <= e < tr[t].len() && tr[t][e] == (x, st[lb]);
    if lb > 0 {
        assert(st[lb - 1] < states.len());
    }
    assert(crate::dfa::row_ok(ctx, states, tr, t));
    assert(crate::dfa::has_source(ctx, states[t], tr[t][e].0));
    let m = choose|m: int| 0 <= m < states[t].len() && after_sym(ctx.g(), #[trigger] states[t][m]) == Some(x);
    let it = states[t][m];
    assert(state_wf(ctx, states[t]));
    assert(valid_item(ctx, it));
    assert(g[it.p as int].rhs[it.d as int] == x);
    assert(prod_matches(names, g[it.p as int], ps[it.p as int]));
    assert(sym_matches(names, g[it.p as int].rhs[it.d as int], ps[it.p as int].rhs[it.d as int]));
    lemma_sym_matches_unique(names, x, x, ps[it.p as int].rhs[it.d as int], SpecSymbol::Terminal(a.end));
    assert(sym_name(ps[it.p as int].rhs[it.d as int]) == a.end);
    assert(it.p == last && it.d == 1);
    lemma_path_prefix(p, st, syms, lb);
    let st2 = st.take(lb);
    let syms2 = syms.take(lb);
    assert(state_below(st2, st2.len() as int) == t);
    assert(states[t].contains(it));
    lemma_viable(p, st2, syms2, it);
    assert(syms2[lb - 1] == g[last].rhs[0]);
    let it0 = ItemView { p: it.p, d: 0, la: it.la };
    assert(states[state_below(st2, lb - 1)].contains(it0));
    if lb >= 2 {
        let i = state_below(st, lb - 2);
        let b = st[lb - 2] as int;
        assert(state_below(st2, lb - 1) == b);
        assert(goto_of(tr, i, syms[lb - 2], st[lb - 2]));
        let e2 = choose|e2: int| 0 <= e2 < tr[i].len() && tr[i][e2] == (syms[lb - 2], st[lb - 2]);
        if lb - 2 > 0 {
            assert(st[lb - 3] < states.len());
        }
        let m2 = choose|m2: int| 0 <= m2 < states[b].len() && states[b][m2] == it0;
        lemma_dfa_expanded(ctx, p.start@, states, tr, i, e2, m2);
        let m1 = choose|m1: int| 0 <= m1 < states[b].len() && #[trigger] crate::closure::expands(g, states[b][m1].p as int, states[b][m1].d as int, states[b][m2].p as int);
        let src = states[b][m1];
        assert(state_wf(ctx, states[b]));
        assert(valid_item(ctx, src));
        assert(prod_matches(names, g[src.p as int], ps[src.p as int]));
        assert(sym_matches(names, g[src.p as int].rhs[src.d as int], ps[src.p as int].rhs[src.d as int]));
        assert(prod_matches(names, g[last], ps[last]));
        assert(names[g[last].lhs as int] == a.start);
        assert(sym_name(ps[src.p as int].rhs[src.d as int]) == a.start);
        assert(false);
    }
    assert(l == 2);
    assert(prod_matches(names, g[last], ps[last]));
    assert(sym_matches(names, g[last].rhs[0], ps[last].rhs[0]));
    lemma_sym_matches_unique(names, syms[0], g[last].rhs[0], trees[0].value@, ps[last].rhs[0]);
    lemma_sym_matches_unique(names, syms[1], syms[1], trees[1].value@, SpecSymbol::Terminal(a.end));
    assert(tree_ok(ps, trees[1]));
    assert(tree_yield(trees[1]) =~= seq![a.end]);
    let one = trees.drop_last();
    assert(one.drop_last() =~= Seq::<ParseTree>::empty());
    assert(one.last() == trees[0]);
    assert(forest_yield(one.drop_last()) =~= Seq::<Seq<char>>::empty());
    assert(forest_yield(one) =~= tree_yield(trees[0]));
    assert(forest_yield(trees) =~= tree_yield(trees[0]).push(a.end));
    assert(tree_yield(trees[0]) =~= toks.push(a.end).drop_last());
    assert(toks.push(a.end).drop_last() =~= toks);
}

/// The stack of a parse: the trees, the states, and the symbol at the root of each tree.
struct ParseStack {
    trees: Vec<ParseTree>,
    states: Vec<usize>,
    syms: Vec<Sym>,
    derivation: Vec<usize>,
}

/// The stack holds, for the first `k` terminals of `all`, trees built by the grammar whose
/// leaves are those terminals, over states reached on the trees' symbols from the start state;
/// and the reductions made so far, taken from the last, are a rightmost derivation of `all`
/// from the trees' symbols followed by the terminals not read yet.
spec fn stack_ok(p: Lr1Parser, s: ParseStack, all: Seq<Seq<char>>, k: int) -> bool {
    &&& 0 <= k <= all.len()
    &&& s.trees@.len() == s.states@.len()
    &&& path_ok(p, s.states@, s.syms@)
    &&& forall|j: int| 0 <= j < s.trees@.len() ==> #[trigger] sym_matches(p.cfgctx.names(), s.syms@[j], s.trees@[j].value@)
    &&& forall|j: int| 0 <= j < s.trees@.len() ==> tree_ok(p.cfgctx.augmented_cfg@.productions, #[trigger] s.trees@[j])
    &&& forest_yield(s.trees@) == all.take(k)
    &&& forall|j: int| 0 <= j < s.derivation@.len() ==> (#[trigger] s.derivation@[j]) < p.cfgctx.g().len()
    &&& rightmost_derives(p.cfgctx.augmented_cfg@.productions, roots(s.trees@) + terminals(all.skip(k)), s.derivation@, terminals(all))
    &&& forest_shapes(s.trees@) == prod_shapes(p.cfgctx.augmented_cfg@.productions, s.derivation@)
}

/// The configuration of the parse that a stack stands for, after `k` terminals.
spec fn config_of(s: ParseStack, k: int) -> Config {
    Config { st: s.states@, syms: s.syms@, ds: s.derivation@, k: k as nat }
}

impl Lr1Parser {
    /// The state the automaton moves to from state `from` on the symbol `x`, if it has such a
    /// transition.
    pub fn transition(&self, from: usize, x: Sym) -> (r: Option<usize>)
        requires
            self.wf(),
            from < self.states().len(),
        ensures
            match r {
                Some(j) => goto_of(self.trans(), from as int, x, j) && j < self.states().len(),
                None => !has_entry(self.trans()[from as int], x),
            },
    {
        let row = &self.dfa.transitions[from];
        assert(row@ == self.trans()[from as int]);
        assert(crate::dfa::row_ok(self.cfgctx, self.states(), self.trans(), from as int));
        let mut e: usize = 0;
        while e < row.len()
            invariant
                self.wf(),
                from < self.states().len(),
                row@ == self.trans()[from as int],
                e <= row@.len(),
                forall|e2: int| 0 <= e2 < e ==> (#[trigger] row@[e2]).0 != x,
            decreases row@.len() - e,
        {
            if row[e].0 == x {
                assert(row@[e as int] == (x, row@[e as int].1));
                assert(crate::dfa::row_ok(self.cfgctx, self.states(), self.trans(), from as int));
                return Some(row[e].1);
            }
            e = e + 1;
        }
        None
    }

    /// When the state on top of the stack (the start state on an empty stack) has a reduce item
    /// with lookahead `t`, reduces by the least production of such items: pops the trees of its right side
    /// and pushes a tree for its left side. Says whether it reduced.
    fn reduce_once(
        &self,
        stack: &mut ParseStack,
        t: usize,
        Ghost(all): Ghost<Seq<Seq<char>>>,
        Ghost(k): Ghost<int>,
    ) -> (r: Result<bool, ParseError>)
        requires
            self.wf(),
            stack_ok(*self, *old(stack), all, k),
            old(stack).derivation@.len() <= usize::MAX,
            k < all.len(),
            t as int == id_of(self.cfgctx.names(), all[k]),
        ensures
            match r {
                Ok(true) => {
                    &&& stack_ok(*self, *final(stack), all, k)
                    &&& final(stack).derivation@.len() == old(stack).derivation@.len() + 1
                    &&& final(stack).derivation@.len() <= usize::MAX
                    &&& next_move(*self, all, config_of(*old(stack), k)) == Move::Next(config_of(*final(stack), k))
                },
                Ok(false) => {
                    &&& *final(stack) == *old(stack)
                    &&& reduction(*self, all, config_of(*old(stack), k)) == None::<usize>
                },
                Err(e) => {
                    &&& e.state < self.states().len()
                    &&& stuck(*self, e.state as int, e.symbol@)
                    &&& next_move(*self, all, config_of(*old(stack), k)) == Move::Reject(e.state as int, e.symbol@)
                },
            },
    {
        let ghost names = self.cfgctx.names();
        let ghost ps = self.cfgctx.augmented_cfg@.productions;
        let ghost g = self.cfgctx.g();
        let ghost c0 = config_of(*stack, k);
        assert(c0 == config_of(*old(stack), k));
        let l = stack.states.len();
        let top = if l == 0 { 0 } else { stack.states[l - 1] };
        proof {
            if l > 0 {
                assert(stack.states@[l - 1] < self.states().len());
            }
        }
        assert(state_below(c0.st, c0.st.len() as int) == top);
        let p = match self.reduce(top, t) {
            None => {
                return Ok(false);
            },
            Some(p) => p,
        };
        let ghost st0 = stack.states@;
        let ghost sy0 = stack.syms@;
        let ghost tr0 = stack.trees@;
        let ghost d0 = stack.derivation@;
        let ghost s = self.states()[top as int];
        let ghost i = choose|i: int| 0 <= i < s.len() && is_reduce(g, #[trigger] s[i]) && mem(s[i].la, t as int) && s[i].p == p as int;
        proof {
            assert(state_wf(self.cfgctx, s));
            assert(valid_item(self.cfgctx, s[i]));
            assert(state_below(st0, st0.len() as int) == top);
            lemma_viable(*self, st0, sy0, s[i]);
            lemma_reduce_choice(g, s, t as int, p);
            assert(reduction(*self, all, c0) == Some(p));
        }
        let len = self.cfgctx.grammar[p].rhs.len();
        assert(len == g[p as int].rhs.len());
        assert(s[i].d == len);
        let start = l - len;
        let below = if start == 0 { 0 } else { stack.states[start - 1] };
        proof {
            if start > 0 {
                assert(st0[start - 1] < self.states().len());
            }
            assert(below == state_below(st0, start as int));
            assert(crate::analysis::wf_prod(g[p as int], self.cfgctx.n()));
            assert(prod_matches(names, g[p as int], ps[p as int]));
        }
        let x = Sym { terminal: false, id: self.cfgctx.grammar[p].lhs };
        let name = self.cfgctx.augmented_cfg.productions[p].nonterminal.clone();
        assert(name@ == ps[p as int].lhs);
        let found = self.transition(below, x);
        proof {
            lemma_transition_target(*self, below as int, x, found);
        }
        match found {
            None => {
                proof {
                    assert(reduction(*self, all, c0) == Some(p));
                    assert(crate::run::goto_target(self.trans()[below as int], x, 0) == None::<usize>);
                    assert(next_move(*self, all, c0) == Move::Reject(below as int, SpecSymbol::NonTerminal(name@)));
                    assert forall|y: Sym| #[trigger] sym_matches(names, y, SpecSymbol::NonTerminal(name@)) implies !has_entry(self.trans()[below as int], y) by {
                        assert(sym_matches(names, x, SpecSymbol::NonTerminal(name@)));
                        lemma_sym_matches_unique(names, x, y, SpecSymbol::NonTerminal(name@), SpecSymbol::NonTerminal(name@));
                    }
                }
                return Err(ParseError { state: below, symbol: Symbol::NonTerminal(name) });
            },
            Some(j) => {
                let children = stack.trees.split_off(start);
                stack.states.truncate(start);
                stack.syms.truncate(start);
                let ghost kept = stack.trees@;
                let node = ParseTree { value: Symbol::NonTerminal(name), children };
                proof {
                    assert(tr0 =~= kept + children@);
                    assert forall|k: int| 0 <= k < len implies #[trigger] roots(children@)[k] == ps[p as int].rhs[k] by {
                        let kk = start + k;
                        assert(sym_matches(names, sy0[kk], tr0[kk].value@));
                        assert(sy0[kk] == g[p as int].rhs[k]);
                        assert(sym_matches(names, g[p as int].rhs[k], ps[p as int].rhs[k]));
                        assert(children@[k] == tr0[kk]);
                        lemma_sym_matches_unique(names, sy0[kk], g[p as int].rhs[k], tr0[kk].value@, ps[p as int].rhs[k]);
                    }
                    assert(roots(children@) =~= ps[p as int].rhs);
                    assert forall|k: int| 0 <= k < children@.len() implies tree_ok(ps, #[trigger] children@[k]) by {
                        assert(children@[k] == tr0[start + k]);
                    }
                    assert(tree_ok(ps, node));
                    lemma_forest_yield_append(kept, children@);
                    assert(tree_yield(node) == forest_yield(children@));
                }
                stack.trees.push(node);
                stack.states.push(j);
                stack.syms.push(x);
                stack.derivation.push(p);
                let _ = stack.derivation.len();
                proof {
                    let st1 = stack.states@;
                    let sy1 = stack.syms@;
                    assert(st1 =~= st0.take(start as int).push(j));
                    assert(sy1 =~= sy0.take(start as int).push(x));
                    assert(stack.trees@ =~= kept.push(node));
                    assert forall|k: int| 0 <= k < st1.len() implies #[trigger] goto_of(self.trans(), state_below(st1, k), sy1[k], st1[k]) by {
                        if k < start {
                            assert(goto_of(self.trans(), state_below(st0, k), sy0[k], st0[k]));
                            assert(state_below(st1, k) == state_below(st0, k));
                        }
                    }
                    assert forall|k: int| 0 <= k < st1.len() implies (#[trigger] st1[k]) < self.states().len() by {
                        if k < start {
                            assert(st0[k] < self.states().len());
                        }
                    }
                    assert forall|k: int| 0 <= k < stack.trees@.len() implies #[trigger] sym_matches(names, sy1[k], stack.trees@[k].value@) by {
                        if k < start {
                            assert(sym_matches(names, sy0[k], tr0[k].value@));
                        }
                    }
                    assert forall|k: int| 0 <= k < stack.trees@.len() implies tree_ok(ps, #[trigger] stack.trees@[k]) by {
                        if k < start {
                            assert(tree_ok(ps, tr0[k]));
                        }
                    }
                    assert(stack.trees@.drop_last() =~= kept);
                    assert(forest_yield(stack.trees@) =~= forest_yield(kept) + forest_yield(children@));
                    assert forall|q: int| 0 <= q < stack.derivation@.len() implies (#[trigger] stack.derivation@[q]) < g.len() by {
                    }
                    let w = terminals(all.skip(k));
                    let lhs = SpecSymbol::NonTerminal(ps[p as int].lhs);
                    assert(roots(stack.trees@) =~= roots(kept).push(lhs));
                    assert forall|j: int| 0 <= j < w.len() implies #[trigger] w[j] is Terminal by {}
                    lemma_last_nonterminal(roots(kept), lhs, w);
                    let f1 = roots(stack.trees@) + w;
                    let i = roots(kept).len() as int;
                    assert(f1[i] == lhs);
                    assert(f1.take(i) + ps[p as int].rhs + f1.skip(i + 1) =~= roots(tr0) + w) by {
                        assert(roots(tr0) =~= roots(kept) + roots(children@));
                        assert(f1.take(i) =~= roots(kept));
                        assert(f1.skip(i + 1) =~= w);
                    }
                    assert(stack.derivation@.drop_last() =~= d0);
                    assert(stack.derivation@.last() == p);
                    assert(ps.len() == g.len());
                    assert(rightmost_derives(ps, roots(tr0) + w, d0, terminals(all)));
                    assert(rightmost_derives(ps, f1, stack.derivation@, terminals(all)));
                    assert(stack.derivation@ =~= d0.push(p));
                    lemma_forest_shapes_append(kept, children@);
                    assert(node_shapes(node) == forest_shapes(children@).push((ps[p as int].lhs, ps[p as int].rhs)));
                    assert(forest_shapes(stack.trees@) =~= forest_shapes(kept) + node_shapes(node));
                    assert(prod_shapes(ps, stack.derivation@) =~= prod_shapes(ps, d0).push((ps[p as int].lhs, ps[p as int].rhs)));
                    assert(forest_shapes(stack.trees@) =~= prod_shapes(ps, stack.derivation@));
                    assert(config_of(*stack, k) == Config { st: st0.take(start as int).push(j), syms: sy0.take(start as int).push(x), ds: d0.push(p), k: k as nat });
                }
                Ok(true)
            },
        }
    }

    /// Reads one terminal: reduces while the state on top of the stack has a reduce item
    /// with the terminal as lookahead, then shifts the terminal.
    fn feed(
        &self,
        stack: &mut ParseStack,
        tok: String,
        Ghost(all): Ghost<Seq<Seq<char>>>,
        Ghost(k): Ghost<int>,
    ) -> (r: Result<(), ParseError>)
        requires
            self.wf(),
            stack_ok(*self, *old(stack), all, k),
            k < all.len(),
            tok@ == all[k],
        ensures
            match r {
                Ok(()) => {
                    &&& stack_ok(*self, *final(stack), all, k + 1)
                    &&& final(stack).trees@.len() > 0
                    &&& final(stack).syms@.last().terminal
                    &&& sym_matches(self.cfgctx.names(), final(stack).syms@.last(), SpecSymbol::Terminal(tok@))
                    &&& reaches(*self, all, config_of(*old(stack), k), config_of(*final(stack), k + 1))
                },
                Err(e) => {
                    &&& e.state < self.states().len()
                    &&& stuck(*self, e.state as int, e.symbol@)
                    &&& exists|f: nat| #[trigger] run(*self, all, config_of(*old(stack), k), f) == Outcome::Rejected(e.state as int, e.symbol@)
                },
            },
    {
        let ghost names = self.cfgctx.names();
        let ghost ps = self.cfgctx.augmented_cfg@.productions;
        let ghost g = self.cfgctx.g();
        let ghost c0 = config_of(*stack, k);
        assert(c0 == config_of(*old(stack), k));
        let tid = self.cfgctx.symbols.lookup(&tok);
        let t = match tid {
            Some(t) => t,
            None => {
                let top = if stack.states.len() == 0 { 0 } else { stack.states[stack.states.len() - 1] };
                proof {
                    if stack.states@.len() > 0 {
                        assert(stack.states@[stack.states@.len() - 1] < self.states().len());
                    }
                    assert forall|x: Sym| #[trigger] sym_matches(names, x, SpecSymbol::Terminal(tok@)) implies !has_entry(self.trans()[top as int], x) by {
                        assert(names[x.id as int] == tok@);
                    }
                    assert(id_of(names, all[k]) == -1);
                    assert(top == state_below(c0.st, c0.st.len() as int));
                    assert(next_move(*self, all, c0) == Move::Reject(top as int, SpecSymbol::Terminal(tok@)));
                    assert(run(*self, all, c0, 1) == Outcome::Rejected(top as int, SpecSymbol::Terminal(tok@)));
                }
                return Err(ParseError { state: top, symbol: Symbol::Terminal(tok) });
            },
        };
        proof {
            lemma_id_of(names, t as int);
            lemma_reaches_refl(*self, all, c0);
        }
        let mut reducing = true;
        let _ = stack.derivation.len();
        while reducing
            invariant
                self.wf(),
                stack_ok(*self, *stack, all, k),
                k < all.len(),
                tok@ == all[k],
                stack.derivation@.len() <= usize::MAX,
                t < self.cfgctx.n(),
                t as int == id_of(self.cfgctx.names(), all[k]),
                reaches(*self, all, c0, config_of(*stack, k)),
                c0 == config_of(*old(stack), k),
                !reducing ==> reduction(*self, all, config_of(*stack, k)) == None::<usize>,
            decreases (if reducing { 1int } else { 0int }), usize::MAX - stack.derivation@.len(),
        {
            let ghost cb = config_of(*stack, k);
            match self.reduce_once(stack, t, Ghost(all), Ghost(k)) {
                Ok(more) => {
                    proof {
                        if more {
                            lemma_reaches_move(*self, all, cb, config_of(*stack, k));
                            lemma_reaches_trans(*self, all, c0, cb, config_of(*stack, k));
                        }
                    }
                    reducing = more;
                },
                Err(e) => {
                    proof {
                        assert(cb.k < all.len());
                        assert(run(*self, all, cb, 1) == Outcome::Rejected(e.state as int, e.symbol@));
                        let m = lemma_reaches_run(*self, all, c0, cb, 1);
                        assert(run(*self, all, c0, m + 1) == Outcome::Rejected(e.state as int, e.symbol@));
                        assert(run(*self, all, config_of(*old(stack), k), m + 1) == Outcome::Rejected(e.state as int, e.symbol@));
                    }
                    return Err(e);
                },
            }
        }
        let l = stack.states.len();
        let top = if l == 0 { 0 } else { stack.states[l - 1] };
        proof {
            if l > 0 {
                assert(stack.states@[l - 1] < self.states().len());
            }
            assert(top == state_below(stack.states@, l as int));
        }
        let x = Sym { terminal: true, id: t };
        let ghost cb = config_of(*stack, k);
        let found = self.transition(top, x);
        proof {
            lemma_transition_target(*self, top as int, x, found);
            assert(top == state_below(cb.st, cb.st.len() as int));
        }
        match found {
            None => {
                proof {
                    assert(next_move(*self, all, cb) == Move::Reject(top as int, SpecSymbol::Terminal(tok@)));
                    assert(run(*self, all, cb, 1) == Outcome::Rejected(top as int, SpecSymbol::Terminal(tok@)));
                    let m = lemma_reaches_run(*self, all, c0, cb, 1);
                    assert(run(*self, all, c0, m + 1) == Outcome::Rejected(top as int, SpecSymbol::Terminal(tok@)));
                    assert(sym_matches(names, x, SpecSymbol::Terminal(tok@)));
                    assert forall|y: Sym| #[trigger] sym_matches(names, y, SpecSymbol::Terminal(tok@)) implies !has_entry(self.trans()[top as int], y) by {
                        lemma_sym_matches_unique(names, x, y, SpecSymbol::Terminal(tok@), SpecSymbol::Terminal(tok@));
                    }
                }
                Err(ParseError { state: top, symbol: Symbol::Terminal(tok) })
            },
            Some(j) => {
                let ghost st0 = stack.states@;
                let ghost sy0 = stack.syms@;
                let ghost tr0 = stack.trees@;
                let leaf = ParseTree { value: Symbol::Terminal(tok), children: Vec::new() };
                let ghost lf = leaf;
                assert(tree_yield(lf) =~= seq![tok@]);
                stack.trees.push(leaf);
                stack.states.push(j);
                stack.syms.push(x);
                proof {
                    let st1 = stack.states@;
                    let sy1 = stack.syms@;
                    assert forall|k: int| 0 <= k < st1.len() implies #[trigger] goto_of(self.trans(), state_below(st1, k), sy1[k], st1[k]) by {
                        if k < l {
                            assert(goto_of(self.trans(), state_below(st0, k), sy0[k], st0[k]));
                            assert(state_below(st1, k) == state_below(st0, k));
                        }
                    }
                    assert forall|k: int| 0 <= k < st1.len() implies (#[trigger] st1[k]) < self.states().len() by {
                        if k < l {
                            assert(st0[k] < self.states().len());
                        }
                    }
                    assert forall|k: int| 0 <= k < stack.trees@.len() implies #[trigger] sym_matches(names, sy1[k], stack.trees@[k].value@) by {
                        if k < l {
                            assert(sym_matches(names, sy0[k], tr0[k].value@));
                        }
                    }
                    assert forall|k: int| 0 <= k < stack.trees@.len() implies tree_ok(ps, #[trigger] stack.trees@[k]) by {
                        if k < l {
                            assert(tree_ok(ps, tr0[k]));
                        }
                    }
                    assert(stack.trees@.drop_last() =~= tr0);
                    assert(stack.trees@.last() == lf);
                    assert(node_shapes(lf) =~= Seq::<(Seq<char>, Seq<SpecSymbol>)>::empty());
                    assert(forest_shapes(stack.trees@) =~= forest_shapes(tr0));
                    assert(all.take(k + 1) =~= all.take(k).push(tok@));
                    assert(forest_yield(stack.trees@) =~= all.take(k + 1));
                    assert(roots(stack.trees@) + terminals(all.skip(k + 1)) =~= roots(tr0) + terminals(all.skip(k)));
                    assert(next_move(*self, all, cb) == Move::Next(config_of(*stack, k + 1)));
                    lemma_reaches_move(*self, all, cb, config_of(*stack, k + 1));
                    lemma_reaches_trans(*self, all, c0, cb, config_of(*stack, k + 1));
                }
                Ok(())
            },
        }
    }

    /// A parse that ends rejecting its input, when the automaton has no conflict and the
    /// augmented start symbol one production, was not given a sentence of the grammar.
    proof fn lemma_no_sentence_rejected(&self, input: Seq<&str>, s: int, v: SpecSymbol)
        requires
            self.wf(),
            parse_ends(*self, input, Outcome::Rejected(s, v)),
        ensures
            !(conflict_free(*self) && single_start(self.cfgctx.augmented_cfg@)
                && exists|t: ParseTree| #[trigger] sentence_tree(self.cfgctx.augmented_cfg@.productions, input, t)),
    {
        if conflict_free(*self) && single_start(self.cfgctx.augmented_cfg@)
            && exists|t: ParseTree| #[trigger] sentence_tree(self.cfgctx.augmented_cfg@.productions, input, t) {
            let t = choose|t: ParseTree| #[trigger] sentence_tree(self.cfgctx.augmented_cfg@.productions, input, t);
            let d = lemma_sentence_tree(*self, input, t);
            lemma_sentence_not_rejected(*self, input, d, s, v);
        }
    }

    /// Parses the terminals `input`, followed by the end marker: shifts each terminal after
    /// the reductions its lookahead calls for. On success, gives the tree at the bottom of the
    /// stack with the productions reduced by; otherwise the state and symbol with no
    /// transition.
    ///
    /// The outcome is that of the parse moves `next_move` from the empty stack. An accepted
    /// tree is built by the grammar's productions, its leaves begin the input, and its inner
    /// nodes are, in post-order, the first reductions. When the augmented start symbol and end
    /// marker occur only in the augmented production, the tree is one of the grammar's start
    /// symbol, its leaves are the input, and the reductions, from the last, are the steps of a
    /// rightmost derivation of the input. When the automaton has no conflict and the augmented
    /// start symbol has one production, every sentence of the grammar is accepted.
    pub fn parse(&self, input: &[&str]) -> (r: Result<ParseOutput, ParseError>)
        requires
            self.wf(),
        ensures
            match r {
                Ok(out) => {
                    &&& parse_ends(*self, input@, Outcome::Accepted(out.derivation@))
                    &&& tree_ok(self.cfgctx.augmented_cfg@.productions, out.tree)
                    &&& tree_yield(out.tree).is_prefix_of(tokens(input@).push(self.cfgctx.augmented_cfg@.end))
                    &&& node_shapes(out.tree).is_prefix_of(prod_shapes(self.cfgctx.augmented_cfg@.productions, out.derivation@))
                    &&& forall|j: int| 0 <= j < out.derivation@.len() ==> (#[trigger] out.derivation@[j]) < self.cfgctx.g().len()
                    &&& markers_fresh(self.cfgctx.augmented_cfg@) ==> {
                        &&& out.tree.value@ == self.cfgctx.augmented_cfg@.productions.last().rhs[0]
                        &&& tree_yield(out.tree) == tokens(input@)
                        &&& node_shapes(out.tree) == prod_shapes(self.cfgctx.augmented_cfg@.productions, out.derivation@)
                        &&& rightmost_derives(
                            self.cfgctx.augmented_cfg@.productions,
                            seq![self.cfgctx.augmented_cfg@.productions.last().rhs[0]],
                            out.derivation@,
                            terminals(tokens(input@)),
                        )
                    }
                },
                Err(e) => {
                    &&& parse_ends(*self, input@, Outcome::Rejected(e.state as int, e.symbol@))
                    &&& e.state < self.states().len()
                    &&& stuck(*self, e.state as int, e.symbol@)
                },
            },
            conflict_free(*self) && single_start(self.cfgctx.augmented_cfg@)
                && (exists|t: ParseTree| #[trigger] sentence_tree(self.cfgctx.augmented_cfg@.productions, input@, t)) ==> r is Ok,
    {
        let ghost all = tokens(input@).push(self.cfgctx.augmented_cfg@.end);
        let ghost ps = self.cfgctx.augmented_cfg@.productions;
        let mut stack = ParseStack { trees: Vec::new(), states: Vec::new(), syms: Vec::new(), derivation: Vec::new() };
        proof {
            assert(forest_yield(stack.trees@) =~= all.take(0));
            assert(roots(stack.trees@) + terminals(all.skip(0)) =~= terminals(all));
            assert(config_of(stack, 0) == start_config());
            assert(forest_shapes(stack.trees@) =~= prod_shapes(ps, stack.derivation@));
            lemma_reaches_refl(*self, all, start_config());
        }
        let mut k: usize = 0;
        while k < input.len()
            invariant
                self.wf(),
                all == tokens(input@).push(self.cfgctx.augmented_cfg@.end),
                k <= input@.len(),
                stack_ok(*self, stack, all, k as int),
                reaches(*self, all, start_config(), config_of(stack, k as int)),
            decreases input@.len() - k,
        {
            let tok = input[k].to_owned();
            let ghost cb = config_of(stack, k as int);
            match self.feed(&mut stack, tok, Ghost(all), Ghost(k as int)) {
                Ok(()) => {
                    proof {
                        lemma_reaches_trans(*self, all, start_config(), cb, config_of(stack, k + 1));
                    }
                },
                Err(e) => {
                    proof {
                        let f = choose|f: nat| #[trigger] run(*self, all, cb, f) == Outcome::Rejected(e.state as int, e.symbol@);
                        let m = lemma_reaches_run(*self, all, start_config(), cb, f);
                        assert(run(*self, all, start_config(), m + f) == Outcome::Rejected(e.state as int, e.symbol@));
                        self.lemma_no_sentence_rejected(input@, e.state as int, e.symbol@);
                    }
                    return Err(e);
                },
            }
            k = k + 1;
        }
        let end = self.cfgctx.augmented_cfg.end_terminal.clone();
        let ghost cb = config_of(stack, k as int);
        match self.feed(&mut stack, end, Ghost(all), Ghost(k as int)) {
            Ok(()) => {
                proof {
                    lemma_reaches_trans(*self, all, start_config(), cb, config_of(stack, k + 1));
                    let m = lemma_reaches_run(*self, all, start_config(), config_of(stack, k + 1), 0);
                    assert(run(*self, all, start_config(), m + 0) == Outcome::Accepted(stack.derivation@));
                }
            },
            Err(e) => {
                proof {
                    let f = choose|f: nat| #[trigger] run(*self, all, cb, f) == Outcome::Rejected(e.state as int, e.symbol@);
                    let m = lemma_reaches_run(*self, all, start_config(), cb, f);
                    assert(run(*self, all, start_config(), m + f) == Outcome::Rejected(e.state as int, e.symbol@));
                    self.lemma_no_sentence_rejected(input@, e.state as int, e.symbol@);
                }
                return Err(e);
            },
        }
        assert(all.take(k + 1) =~= all);
        let ghost trees = stack.trees@;
        proof {
            if markers_fresh(self.cfgctx.augmented_cfg@) {
                lemma_accepted(*self, stack.states@, stack.syms@, trees, tokens(input@));
                let x = ps.last().rhs[0];
                let t = SpecSymbol::Terminal(self.cfgctx.augmented_cfg@.end);
                assert(all.skip(k + 1) =~= Seq::<Seq<char>>::empty());
                assert(roots(trees) + terminals(all.skip(k + 1)) =~= seq![x].push(t));
                assert(terminals(all) =~= terminals(tokens(input@)).push(t));
                lemma_rightmost_strip(ps, seq![x], stack.derivation@, terminals(tokens(input@)), self.cfgctx.augmented_cfg@.end);
            }
        }
        let tree = stack.trees.swap_remove(0);
        proof {
            assert(trees =~= seq![trees[0]] + trees.skip(1));
            lemma_forest_yield_append(seq![trees[0]], trees.skip(1));
            assert(seq![trees[0]].drop_last() =~= Seq::<ParseTree>::empty());
            assert(forest_yield(seq![trees[0]]) =~= tree_yield(trees[0]));
            assert(tree_ok(self.cfgctx.augmented_cfg@.productions, trees[0]));
            lemma_forest_shapes_append(seq![trees[0]], trees.skip(1));
            assert(forest_shapes(seq![trees[0]].drop_last()) =~= Seq::<(Seq<char>, Seq<SpecSymbol>)>::empty());
            assert(forest_shapes(seq![trees[0]]) =~= node_shapes(trees[0]));
            assert(node_shapes(trees[0]) =~= prod_shapes(ps, stack.derivation@).subrange(0, node_shapes(trees[0]).len() as int));
            if markers_fresh(self.cfgctx.augmented_cfg@) {
                assert(trees.skip(1) =~= seq![trees[1]]);
                assert(seq![trees[1]].drop_last() =~= Seq::<ParseTree>::empty());
                assert(node_shapes(trees[1]) =~= Seq::<(Seq<char>, Seq<SpecSymbol>)>::empty());
                assert(forest_shapes(trees.skip(1)) =~= Seq::<(Seq<char>, Seq<SpecSymbol>)>::empty());
                assert(node_shapes(trees[0]) =~= prod_shapes(ps, stack.derivation@));
            }
        }
        Ok(ParseOutput { tree, derivation: stack.derivation })
    }
}

} // verus!
