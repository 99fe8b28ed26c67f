use vstd::prelude::*;
use crate::bits::mem;
use crate::analysis::{Sym, SpecIProd, sym_nullable, prefix_nullable, seq_nullable, sym_first, in_first, prod_ok, nullable_ok, first_ok};
use crate::context::CfgContext;
use crate::closure::{ItemView, is_closure, closure_set, key_rel, la_rel, lemma_la_rel_at, closure_step, handed, expands, lemma_closure_kernel, valid_item};
use crate::dfa::{row_ok, goto_set, shifted, after_sym, has_closure, has_entry, found_before, found_by, state_wf};
use crate::parser::{Lr1Parser, single_start, conflicted};
use crate::driver::{goto_of, state_below, path_ok, tokens, lemma_sym_matches_unique};
use crate::symbols::{prod_matches, sym_matches};
use crate::grammar::{Symbol, SpecSymbol, SpecProduction};
use crate::tree::{ParseTree, tree_ok, tree_yield, forest_yield, roots};
use crate::run::{
    Config, Move, Outcome, next_move, reaches, run, start_config, parse_ends, goto_target, lemma_transition_target,
    lemma_id_of, lemma_move_follows_item, lemma_reaches_move, lemma_reaches_trans, lemma_reaches_refl,
    lemma_reaches_run, lemma_parse_ends_unique,
};

verus! {

/// A derivation tree over symbol indices: a leaf is a terminal, an inner node is a production
/// applied to the trees of the symbols of its right side.
pub enum DTree {
    Leaf(usize),
    Node(usize, Seq<DTree>),
}

/// The symbol at the root of a derivation tree.
pub open spec fn dt_sym(g: Seq<SpecIProd>, t: DTree) -> Sym {
    match t {
        DTree::Leaf(b) => Sym { terminal: true, id: b },
        DTree::Node(q, _) => Sym { terminal: false, id: g[q as int].lhs },
    }
}

/// The tree is built by the productions `g`: each inner node applies a production whose right
/// side is the symbols at the roots of its children.
pub open spec fn dt_ok(g: Seq<SpecIProd>, t: DTree) -> bool
    decreases t,
{
    match t {
        DTree::Leaf(_) => true,
        DTree::Node(q, cs) => {
            &&& 0 <= q < g.len()
            &&& cs.len() == g[q as int].rhs.len()
            &&& forall|i: int| 0 <= i < cs.len() ==> dt_sym(g, #[trigger] cs[i]) == g[q as int].rhs[i]
            &&& forall|i: int| 0 <= i < cs.len() ==> dt_ok(g, #[trigger] cs[i])
        },
    }
}

/// The terminals at the leaves of a tree, from left to right.
pub open spec fn dt_yield(t: DTree) -> Seq<int>
    decreases t, 1nat,
{
    match t {
        DTree::Leaf(b) => seq![b as int],
        DTree::Node(_, cs) => dforest_yield(cs),
    }
}

/// The terminals at the leaves of a list of trees, from left to right.
pub open spec fn dforest_yield(ts: Seq<DTree>) -> Seq<int>
    decreases ts, 0nat,
{
    if ts.len() == 0 {
        Seq::empty()
    } else {
        dforest_yield(ts.drop_last()) + dt_yield(ts.last())
    }
}

/// The yield of two lists of trees side by side.
pub proof fn lemma_dforest_yield_append(a: Seq<DTree>, b: Seq<DTree>)
    ensures
        dforest_yield(a + b) == dforest_yield(a) + dforest_yield(b),
    decreases b.len(),
{
    if b.len() == 0 {
        assert(a + b =~= a);
        assert(dforest_yield(a) + dforest_yield(b) =~= dforest_yield(a));
    } else {
        assert((a + b).drop_last() =~= a + b.drop_last());
        assert((a + b).last() == b.last());
        lemma_dforest_yield_append(a, b.drop_last());
        assert(dforest_yield(a + b) =~= dforest_yield(a) + dforest_yield(b));
    }
}

/// The yield of a list of trees split at `i`.
pub proof fn lemma_dforest_yield_split(ts: Seq<DTree>, i: int)
    requires
        0 <= i <= ts.len(),
    ensures
        dforest_yield(ts) == dforest_yield(ts.take(i)) + dforest_yield(ts.skip(i)),
{
    assert(ts == ts.take(i) + ts.skip(i));
    lemma_dforest_yield_append(ts.take(i), ts.skip(i));
}

/// The yield of a list of trees is that of its first tree followed by that of the rest.
pub proof fn lemma_dforest_yield_front(ts: Seq<DTree>)
    requires
        ts.len() > 0,
    ensures
        dforest_yield(ts) == dt_yield(ts[0]) + dforest_yield(ts.skip(1)),
{
    lemma_dforest_yield_split(ts, 1);
    assert(ts.take(1).drop_last() =~= Seq::<DTree>::empty());
    assert(dforest_yield(ts.take(1).drop_last()) =~= Seq::<int>::empty());
    assert(ts.take(1).last() == ts[0]);
    assert(dforest_yield(ts.take(1)) =~= dt_yield(ts[0]));
}

/// A tree with no leaves is a nullable non-terminal.
pub proof fn lemma_empty_yield_nullable(ctx: CfgContext, t: DTree)
    requires
        ctx.wf(),
        dt_ok(ctx.g(), t),
        dt_yield(t).len() == 0,
    ensures
        sym_nullable(dt_sym(ctx.g(), t), ctx.nl()),
    decreases t,
{
    let g = ctx.g();
    match t {
        DTree::Leaf(_) => {},
        DTree::Node(q, cs) => {
            assert forall|i: int| 0 <= i < cs.len() implies #[trigger] sym_nullable(g[q as int].rhs[i], ctx.nl()) by {
                lemma_dforest_yield_split(cs, i);
                lemma_dforest_yield_front(cs.skip(i));
                assert(cs.skip(i)[0] == cs[i]);
                lemma_empty_yield_nullable(ctx, cs[i]);
            }
            assert(prod_ok(g[q as int], ctx.nl(), ctx.fs(), ctx.fw()));
            assert(nullable_ok(g[q as int], ctx.nl()));
        },
    }
}

/// The first leaf of a tree can begin what its root symbol derives.
pub proof fn lemma_first_leaf(ctx: CfgContext, t: DTree)
    requires
        ctx.wf(),
        dt_ok(ctx.g(), t),
        dt_yield(t).len() > 0,
    ensures
        sym_first(dt_sym(ctx.g(), t), ctx.fs(), dt_yield(t)[0]),
    decreases t,
{
    let g = ctx.g();
    match t {
        DTree::Leaf(_) => {},
        DTree::Node(q, cs) => {
            let b = dt_yield(t)[0];
            assert(cs.skip(0) =~= cs);
            let j = lemma_first_nonempty(cs, 0);
            assert(cs.take(j).skip(0) =~= cs.take(j));
            lemma_dforest_yield_split(cs, j);
            lemma_dforest_yield_front(cs.skip(j));
            assert(cs.skip(j)[0] == cs[j]);
            assert forall|i: int| 0 <= i < j implies #[trigger] sym_nullable(g[q as int].rhs[i], ctx.nl()) by {
                lemma_dforest_yield_split(cs.take(j), i);
                lemma_dforest_yield_front(cs.take(j).skip(i));
                assert(cs.take(j).skip(i)[0] == cs[i]);
                lemma_empty_yield_nullable(ctx, cs[i]);
            }
            lemma_first_leaf(ctx, cs[j]);
            assert(prefix_nullable(g[q as int].rhs, j, ctx.nl()));
            assert(sym_first(g[q as int].rhs[j], ctx.fs(), b));
            assert(in_first(g[q as int].rhs, ctx.fs(), ctx.nl(), b));
            assert(prod_ok(g[q as int], ctx.nl(), ctx.fs(), ctx.fw()));
            assert(first_ok(g[q as int], ctx.nl(), ctx.fs()));
        },
    }
}

/// In a list of trees with some leaf, the first tree with a leaf; the trees before it have none.
pub proof fn lemma_first_nonempty(ts: Seq<DTree>, from: int) -> (j: int)
    requires
        0 <= from <= ts.len(),
        dforest_yield(ts.skip(from)).len() > 0,
    ensures
        from <= j < ts.len(),
        dforest_yield(ts.take(j).skip(from)).len() == 0,
        dt_yield(ts[j]).len() > 0,
        dforest_yield(ts.skip(from)) == dt_yield(ts[j]) + dforest_yield(ts.skip(j + 1)),
    decreases ts.len() - from,
{
    if from == ts.len() {
        assert(ts.skip(from) =~= Seq::<DTree>::empty());
        assert(false);
        from
    } else {
        lemma_dforest_yield_front(ts.skip(from));
        assert(ts.skip(from)[0] == ts[from]);
        assert(ts.skip(from).skip(1) =~= ts.skip(from + 1));
        if dt_yield(ts[from]).len() > 0 {
            assert(ts.take(from).skip(from) =~= Seq::<DTree>::empty());
            from
        } else {
            let j = lemma_first_nonempty(ts, from + 1);
            assert(ts.take(j).skip(from) =~= seq![ts[from]] + ts.take(j).skip(from + 1));
            lemma_dforest_yield_front(ts.take(j).skip(from));
            assert(ts.take(j).skip(from)[0] == ts[from]);
            assert(ts.take(j).skip(from).skip(1) =~= ts.take(j).skip(from + 1));
            j
        }
    }
}

/// The terminal `b` can come first after the symbols `rest` are derived, when what follows them
/// has the lookaheads `la`: `b` can begin what `rest` derives, or `rest` derives the empty
/// string and `b` is a lookahead.
pub open spec fn tail_ok(ctx: CfgContext, rest: Seq<Sym>, la: Seq<bool>, b: int) -> bool {
    in_first(rest, ctx.fs(), ctx.nl(), b) || (seq_nullable(rest, ctx.nl()) && mem(la, b))
}

/// The terminal `b` can follow the symbol after the dot of the item.
pub open spec fn follows(ctx: CfgContext, it: ItemView, b: int) -> bool {
    tail_ok(ctx, ctx.g()[it.p as int].rhs.skip((it.d + 1) as int), it.la, b)
}

/// Trees of the symbols `rest`, followed by a lookahead `a` of `la`: the first terminal after
/// them can come first after `rest`.
pub proof fn lemma_first_of_forest(ctx: CfgContext, ts: Seq<DTree>, rest: Seq<Sym>, la: Seq<bool>, a: int)
    requires
        ctx.wf(),
        ts.len() == rest.len(),
        forall|i: int| 0 <= i < ts.len() ==> dt_sym(ctx.g(), #[trigger] ts[i]) == rest[i] && dt_ok(ctx.g(), ts[i]),
        mem(la, a),
    ensures
        tail_ok(ctx, rest, la, dforest_yield(ts).push(a)[0]),
    decreases ts.len(),
{
    let g = ctx.g();
    let fs = ctx.fs();
    let nl = ctx.nl();
    if ts.len() == 0 {
        assert(dforest_yield(ts) =~= Seq::<int>::empty());
        assert(dforest_yield(ts).push(a)[0] == a);
        assert(seq_nullable(rest, nl));
    } else {
        lemma_dforest_yield_front(ts);
        assert(dt_sym(g, ts[0]) == rest[0] && dt_ok(g, ts[0]));
        if dt_yield(ts[0]).len() > 0 {
            let b = dt_yield(ts[0])[0];
            assert(dforest_yield(ts).push(a)[0] == b);
            lemma_first_leaf(ctx, ts[0]);
            assert(prefix_nullable(rest, 0, nl));
            assert(sym_first(rest[0], fs, b));
            assert(in_first(rest, fs, nl, b));
        } else {
            lemma_empty_yield_nullable(ctx, ts[0]);
            let ts1 = ts.skip(1);
            let rest1 = rest.skip(1);
            assert forall|i: int| 0 <= i < ts1.len() implies dt_sym(g, #[trigger] ts1[i]) == rest1[i] && dt_ok(g, ts1[i]) by {
                assert(ts1[i] == ts[i + 1]);
                assert(dt_sym(g, ts[i + 1]) == rest[i + 1] && dt_ok(g, ts[i + 1]));
            }
            lemma_first_of_forest(ctx, ts1, rest1, la, a);
            let b = dforest_yield(ts).push(a)[0];
            assert(dforest_yield(ts) =~= dforest_yield(ts1));
            assert(b == dforest_yield(ts1).push(a)[0]);
            if in_first(rest1, fs, nl, b) {
                let j = choose|j: int| 0 <= j < rest1.len() && prefix_nullable(rest1, j, nl) && #[trigger] sym_first(rest1[j], fs, b);
                assert forall|m: int| 0 <= m < j + 1 implies #[trigger] sym_nullable(rest[m], nl) by {
                    if m > 0 {
                        assert(rest[m] == rest1[m - 1]);
                        assert(sym_nullable(rest1[m - 1], nl));
                    }
                }
                assert(sym_first(rest[j + 1], fs, b));
                assert(in_first(rest, fs, nl, b));
            } else {
                assert forall|m: int| 0 <= m < rest.len() implies #[trigger] sym_nullable(rest[m], nl) by {
                    if m > 0 {
                        assert(rest[m] == rest1[m - 1]);
                        assert(sym_nullable(rest1[m - 1], nl));
                    }
                }
            }
        }
    }
}

/// Every item of a state lies in the closure of some item, all of whose items the state holds.
pub proof fn lemma_state_closure(p: Lr1Parser, i: int, m: int) -> (r: (ItemView, Seq<ItemView>))
    requires
        p.wf(),
        0 <= i < p.states().len(),
        0 <= m < p.states()[i].len(),
    ensures
        is_closure(p.cfgctx, r.0, r.1),
        r.1.contains(p.states()[i][m]),
        forall|x: ItemView| r.1.contains(x) ==> p.states()[i].contains(x),
{
    let ctx = p.cfgctx;
    let states = p.states();
    let tr = p.trans();
    let it = states[i][m];
    if i == 0 {
        assert(states[0][m] == it);
        (p.start@, states[0])
    } else {
        assert(found_before(tr, i, i));
        let j = choose|j: int| 0 <= j < i && j < i && #[trigger] found_by(tr, j, i);
        let e = choose|e: int| 0 <= e < tr[j].len() && #[trigger] tr[j][e].1 == i;
        let x = tr[j][e].0;
        assert(row_ok(ctx, states, tr, j));
        assert(states[i].to_set() == goto_set(ctx, states[j].to_set(), x));
        assert(states[i].to_set().contains(it));
        let src = choose|src: ItemView|
            #![trigger states[j].to_set().contains(src), closure_set(ctx, shifted(src)).contains(it)]
            states[j].to_set().contains(src) && after_sym(ctx.g(), src) == Some(x) && closure_set(ctx, shifted(src)).contains(it);
        let m0 = choose|m0: int| 0 <= m0 < states[j].len() && states[j][m0] == src;
        assert(after_sym(ctx.g(), states[j][m0]).is_some());
        assert(has_closure(ctx, shifted(states[j][m0])));
        let c = choose|c: Seq<ItemView>| is_closure(ctx, shifted(src), c);
        assert(closure_set(ctx, shifted(src)) == c.to_set());
        assert forall|y: ItemView| c.contains(y) implies states[i].contains(y) by {
            assert(c.to_set().contains(y));
            assert(closure_set(ctx, shifted(src)).contains(y));
            assert(goto_set(ctx, states[j].to_set(), x).contains(y));
            assert(states[i].to_set().contains(y));
        }
        assert(c.to_set().contains(it));
        (shifted(src), c)
    }
}

/// A state holding an item whose dot stands before a non-terminal holds the items of its
/// productions with the dot at the start, with each terminal that can follow the non-terminal
/// as a lookahead.
pub proof fn lemma_state_expand(p: Lr1Parser, i: int, m: int, q: int, b: int) -> (m2: int)
    requires
        p.wf(),
        0 <= i < p.states().len(),
        0 <= m < p.states()[i].len(),
        expands(p.cfgctx.g(), p.states()[i][m].p as int, p.states()[i][m].d as int, q),
        follows(p.cfgctx, p.states()[i][m], b),
    ensures
        0 <= m2 < p.states()[i].len(),
        p.states()[i][m2].p == q,
        p.states()[i][m2].d == 0,
        mem(p.states()[i][m2].la, b),
{
    let ctx = p.cfgctx;
    let g = ctx.g();
    let fs = ctx.fs();
    let nl = ctx.nl();
    let states = p.states();
    let it = states[i][m];
    let (init, c) = lemma_state_closure(p, i, m);
    let w = choose|w: int| 0 <= w < c.len() && c[w] == it;
    lemma_la_rel_at(c, w, b);
    assert(handed(g, fs, nl, la_rel(c), it.p as int, it.d as int, b));
    assert(closure_step(g, fs, nl, key_rel(c), la_rel(c), it.p as int, it.d as int, q, b));
    assert(la_rel(c)(q, 0, b));
    let w2 = choose|w2: int| 0 <= w2 < c.len() && (#[trigger] c[w2]).p == q && c[w2].d == 0 && mem(c[w2].la, b);
    assert(c.contains(c[w2]));
    assert(states[i].contains(c[w2]));
    let m2 = choose|m2: int| 0 <= m2 < states[i].len() && states[i][m2] == c[w2];
    m2
}

/// Taking a state's transition on the symbol after an item's dot leads to a state that holds
/// the item with the dot moved over the symbol.
pub proof fn lemma_state_shift(p: Lr1Parser, i: int, m: int, x: Sym, j: usize)
    requires
        p.wf(),
        0 <= i < p.states().len(),
        0 <= m < p.states()[i].len(),
        after_sym(p.cfgctx.g(), p.states()[i][m]) == Some(x),
        goto_of(p.trans(), i, x, j),
    ensures
        j < p.states().len(),
        p.states()[j as int].contains(shifted(p.states()[i][m])),
{
    let ctx = p.cfgctx;
    let states = p.states();
    let tr = p.trans();
    let it = states[i][m];
    let e = choose|e: int| 0 <= e < tr[i].len() && tr[i][e] == (x, j);
    assert(row_ok(ctx, states, tr, i));
    assert(tr[i][e].1 < states.len());
    assert(states[j as int].to_set() == goto_set(ctx, states[i].to_set(), x));
    assert(has_closure(ctx, shifted(states[i][m])));
    let c = choose|c: Seq<ItemView>| is_closure(ctx, shifted(it), c);
    assert(closure_set(ctx, shifted(it)) == c.to_set());
    assert(crate::closure::closure_init(shifted(it), key_rel(c), la_rel(c)));
    assert(key_rel(c)(it.p as int, (it.d + 1) as int));
    let w = choose|w: int| 0 <= w < c.len() && (#[trigger] c[w]).p == it.p as int && c[w].d == it.d + 1;
    assert(state_wf(ctx, states[i]));
    assert(valid_item(ctx, states[i][m]));
    lemma_closure_kernel(ctx, shifted(it), c, w);
    assert(c.to_set().contains(shifted(it)));
    assert(states[i].to_set().contains(it));
    assert(goto_set(ctx, states[i].to_set(), x).contains(shifted(it)));
    assert(states[j as int].to_set().contains(shifted(it)));
}

/// The terminals `ids` spell the words `all` under the symbol names `names`.
pub open spec fn spells(names: Seq<Seq<char>>, ids: Seq<int>, all: Seq<Seq<char>>) -> bool {
    &&& ids.len() == all.len()
    &&& forall|i: int| 0 <= i < ids.len() ==> 0 <= #[trigger] ids[i] < names.len() && all[i] == names[ids[i]]
}

/// No state of the parser's automaton has a conflict.
pub open spec fn conflict_free(p: Lr1Parser) -> bool {
    forall|i: int| 0 <= i < p.states().len() ==> !conflicted(p.cfgctx.g(), #[trigger] p.states()[i])
}

/// The state on top of the stack of a configuration.
pub open spec fn top(c: Config) -> int {
    state_below(c.st, c.st.len() as int)
}

/// Child `i` of a node of production `q`, whose leaves begin at `base`: a leaf, or a tree
/// followed by a terminal that can follow it in the item of `q` with the dot before it.
pub open spec fn child_ok(ctx: CfgContext, ids: Seq<int>, base: int, q: int, cs: Seq<DTree>, la0: Seq<bool>, i: int) -> bool {
    let after = base + dforest_yield(cs.take(i + 1)).len();
    match cs[i] {
        DTree::Leaf(_) => true,
        DTree::Node(_, _) => after < ids.len() && follows(ctx, ItemView { p: q as usize, d: i as nat, la: la0 }, ids[after]),
    }
}

/// A path of states extended by a transition is a path.
pub proof fn lemma_path_push(p: Lr1Parser, st: Seq<usize>, syms: Seq<Sym>, x: Sym, j: usize)
    requires
        path_ok(p, st, syms),
        j < p.states().len(),
        goto_of(p.trans(), state_below(st, st.len() as int), x, j),
    ensures
        path_ok(p, st.push(j), syms.push(x)),
{
    let st2 = st.push(j);
    let syms2 = syms.push(x);
    assert forall|k: int| 0 <= k < st2.len() implies #[trigger] goto_of(p.trans(), state_below(st2, k), syms2[k], st2[k]) by {
        if k < st.len() {
            assert(state_below(st2, k) == state_below(st, k));
            assert(goto_of(p.trans(), state_below(st, k), syms[k], st[k]));
        } else {
            assert(state_below(st2, k) == state_below(st, st.len() as int));
        }
    }
    assert forall|k: int| 0 <= k < st2.len() implies (#[trigger] st2[k]) < p.states().len() by {
        if k < st.len() {
            assert(st2[k] == st[k]);
        }
    }
}

/// The state on top of a path is a state of the automaton.
pub proof fn lemma_top_state(p: Lr1Parser, c: Config)
    requires
        p.wf(),
        path_ok(p, c.st, c.syms),
    ensures
        0 <= top(c) < p.states().len(),
{
    if c.st.len() > 0 {
        assert(c.st[c.st.len() - 1] < p.states().len());
    }
}

/// The transition a state has on the symbol after the dot of one of its items.
pub proof fn lemma_transition_of(p: Lr1Parser, i: int, m: int) -> (j: usize)
    requires
        p.wf(),
        0 <= i < p.states().len(),
        0 <= m < p.states()[i].len(),
        after_sym(p.cfgctx.g(), p.states()[i][m]).is_some(),
    ensures
        j < p.states().len(),
        goto_of(p.trans(), i, after_sym(p.cfgctx.g(), p.states()[i][m]).unwrap(), j),
        goto_target(p.trans()[i], after_sym(p.cfgctx.g(), p.states()[i][m]).unwrap(), 0) == Some(j),
{
    let x = after_sym(p.cfgctx.g(), p.states()[i][m]).unwrap();
    assert(row_ok(p.cfgctx, p.states(), p.trans(), i));
    assert(has_entry(p.trans()[i], x));
    let e = choose|e: int| 0 <= e < p.trans()[i].len() && (#[trigger] p.trans()[i][e]).0 == x;
    let j = p.trans()[i][e].1;
    assert(p.trans()[i][e] == (x, j));
    assert(goto_of(p.trans(), i, x, j));
    lemma_transition_target(p, i, x, Some(j));
    j
}

/// The parse reads a tree of the symbol after the dot of an item in the state on top of the
/// stack: from configuration `c` it reaches one with the tree's leaves read and the symbol's
/// transition taken, provided a node is followed by a terminal that can follow the symbol.
pub proof fn lemma_tree_moves(p: Lr1Parser, all: Seq<Seq<char>>, ids: Seq<int>, t: DTree, c: Config, m: int) -> (c2: Config)
    requires
        p.wf(),
        conflict_free(p),
        spells(p.cfgctx.names(), ids, all),
        dt_ok(p.cfgctx.g(), t),
        path_ok(p, c.st, c.syms),
        0 <= m < p.states()[top(c)].len(),
        after_sym(p.cfgctx.g(), p.states()[top(c)][m]) == Some(dt_sym(p.cfgctx.g(), t)),
        c.k + dt_yield(t).len() <= all.len(),
        ids.subrange(c.k as int, (c.k + dt_yield(t).len()) as int) == dt_yield(t),
        t is Leaf || (c.k + dt_yield(t).len() < all.len() && follows(p.cfgctx, p.states()[top(c)][m], ids[(c.k + dt_yield(t).len()) as int])),
    ensures
        reaches(p, all, c, c2),
        c2.st.len() == c.st.len() + 1,
        c2.st.take(c.st.len() as int) == c.st,
        c2.syms == c.syms.push(dt_sym(p.cfgctx.g(), t)),
        c2.k == c.k + dt_yield(t).len(),
        path_ok(p, c2.st, c2.syms),
    decreases t, 1nat, 0nat,
{
    let ctx = p.cfgctx;
    let g = ctx.g();
    let names = ctx.names();
    let tp = top(c);
    lemma_top_state(p, c);
    let it = p.states()[tp][m];
    let x = dt_sym(g, t);
    let y = dt_yield(t);
    assert(!conflicted(g, p.states()[tp]));
    assert(p.states()[tp].contains(it));
    let j = lemma_transition_of(p, tp, m);
    match t {
        DTree::Leaf(b) => {
            assert(ids[c.k as int] == y[0]);
            assert(0 <= ids[c.k as int] < names.len() && all[c.k as int] == names[ids[c.k as int]]);
            lemma_id_of(names, ids[c.k as int]);
            assert(crate::parser::is_shift_of(g, it, b as int));
            lemma_move_follows_item(p, all, c, it);
            let c2 = Config { st: c.st.push(j), syms: c.syms.push(x), ds: c.ds, k: c.k + 1 };
            assert(next_move(p, all, c) == Move::Next(c2));
            lemma_reaches_move(p, all, c, c2);
            lemma_path_push(p, c.st, c.syms, x, j);
            assert(c2.st.take(c.st.len() as int) =~= c.st);
            c2
        },
        DTree::Node(q, cs) => {
            let n = cs.len() as int;
            let a = ids[(c.k + y.len()) as int];
            assert(expands(g, it.p as int, it.d as int, q as int));
            let m2 = lemma_state_expand(p, tp, m, q as int, a);
            let la0 = p.states()[tp][m2].la;
            assert forall|i: int| 0 <= i < n implies #[trigger] child_ok(ctx, ids, c.k as int, q as int, cs, la0, i) by {
                lemma_dforest_yield_split(cs, i + 1);
                let pre = dforest_yield(cs.take(i + 1));
                let post = dforest_yield(cs.skip(i + 1));
                let rest = g[q as int].rhs.skip(i + 1);
                assert forall|k: int| 0 <= k < cs.skip(i + 1).len() implies dt_sym(g, #[trigger] cs.skip(i + 1)[k]) == rest[k] && dt_ok(g, cs.skip(i + 1)[k]) by {
                    assert(cs.skip(i + 1)[k] == cs[i + 1 + k]);
                }
                lemma_first_of_forest(ctx, cs.skip(i + 1), rest, la0, a);
                let bi = ids[(c.k + pre.len()) as int];
                if post.len() > 0 {
                    assert(bi == ids.subrange(c.k as int, (c.k + y.len()) as int)[pre.len() as int]);
                    assert(bi == post.push(a)[0]);
                } else {
                    assert(bi == post.push(a)[0]);
                }
            }
            assert(cs.take(n) =~= cs);
            let c1 = lemma_forest_moves(p, all, ids, t, q as int, cs, n, c, m2);
            let jt = ItemView { p: q, d: n as nat, la: la0 };
            lemma_top_state(p, c1);
            assert(!conflicted(g, p.states()[top(c1)]));
            assert(crate::parser::is_reduce(g, jt));
            assert(0 <= a < names.len() && all[(c.k + y.len()) as int] == names[a]);
            lemma_id_of(names, a);
            lemma_move_follows_item(p, all, c1, jt);
            assert(c1.st.take(c.st.len() as int) == c.st);
            assert(state_below(c1.st, c.st.len() as int) == tp);
            assert(c1.syms.take(c.st.len() as int) =~= c.syms);
            let c2 = Config { st: c.st.push(j), syms: c.syms.push(x), ds: c1.ds.push(q), k: c1.k };
            assert(next_move(p, all, c1) == Move::Next(c2));
            lemma_reaches_move(p, all, c1, c2);
            lemma_reaches_trans(p, all, c, c1, c2);
            lemma_path_push(p, c.st, c.syms, x, j);
            assert(c2.st.take(c.st.len() as int) =~= c.st);
            c2
        },
    }
}

/// The parse reads the first `n` children of a node of production `q`, from a state holding
/// the item of `q` with the dot at the start: it reaches a configuration with their leaves
/// read, their symbols pushed, and a state holding the item with the dot after them.
pub proof fn lemma_forest_moves(
    p: Lr1Parser,
    all: Seq<Seq<char>>,
    ids: Seq<int>,
    t: DTree,
    q: int,
    cs: Seq<DTree>,
    n: int,
    c: Config,
    m0: int,
) -> (c2: Config)
    requires
        p.wf(),
        conflict_free(p),
        spells(p.cfgctx.names(), ids, all),
        t == DTree::Node(q as usize, cs),
        dt_ok(p.cfgctx.g(), t),
        0 <= n <= cs.len(),
        path_ok(p, c.st, c.syms),
        0 <= m0 < p.states()[top(c)].len(),
        p.states()[top(c)][m0].p == q,
        p.states()[top(c)][m0].d == 0,
        c.k + dforest_yield(cs.take(n)).len() <= all.len(),
        ids.subrange(c.k as int, (c.k + dforest_yield(cs.take(n)).len()) as int) == dforest_yield(cs.take(n)),
        forall|i: int| 0 <= i < n ==> #[trigger] child_ok(p.cfgctx, ids, c.k as int, q, cs, p.states()[top(c)][m0].la, i),
    ensures
        reaches(p, all, c, c2),
        c2.st.len() == c.st.len() + n,
        c2.st.take(c.st.len() as int) == c.st,
        c2.syms == c.syms + p.cfgctx.g()[q].rhs.take(n),
        c2.k == c.k + dforest_yield(cs.take(n)).len(),
        path_ok(p, c2.st, c2.syms),
        p.states()[top(c2)].contains(ItemView { p: q as usize, d: n as nat, la: p.states()[top(c)][m0].la }),
    decreases t, 0nat, n,
{
    let ctx = p.cfgctx;
    let g = ctx.g();
    let tp = top(c);
    let la0 = p.states()[tp][m0].la;
    lemma_top_state(p, c);
    if n == 0 {
        lemma_reaches_refl(p, all, c);
        assert(c.st.take(c.st.len() as int) =~= c.st);
        assert(c.syms + g[q].rhs.take(0) =~= c.syms);
        assert(cs.take(0) =~= Seq::<DTree>::empty());
        assert(dforest_yield(cs.take(0)) =~= Seq::<int>::empty());
        assert(p.states()[tp][m0] == ItemView { p: q as usize, d: 0, la: la0 });
        assert(p.states()[tp].contains(p.states()[tp][m0]));
        c
    } else {
        let yn = dforest_yield(cs.take(n));
        let y1 = dforest_yield(cs.take(n - 1));
        assert(cs.take(n).drop_last() =~= cs.take(n - 1));
        assert(cs.take(n).last() == cs[n - 1]);
        assert(yn == y1 + dt_yield(cs[n - 1]));
        assert(ids.subrange(c.k as int, (c.k + y1.len()) as int) =~= yn.take(y1.len() as int));
        assert(yn.take(y1.len() as int) =~= y1);
        let c1 = lemma_forest_moves(p, all, ids, t, q, cs, n - 1, c, m0);
        lemma_top_state(p, c1);
        let jt = ItemView { p: q as usize, d: (n - 1) as nat, la: la0 };
        let m1 = choose|m1: int| 0 <= m1 < p.states()[top(c1)].len() && p.states()[top(c1)][m1] == jt;
        assert(dt_sym(g, cs[n - 1]) == g[q].rhs[n - 1]);
        assert(after_sym(g, jt) == Some(dt_sym(g, cs[n - 1])));
        assert(ids.subrange(c1.k as int, (c1.k + dt_yield(cs[n - 1]).len()) as int) =~= yn.skip(y1.len() as int));
        assert(yn.skip(y1.len() as int) =~= dt_yield(cs[n - 1]));
        assert(child_ok(ctx, ids, c.k as int, q, cs, la0, n - 1));
        assert(dt_ok(g, cs[n - 1]));
        let c2 = lemma_tree_moves(p, all, ids, cs[n - 1], c1, m1);
        lemma_reaches_trans(p, all, c, c1, c2);
        let l1 = c1.st.len() as int;
        assert(goto_of(p.trans(), state_below(c2.st, l1), c2.syms[l1], c2.st[l1]));
        assert(state_below(c2.st, l1) == top(c1)) by {
            if l1 > 0 {
                assert(c2.st[l1 - 1] == c2.st.take(l1)[l1 - 1]);
            }
        }
        lemma_state_shift(p, top(c1), m1, dt_sym(g, cs[n - 1]), c2.st[l1]);
        assert(top(c2) == c2.st[l1] as int);
        assert(shifted(jt) == ItemView { p: q as usize, d: n as nat, la: la0 });
        assert(c2.st.take(c.st.len() as int) =~= c1.st.take(c.st.len() as int));
        assert(c2.syms =~= c.syms + g[q].rhs.take(n));
        c2
    }
}

/// The input is a sentence of the grammar by the tree `t`: a derivation tree of the grammar's
/// start symbol (the first symbol of the augmented production) whose leaves spell the input.
pub open spec fn sentence(p: Lr1Parser, input: Seq<&str>, t: DTree) -> bool {
    let g = p.cfgctx.g();
    &&& dt_ok(g, t)
    &&& dt_sym(g, t) == g.last().rhs[0]
    &&& spells(p.cfgctx.names(), dt_yield(t), tokens(input))
}

/// Every sentence of a grammar whose automaton has no conflict is accepted: the parse of the
/// input, followed by the end marker, ends by accepting it.
pub proof fn lemma_sentence_accepted(p: Lr1Parser, input: Seq<&str>, t: DTree) -> (ds: Seq<usize>)
    requires
        p.wf(),
        conflict_free(p),
        single_start(p.cfgctx.augmented_cfg@),
        sentence(p, input, t),
    ensures
        parse_ends(p, input, Outcome::Accepted(ds)),
{
    let ctx = p.cfgctx;
    let g = ctx.g();
    let names = ctx.names();
    let a = ctx.augmented_cfg@;
    let ps = a.productions;
    let last = g.len() - 1;
    assert(g.len() == ps.len());
    assert(prod_matches(names, g[last], ps[last]));
    assert(g.last() == g[last]);
    assert(sym_matches(names, g[last].rhs[0], ps[last].rhs[0]));
    assert(sym_matches(names, g[last].rhs[1], ps[last].rhs[1]));
    let e = g[last].rhs[1].id;
    assert(g[last].rhs[1] == Sym { terminal: true, id: e });
    let q0 = choose|q: int|
        0 <= q < ps.len() && (#[trigger] ps[q]).lhs == a.start && forall|q2: int|
            0 <= q2 < ps.len() && (#[trigger] ps[q2]).lhs == a.start ==> q2 == q;
    assert(ps[last].lhs == a.start);
    assert(ps[p.start@.p as int].lhs == a.start);
    assert(p.start@.p == last);
    let s0 = p.states()[0];
    assert(is_closure(ctx, p.start@, s0));
    assert(key_rel(s0)(last, 0));
    let m0 = choose|m0: int| 0 <= m0 < s0.len() && (#[trigger] s0[m0]).p == last && s0[m0].d == 0;
    let la0 = s0[m0].la;
    let yt = dt_yield(t);
    let ids = yt.push(e as int);
    let all = tokens(input).push(a.end);
    assert(spells(names, ids, all)) by {
        assert forall|i: int| 0 <= i < ids.len() implies 0 <= #[trigger] ids[i] < names.len() && all[i] == names[ids[i]] by {
            if i < yt.len() {
                assert(ids[i] == yt[i]);
            }
        }
    }
    let leaf = DTree::Leaf(e);
    let cs = seq![t, leaf];
    let node = DTree::Node(last as usize, cs);
    assert(dt_sym(g, cs[0]) == g[last].rhs[0]);
    assert(dt_sym(g, cs[1]) == g[last].rhs[1]);
    assert(dt_ok(g, cs[0]));
    assert(dt_ok(g, cs[1]));
    assert(dt_ok(g, node));
    lemma_dforest_yield_front(cs);
    assert(cs.skip(1) =~= seq![leaf]);
    lemma_dforest_yield_front(cs.skip(1));
    assert(cs.skip(1).skip(1) =~= Seq::<DTree>::empty());
    assert(dforest_yield(cs.skip(1).skip(1)) =~= Seq::<int>::empty());
    assert(cs.take(2) =~= cs);
    assert(dforest_yield(cs) =~= ids);
    assert(cs.take(1) =~= seq![t]);
    lemma_dforest_yield_front(cs.take(1));
    assert(cs.take(1).skip(1) =~= Seq::<DTree>::empty());
    assert(dforest_yield(cs.take(1).skip(1)) =~= Seq::<int>::empty());
    assert(dforest_yield(cs.take(1)) =~= yt);
    let c0 = start_config();
    assert(path_ok(p, c0.st, c0.syms));
    assert(top(c0) == 0);
    assert(child_ok(ctx, ids, 0, last, cs, la0, 0)) by {
        assert(!g[last].rhs[0].terminal);
        assert(t is Node);
        let rest = g[last].rhs.skip(1);
        assert(rest[0] == g[last].rhs[1]);
        assert(prefix_nullable(rest, 0, ctx.nl()));
        assert(sym_first(rest[0], ctx.fs(), e as int));
        assert(in_first(rest, ctx.fs(), ctx.nl(), e as int));
        assert(ids[yt.len() as int] == e);
    }
    assert(child_ok(ctx, ids, 0, last, cs, la0, 1));
    assert(ids.subrange(0, ids.len() as int) =~= ids);
    let c2 = lemma_forest_moves(p, all, ids, node, last, cs, 2, c0, m0);
    let m = lemma_reaches_run(p, all, c0, c2, 0);
    assert(run(p, all, c2, 0) == Outcome::Accepted(c2.ds));
    assert(run(p, all, c0, m + 0) == Outcome::Accepted(c2.ds));
    c2.ds
}

/// A sentence of a grammar whose automaton has no conflict is never rejected.
pub proof fn lemma_sentence_not_rejected(p: Lr1Parser, input: Seq<&str>, t: DTree, s: int, v: SpecSymbol)
    requires
        p.wf(),
        conflict_free(p),
        single_start(p.cfgctx.augmented_cfg@),
        sentence(p, input, t),
    ensures
        !parse_ends(p, input, Outcome::Rejected(s, v)),
{
    let ds = lemma_sentence_accepted(p, input, t);
    if parse_ends(p, input, Outcome::Rejected(s, v)) {
        lemma_parse_ends_unique(p, input, Outcome::Accepted(ds), Outcome::Rejected(s, v));
    }
}

/// Terminals spelling two words side by side spell the two together.
pub proof fn lemma_spells_append(names: Seq<Seq<char>>, a: Seq<int>, b: Seq<int>, x: Seq<Seq<char>>, y: Seq<Seq<char>>)
    requires
        spells(names, a, x),
        spells(names, b, y),
    ensures
        spells(names, a + b, x + y),
{
    assert forall|i: int| 0 <= i < (a + b).len() implies 0 <= #[trigger] (a + b)[i] < names.len() && (x + y)[i] == names[(a + b)[i]] by {
        if i < a.len() {
            assert((a + b)[i] == a[i]);
        } else {
            assert((a + b)[i] == b[i - a.len()]);
        }
    }
}

/// A parse tree built by the augmented grammar's productions, whose root the symbol `x`
/// stands for, has a derivation tree over symbol indices with the same leaves.
pub proof fn lemma_index_tree(ctx: CfgContext, t: ParseTree, x: Sym) -> (d: DTree)
    requires
        ctx.wf(),
        tree_ok(ctx.augmented_cfg@.productions, t),
        sym_matches(ctx.names(), x, t.value@),
    ensures
        dt_ok(ctx.g(), d),
        dt_sym(ctx.g(), d) == x,
        spells(ctx.names(), dt_yield(d), tree_yield(t)),
    decreases t, 1nat, 0nat,
{
    let g = ctx.g();
    let names = ctx.names();
    let ps = ctx.augmented_cfg@.productions;
    match t.value {
        Symbol::Terminal(s) => {
            let d = DTree::Leaf(x.id);
            assert(t.value@ == SpecSymbol::Terminal(s@));
            assert(x.terminal);
            assert(dt_ok(g, d));
            assert(dt_sym(g, d) == x);
            assert(dt_yield(d) =~= seq![x.id as int]);
            d
        },
        Symbol::NonTerminal(a) => {
            let cs = t.children@;
            let q = choose|q: int| 0 <= q < ps.len() && (#[trigger] ps[q]).lhs == a@ && ps[q].rhs == roots(cs);
            assert(prod_matches(names, g[q], ps[q]));
            assert forall|i: int| 0 <= i < cs.len() implies #[trigger] sym_matches(names, g[q].rhs[i], cs[i].value@) by {
                assert(sym_matches(names, g[q].rhs[i], ps[q].rhs[i]));
                assert(ps[q].rhs[i] == roots(cs)[i]);
            }
            let ds = lemma_index_forest(ctx, t, cs, g[q].rhs, cs.len() as int);
            assert(ds.take(cs.len() as int) =~= ds);
            assert(cs.take(cs.len() as int) =~= cs);
            assert(g.len() == ctx.grammar@.len());
            assert(ctx.grammar@.len() == ctx.grammar.len());
            assert(q as usize == q);
            let d = DTree::Node(q as usize, ds);
            assert(dt_ok(g, d));
            lemma_sym_matches_unique(names, x, Sym { terminal: false, id: g[q].lhs }, t.value@, t.value@);
            d
        },
    }
}

/// The derivation trees over symbol indices of the first `n` children of a parse tree, whose
/// roots the symbols `xs` stand for.
pub proof fn lemma_index_forest(ctx: CfgContext, t: ParseTree, cs: Seq<ParseTree>, xs: Seq<Sym>, n: int) -> (ds: Seq<DTree>)
    requires
        ctx.wf(),
        cs == t.children@,
        tree_ok(ctx.augmented_cfg@.productions, t),
        t.value is NonTerminal,
        0 <= n <= cs.len(),
        n <= xs.len(),
        forall|i: int| 0 <= i < n ==> #[trigger] sym_matches(ctx.names(), xs[i], cs[i].value@),
    ensures
        ds.len() == n,
        forall|i: int| 0 <= i < n ==> dt_ok(ctx.g(), #[trigger] ds[i]) && dt_sym(ctx.g(), ds[i]) == xs[i],
        spells(ctx.names(), dforest_yield(ds), forest_yield(cs.take(n))),
    decreases t, 0nat, n,
{
    if n == 0 {
        let ds = Seq::<DTree>::empty();
        assert(dforest_yield(ds) =~= Seq::<int>::empty());
        assert(cs.take(0) =~= Seq::<ParseTree>::empty());
        assert(forest_yield(cs.take(0)) =~= Seq::<Seq<char>>::empty());
        ds
    } else {
        let ds1 = lemma_index_forest(ctx, t, cs, xs, n - 1);
        assert(sym_matches(ctx.names(), xs[n - 1], cs[n - 1].value@));
        assert(tree_ok(ctx.augmented_cfg@.productions, cs[n - 1]));
        let d = lemma_index_tree(ctx, cs[n - 1], xs[n - 1]);
        let ds = ds1.push(d);
        assert(ds.drop_last() =~= ds1);
        assert(cs.take(n).drop_last() =~= cs.take(n - 1));
        assert(cs.take(n).last() == cs[n - 1]);
        lemma_spells_append(ctx.names(), dforest_yield(ds1), dt_yield(d), forest_yield(cs.take(n - 1)), tree_yield(cs[n - 1]));
        assert forall|i: int| 0 <= i < n implies dt_ok(ctx.g(), #[trigger] ds[i]) && dt_sym(ctx.g(), ds[i]) == xs[i] by {
            if i < n - 1 {
                assert(ds[i] == ds1[i]);
            }
        }
        ds
    }
}

/// The input is a sentence of the grammar by the parse tree `t`: a tree built by the augmented
/// grammar's productions, rooted at the grammar's start symbol (the first symbol of the
/// augmented production), whose leaves are the input.
pub open spec fn sentence_tree(ps: Seq<SpecProduction>, input: Seq<&str>, t: ParseTree) -> bool {
    &&& tree_ok(ps, t)
    &&& t.value@ == ps.last().rhs[0]
    &&& tree_yield(t) == tokens(input)
}

/// A sentence shown by a parse tree is one shown by a derivation tree over symbol indices.
pub proof fn lemma_sentence_tree(p: Lr1Parser, input: Seq<&str>, t: ParseTree) -> (d: DTree)
    requires
        p.wf(),
        sentence_tree(p.cfgctx.augmented_cfg@.productions, input, t),
    ensures
        sentence(p, input, d),
{
    let ctx = p.cfgctx;
    let g = ctx.g();
    let ps = ctx.augmented_cfg@.productions;
    let last = g.len() - 1;
    assert(prod_matches(ctx.names(), g[last], ps[last]));
    assert(sym_matches(ctx.names(), g[last].rhs[0], ps[last].rhs[0]));
    assert(g.last() == g[last]);
    lemma_index_tree(ctx, t, g[last].rhs[0])
}

/// Every sentence of a grammar whose automaton has no conflict, and whose augmented start
/// symbol has one production, is accepted: for a parse tree of the grammar's start symbol whose
/// leaves are the input, the parse of the input ends by accepting it.
pub proof fn lemma_sentence_tree_accepted(p: Lr1Parser, input: Seq<&str>, t: ParseTree) -> (ds: Seq<usize>)
    requires
        p.wf(),
        conflict_free(p),
        single_start(p.cfgctx.augmented_cfg@),
        sentence_tree(p.cfgctx.augmented_cfg@.productions, input, t),
    ensures
        parse_ends(p, input, Outcome::Accepted(ds)),
{
    let d = lemma_sentence_tree(p, input, t);
    lemma_sentence_accepted(p, input, d)
}

} // verus!
