use vstd::prelude::*;
use crate::bits::{mem, mem2, mat, square, union, union_row, union_into, falses, false_rows};
use crate::analysis::{Sym, SpecIProd, in_first, seq_nullable, first_of_tail, tail_nullable, wf_prod};
use crate::context::{CfgContext, any_bit, rows};

verus! {

/// The mathematical value of an LR(1) item.
pub struct ItemView {
    pub p: usize,
    pub d: nat,
    pub la: Seq<bool>,
}

/// An LR(1) item: a production, the position of the dot in its right side (the number of
/// symbols seen), and the set of lookahead terminals, as a bitmap over symbol indices.
#[derive(Clone, Debug)]
pub struct LrItem {
    pub production_id: usize,
    pub dot: usize,
    pub lookahead: Vec<bool>,
}

impl View for LrItem {
    type V = ItemView;

    open spec fn view(&self) -> ItemView {
        ItemView { p: self.production_id, d: self.dot as nat, la: self.lookahead@ }
    }
}

pub open spec fn items_view(v: Seq<LrItem>) -> Seq<ItemView> {
    v.map_values(|it: LrItem| it@)
}

/// Production `q` expands the non-terminal after the dot of item `(p, d)`.
pub open spec fn expands(g: Seq<SpecIProd>, p: int, d: int, q: int) -> bool {
    &&& 0 <= p < g.len()
    &&& 0 <= d < g[p].rhs.len()
    &&& !g[p].rhs[d].terminal
    &&& 0 <= q < g.len()
    &&& g[q].lhs == g[p].rhs[d].id
}

/// The lookahead `t` is handed by item `(p, d)`, whose lookaheads are `r(p, d, _)`, to the
/// items it expands: `t` can begin what follows the non-terminal after the dot, or that is
/// nullable and `t` is a lookahead of the item.
pub open spec fn handed(
    g: Seq<SpecIProd>,
    fs: Seq<Seq<bool>>,
    nl: Seq<bool>,
    r: spec_fn(int, int, int) -> bool,
    p: int,
    d: int,
    t: int,
) -> bool {
    in_first(g[p].rhs.skip(d + 1), fs, nl, t) || (seq_nullable(g[p].rhs.skip(d + 1), nl) && r(p, d, t))
}

/// The closure rule for item `(p, d)`, production `q` and lookahead `t`.
pub open spec fn closure_step(
    g: Seq<SpecIProd>,
    fs: Seq<Seq<bool>>,
    nl: Seq<bool>,
    k: spec_fn(int, int) -> bool,
    r: spec_fn(int, int, int) -> bool,
    p: int,
    d: int,
    q: int,
    t: int,
) -> bool {
    k(p, d) && expands(g, p, d, q) && handed(g, fs, nl, r, p, d, t) ==> r(q, 0, t)
}

/// The items `k` with lookaheads `r` obey the closure rules: an item exists when it has a
/// lookahead, and an item hands its lookaheads to the items it expands.
pub open spec fn closure_closed(
    g: Seq<SpecIProd>,
    fs: Seq<Seq<bool>>,
    nl: Seq<bool>,
    k: spec_fn(int, int) -> bool,
    r: spec_fn(int, int, int) -> bool,
) -> bool {
    &&& forall|p: int, d: int, t: int| #[trigger] r(p, d, t) ==> k(p, d)
    &&& forall|p: int, d: int, q: int, t: int| #[trigger] closure_step(g, fs, nl, k, r, p, d, q, t)
}

/// The items hold the initial item.
pub open spec fn closure_init(init: ItemView, k: spec_fn(int, int) -> bool, r: spec_fn(int, int, int) -> bool) -> bool {
    &&& k(init.p as int, init.d as int)
    &&& forall|t: int| #[trigger] mem(init.la, t) ==> r(init.p as int, init.d as int, t)
}

pub open spec fn closure_sol(
    g: Seq<SpecIProd>,
    fs: Seq<Seq<bool>>,
    nl: Seq<bool>,
    init: ItemView,
    k: spec_fn(int, int) -> bool,
    r: spec_fn(int, int, int) -> bool,
) -> bool {
    closure_closed(g, fs, nl, k, r) && closure_init(init, k, r)
}

/// The items are included in every solution.
pub open spec fn closure_below(
    g: Seq<SpecIProd>,
    fs: Seq<Seq<bool>>,
    nl: Seq<bool>,
    init: ItemView,
    k: spec_fn(int, int) -> bool,
    r: spec_fn(int, int, int) -> bool,
) -> bool {
    forall|k2: spec_fn(int, int) -> bool, r2: spec_fn(int, int, int) -> bool|
        #[trigger] closure_sol(g, fs, nl, init, k2, r2) ==> (forall|p: int, d: int| #[trigger] k(p, d) ==> k2(p, d))
            && (forall|p: int, d: int, t: int| #[trigger] r(p, d, t) ==> r2(p, d, t))
}

/// The keys of a list of items.
pub open spec fn key_rel(s: Seq<ItemView>) -> spec_fn(int, int) -> bool {
    |p: int, d: int| exists|i: int| 0 <= i < s.len() && (#[trigger] s[i]).p == p && s[i].d == d
}

/// The lookaheads of a list of items.
pub open spec fn la_rel(s: Seq<ItemView>) -> spec_fn(int, int, int) -> bool {
    |p: int, d: int, t: int| exists|i: int| 0 <= i < s.len() && (#[trigger] s[i]).p == p && s[i].d == d && mem(s[i].la, t)
}

/// The items `s` are the closure of `init`: one item per key, each with a lookahead bitmap
/// over `n` symbols, and together the least solution of the closure rules that holds `init`.
pub open spec fn is_closure(ctx: CfgContext, init: ItemView, s: Seq<ItemView>) -> bool {
    &&& forall|i: int, j: int| 0 <= i < s.len() && 0 <= j < s.len() && i != j ==> (#[trigger] s[i]).p != (#[trigger] s[j]).p || s[i].d != s[j].d
    &&& forall|i: int| 0 <= i < s.len() ==> (#[trigger] s[i]).la.len() == ctx.n()
    &&& closure_sol(ctx.g(), ctx.fs(), ctx.nl(), init, key_rel(s), la_rel(s))
    &&& closure_below(ctx.g(), ctx.fs(), ctx.nl(), init, key_rel(s), la_rel(s))
}

/// The item `init` names a production and a dot position in it, and has a lookahead bitmap
/// over the symbols.
pub open spec fn valid_item(ctx: CfgContext, it: ItemView) -> bool {
    &&& it.p < ctx.g().len()
    &&& it.d <= ctx.g()[it.p as int].rhs.len()
    &&& it.la.len() == ctx.n()
}

} // verus!

verus! {

/// The keys of the closure under construction: the items with dot 0 marked present, and the
/// initial item.
pub open spec fn kx(present: Seq<bool>, init: ItemView) -> spec_fn(int, int) -> bool {
    |p: int, d: int| (d == 0 && mem(present, p)) || (p == init.p && d == init.d)
}

/// The lookaheads of the closure under construction.
pub open spec fn rx(present: Seq<bool>, la0: Seq<Seq<bool>>, init: ItemView) -> spec_fn(int, int, int) -> bool {
    |p: int, d: int, t: int|
        (d == 0 && mem(present, p) && mem2(la0, p, t)) || (p == init.p && d == init.d && init.d != 0 && mem(init.la, t))
}

/// The key `(p, d)` waits in the queue, at or after `head`.
pub open spec fn pending(queue: Seq<(usize, usize)>, head: int, p: int, d: int) -> bool {
    exists|i: int| head <= i < queue.len() && (#[trigger] queue[i]).0 == p && queue[i].1 == d
}

/// Item `(p, d)` has handed its lookaheads to every item it expands.
pub open spec fn propagated(
    g: Seq<SpecIProd>,
    fs: Seq<Seq<bool>>,
    nl: Seq<bool>,
    k: spec_fn(int, int) -> bool,
    r: spec_fn(int, int, int) -> bool,
    p: int,
    d: int,
) -> bool {
    forall|q: int, t: int| #[trigger] closure_step(g, fs, nl, k, r, p, d, q, t)
}

pub proof fn lemma_handed_mono(
    g: Seq<SpecIProd>,
    fs: Seq<Seq<bool>>,
    nl: Seq<bool>,
    r: spec_fn(int, int, int) -> bool,
    r2: spec_fn(int, int, int) -> bool,
    p: int,
    d: int,
    t: int,
)
    requires
        handed(g, fs, nl, r, p, d, t),
        r(p, d, t) ==> r2(p, d, t),
    ensures
        handed(g, fs, nl, r2, p, d, t),
{
}

/// Handing the lookaheads `cand` of item `(p, d)` to item `(q, 0)` keeps the items below
/// every solution.
pub proof fn lemma_below_hand(
    g: Seq<SpecIProd>,
    fs: Seq<Seq<bool>>,
    nl: Seq<bool>,
    init: ItemView,
    k: spec_fn(int, int) -> bool,
    r: spec_fn(int, int, int) -> bool,
    k1: spec_fn(int, int) -> bool,
    r1: spec_fn(int, int, int) -> bool,
    p: int,
    d: int,
    q: int,
    cand: Seq<bool>,
)
    requires
        closure_below(g, fs, nl, init, k, r),
        k(p, d),
        expands(g, p, d, q),
        forall|t: int| #[trigger] mem(cand, t) ==> handed(g, fs, nl, r, p, d, t),
        forall|a: int, b: int| #[trigger] k1(a, b) ==> k(a, b) || (a == q && b == 0 && exists|t: int| #[trigger] mem(cand, t)),
        forall|a: int, b: int, t: int| #[trigger] r1(a, b, t) ==> r(a, b, t) || (a == q && b == 0 && mem(cand, t)),
    ensures
        closure_below(g, fs, nl, init, k1, r1),
{
    assert forall|k2: spec_fn(int, int) -> bool, r2: spec_fn(int, int, int) -> bool|
        #[trigger] closure_sol(g, fs, nl, init, k2, r2) implies (forall|a: int, b: int| #[trigger] k1(a, b) ==> k2(a, b))
            && (forall|a: int, b: int, t: int| #[trigger] r1(a, b, t) ==> r2(a, b, t)) by {
        assert(k2(p, d));
        assert forall|t: int| #[trigger] mem(cand, t) implies r2(q, 0, t) by {
            lemma_handed_mono(g, fs, nl, r, r2, p, d, t);
            assert(closure_step(g, fs, nl, k2, r2, p, d, q, t));
        }
        assert forall|a: int, b: int| #[trigger] k1(a, b) implies k2(a, b) by {
            if !k(a, b) {
                let t = choose|t: int| #[trigger] mem(cand, t);
                assert(r2(q, 0, t));
            }
        }
        assert forall|a: int, b: int, t: int| #[trigger] r1(a, b, t) implies r2(a, b, t) by {
            if !r(a, b, t) {
                assert(mem(cand, t));
            }
        }
    }
}

/// Growing the items elsewhere keeps item `(p, d)` propagated when its own lookaheads stay.
pub proof fn lemma_propagated_grow(
    g: Seq<SpecIProd>,
    fs: Seq<Seq<bool>>,
    nl: Seq<bool>,
    k: spec_fn(int, int) -> bool,
    r: spec_fn(int, int, int) -> bool,
    k1: spec_fn(int, int) -> bool,
    r1: spec_fn(int, int, int) -> bool,
    p: int,
    d: int,
)
    requires
        propagated(g, fs, nl, k, r, p, d),
        k(p, d) == k1(p, d),
        forall|t: int| #[trigger] r(p, d, t) == r1(p, d, t),
        forall|a: int, b: int, t: int| #[trigger] r(a, b, t) ==> r1(a, b, t),
    ensures
        propagated(g, fs, nl, k1, r1, p, d),
{
    assert forall|q: int, t: int| #[trigger] closure_step(g, fs, nl, k1, r1, p, d, q, t) by {
        assert(closure_step(g, fs, nl, k, r, p, d, q, t));
        if k1(p, d) && expands(g, p, d, q) && handed(g, fs, nl, r1, p, d, t) {
            assert(r(p, d, t) == r1(p, d, t));
            assert(handed(g, fs, nl, r, p, d, t));
            assert(r(q, 0, t));
        }
    }
}

} // verus!

verus! {

/// The structure of the closure under construction.
pub open spec fn closure_state_ok(
    ctx: CfgContext,
    init: ItemView,
    present: Seq<bool>,
    la0: Seq<Seq<bool>>,
    queue: Seq<(usize, usize)>,
) -> bool {
    let np = ctx.g().len();
    &&& present.len() == np
    &&& la0.len() == np
    &&& forall|i: int| 0 <= i < np ==> (#[trigger] la0[i]).len() == ctx.n()
    &&& forall|q: int, t: int| #[trigger] mem2(la0, q, t) ==> mem(present, q)
    &&& init.d == 0 ==> mem(present, init.p as int) && forall|t: int| #[trigger] mem(init.la, t) ==> mem2(la0, init.p as int, t)
    &&& forall|i: int| 0 <= i < queue.len() ==> #[trigger] kx(present, init)(queue[i].0 as int, queue[i].1 as int)
    &&& forall|i: int| 0 <= i < queue.len() ==> (#[trigger] queue[i]).0 < np && queue[i].1 <= ctx.g()[queue[i].0 as int].rhs.len()
}

/// The closure of an item: the item with, for every item of the closure whose dot stands
/// before a non-terminal, the productions of that non-terminal with the dot at the start,
/// each with the lookaheads it is handed.
pub fn epsilon_closure(ctx: &CfgContext, item: &LrItem) -> (r: Vec<LrItem>)
    requires
        ctx.wf(),
        valid_item(*ctx, item@),
    ensures
        is_closure(*ctx, item@, items_view(r@)),
        forall|i: int| 0 <= i < r@.len() ==> valid_item(*ctx, #[trigger] items_view(r@)[i]),
{
    let ghost g = ctx.g();
    let ghost fs = ctx.fs();
    let ghost nl = ctx.nl();
    let ghost init = item@;
    let np = ctx.grammar.len();
    let n = ctx.symbols.len();
    let p0 = item.production_id;
    let d0 = item.dot;
    let mut present = falses(np);
    let mut la0 = false_rows(np, n);
    let ghost la_f = mat(la0@);
    if d0 == 0 {
        present.set(p0, true);
        assert(mat(la0@)[p0 as int] == la0@[p0 as int]@);
        union_row(&mut la0, p0, &item.lookahead);
    }
    let mut queue: Vec<(usize, usize)> = Vec::new();
    queue.push((p0, d0));
    let mut head: usize = 0;
    proof {
        assert forall|q: int, t: int| #[trigger] mem2(mat(la0@), q, t) implies mem(present@, q) && q == p0 && d0 == 0 && mem(init.la, t) by {
            if d0 == 0 {
                if q != p0 {
                    assert(mem2(la_f, q, t));
                } else {
                    assert(!mem2(la_f, q, t));
                    assert(mat(la0@)[q] == union(la_f[q], init.la));
                    assert(la_f[q].len() == n);
                }
            } else {
                assert(mem2(la_f, q, t));
            }
        }
        if d0 == 0 {
            assert forall|t: int| #[trigger] mem(init.la, t) implies mem2(mat(la0@), init.p as int, t) by {
                assert(la_f[p0 as int].len() == n);
            }
        }
        assert(closure_state_ok(*ctx, init, present@, mat(la0@), queue@));
        let k = kx(present@, init);
        let r = rx(present@, mat(la0@), init);
        assert forall|k2: spec_fn(int, int) -> bool, r2: spec_fn(int, int, int) -> bool|
            #[trigger] closure_sol(g, fs, nl, init, k2, r2) implies (forall|a: int, b: int| #[trigger] k(a, b) ==> k2(a, b))
                && (forall|a: int, b: int, t: int| #[trigger] r(a, b, t) ==> r2(a, b, t)) by {
            assert forall|a: int, b: int| #[trigger] k(a, b) implies k2(a, b) by {
                if b == 0 && mem(present@, a) && a != p0 {
                    assert(present@[a] == false);
                }
            }
            assert forall|a: int, b: int, t: int| #[trigger] r(a, b, t) implies r2(a, b, t) by {
                if b == 0 && mem(present@, a) && mem2(mat(la0@), a, t) {
                    assert(mem(init.la, t));
                }
            }
        }
        assert forall|a: int, b: int| #[trigger] k(a, b) implies pending(queue@, head as int, a, b) || propagated(g, fs, nl, k, r, a, b) by {
            assert(queue@[0] == (p0, d0));
            if b == 0 && mem(present@, a) && a != p0 {
                assert(present@[a] == false);
            }
        }
    }
    while head < queue.len()
        invariant
            ctx.wf(),
            g == ctx.g(),
            fs == ctx.fs(),
            nl == ctx.nl(),
            init == item@,
            valid_item(*ctx, init),
            np == g.len(),
            n == ctx.n(),
            p0 == init.p,
            d0 == init.d,
            head <= queue@.len(),
            closure_state_ok(*ctx, init, present@, mat(la0@), queue@),
            closure_below(g, fs, nl, init, kx(present@, init), rx(present@, mat(la0@), init)),
            forall|a: int, b: int| #[trigger] kx(present@, init)(a, b) ==> pending(queue@, head as int, a, b)
                || propagated(g, fs, nl, kx(present@, init), rx(present@, mat(la0@), init), a, b),
        decreases usize::MAX - queue@.len(), queue@.len() - head,
    {
        let (p, d) = queue[head];
        let ghost h0 = head as int;
        let ghost qlen0 = queue@.len();
        head = head + 1;
        let ghost k0 = kx(present@, init);
        let ghost r0 = rx(present@, mat(la0@), init);
        assert(k0(p as int, d as int));
        let lsnap = if d == 0 {
            la0[p].clone()
        } else {
            item.lookahead.clone()
        };
        proof {
            if d == 0 {
                assert(lsnap@ =~= mat(la0@)[p as int]);
            } else {
                assert(lsnap@ =~= init.la);
            }
            assert forall|t: int| #[trigger] mem(lsnap@, t) == r0(p as int, d as int, t) by {}
            assert forall|a: int, b: int| #[trigger] k0(a, b) implies (a == p && b == d) || pending(queue@, head as int, a, b)
                || propagated(g, fs, nl, k0, r0, a, b) by {
                if pending(queue@, h0, a, b) && !(a == p && b == d) {
                    let i = choose|i: int| h0 <= i < queue@.len() && (#[trigger] queue@[i]).0 == a && queue@[i].1 == b;
                    assert(i != h0);
                }
            }
        }
        let prod = &ctx.grammar[p];
        assert(prod@ == g[p as int]);
        assert(wf_prod(g[p as int], n as nat));
        if d < prod.rhs.len() && !prod.rhs[d].terminal {
            let b = prod.rhs[d].id;
            let mut cand = first_of_tail(&prod.rhs, d + 1, &ctx.first_ids, &ctx.nullable_ids, n);
            let ghost c0 = cand@;
            let tn = tail_nullable(&prod.rhs, d + 1, &ctx.nullable_ids);
            if tn {
                union_into(&mut cand, &lsnap);
            }
            proof {
                assert(lsnap@.len() == n);
                assert(prod.rhs@ == g[p as int].rhs);
                assert(tn == seq_nullable(g[p as int].rhs.skip(d + 1), nl));
                assert forall|t: int| #[trigger] mem(cand@, t) == handed(g, fs, nl, r0, p as int, d as int, t) by {
                    assert(mem(c0, t) == in_first(g[p as int].rhs.skip(d + 1), fs, nl, t));
                    assert(mem(lsnap@, t) == r0(p as int, d as int, t));
                    if tn {
                        assert(cand@ == union(c0, lsnap@));
                        if 0 <= t < n {
                            assert(cand@[t] == (c0[t] || lsnap@[t]));
                        }
                    } else {
                        assert(cand@ == c0);
                    }
                }
            }
            let targets = &ctx.productions_by_nonterminal[b];
            assert(rows(ctx.productions_by_nonterminal@)[b as int] == targets@);
            let mut j: usize = 0;
            while j < targets.len()
                invariant
                    ctx.wf(),
                    g == ctx.g(),
                    fs == ctx.fs(),
                    nl == ctx.nl(),
                    init == item@,
                    valid_item(*ctx, init),
                    np == g.len(),
                    n == ctx.n(),
                    p0 == init.p,
                    d0 == init.d,
                    0 < head <= queue@.len(),
                    p < np,
                    (d as int) < g[p as int].rhs.len(),
                    !g[p as int].rhs[d as int].terminal,
                    b == g[p as int].rhs[d as int].id,
                    b < n,
                    targets@ == rows(ctx.productions_by_nonterminal@)[b as int],
                    j <= targets@.len(),
                    qlen0 <= queue@.len(),
                    head == h0 + 1,
                    cand@.len() == n,
                    forall|t: int| #[trigger] mem(cand@, t) == handed(g, fs, nl, r0, p as int, d as int, t),
                    forall|t: int| #[trigger] mem(lsnap@, t) == r0(p as int, d as int, t),
                    kx(present@, init)(p as int, d as int),
                    closure_state_ok(*ctx, init, present@, mat(la0@), queue@),
                    closure_below(g, fs, nl, init, kx(present@, init), rx(present@, mat(la0@), init)),
                    forall|a: int, b2: int, t: int| #[trigger] r0(a, b2, t) ==> rx(present@, mat(la0@), init)(a, b2, t),
                    (forall|t: int| #[trigger] rx(present@, mat(la0@), init)(p as int, d as int, t) == mem(lsnap@, t))
                        || pending(queue@, head as int, p as int, d as int),
                    forall|a: int, b2: int| #[trigger] kx(present@, init)(a, b2) ==> (a == p && b2 == d) || pending(queue@, head as int, a, b2)
                        || propagated(g, fs, nl, kx(present@, init), rx(present@, mat(la0@), init), a, b2),
                    forall|jj: int, t: int| #![trigger targets@[jj], mem(cand@, t)] 0 <= jj < j && mem(cand@, t) ==> rx(present@, mat(la0@), init)(targets@[jj] as int, 0, t),
                decreases targets@.len() - j,
            {
                let q = targets[j];
                assert(q < np && g[q as int].lhs == b);
                assert(expands(g, p as int, d as int, q as int));
                let ghost k1 = kx(present@, init);
                let ghost r1 = rx(present@, mat(la0@), init);
                let ghost q1 = queue@;
                let ghost pr1 = present@;
                let ghost la1 = mat(la0@);
                assert(mat(la0@)[q as int] == la0@[q as int]@);
                let ch = union_row(&mut la0, q, &cand);
                let mut pushed = false;
                if !present[q] {
                    if any_bit(&cand) {
                        present.set(q, true);
                        queue.push((q, 0));
                        pushed = true;
                    }
                } else if ch {
                    queue.push((q, 0));
                    pushed = true;
                }
                proof {
                    let k2 = kx(present@, init);
                    let r2 = rx(present@, mat(la0@), init);
                    // The new lookaheads of (q, 0) come from `cand`.
                    assert forall|a: int, b2: int, t: int| #[trigger] r2(a, b2, t) implies r1(a, b2, t) || (a == q && b2 == 0 && mem(cand@, t)) by {
                        if a != q && b2 == 0 && mem(present@, a) && mem2(mat(la0@), a, t) {
                            assert(mem2(la1, a, t));
                        }
                    }
                    assert forall|a: int, b2: int| #[trigger] k2(a, b2) implies k1(a, b2) || (a == q && b2 == 0 && exists|t: int| #[trigger] mem(cand@, t)) by {}
                    assert forall|a: int, b2: int, t: int| #[trigger] r1(a, b2, t) implies r2(a, b2, t) by {
                        if b2 == 0 && mem(pr1, a) && mem2(la1, a, t) {
                            if a == q {
                                assert(union(la1[a], cand@)[t]);
                            }
                        }
                    }
                    assert(closure_sol(g, fs, nl, init, k2, r2) ==> true);
                    lemma_below_hand(g, fs, nl, init, k1, r1, k2, r2, p as int, d as int, q as int, cand@);
                    // Whether (q, 0) has new lookaheads: then it was queued.
                    assert(!pushed ==> forall|t: int| #[trigger] r2(q as int, 0, t) == r1(q as int, 0, t)) by {
                        if !pushed {
                            assert forall|t: int| #[trigger] r2(q as int, 0, t) == r1(q as int, 0, t) by {
                                if !mem(pr1, q as int) {
                                    assert(!mem(present@, q as int));
                                } else {
                                    assert(la1[q as int].len() == n);
                                    if 0 <= t < n {
                                        assert(union(la1[q as int], cand@)[t] == la1[q as int][t]);
                                    }
                                }
                            }
                        }
                    }
                    assert(pushed ==> pending(queue@, head as int, q as int, 0)) by {
                        if pushed {
                            assert(queue@[queue@.len() - 1] == (q, 0usize));
                        }
                    }
                    // Pending keys stay pending.
                    assert forall|a: int, b2: int| pending(q1, head as int, a, b2) implies #[trigger] pending(queue@, head as int, a, b2) by {
                        let i = choose|i: int| head <= i < q1.len() && (#[trigger] q1[i]).0 == a && q1[i].1 == b2;
                        assert(queue@[i] == q1[i]);
                    }
                    assert forall|a: int, b2: int| #[trigger] k2(a, b2) implies (a == p && b2 == d) || pending(queue@, head as int, a, b2)
                        || propagated(g, fs, nl, k2, r2, a, b2) by {
                        if a == q && b2 == 0 && pushed {
                        } else if a == q && b2 == 0 && !k1(a, b2) {
                        } else if !(a == p && b2 == d) && !pending(q1, head as int, a, b2) {
                            assert(k1(a, b2));
                            assert(propagated(g, fs, nl, k1, r1, a, b2));
                            assert forall|t: int| #[trigger] r1(a, b2, t) == r2(a, b2, t) by {
                                if a == q && b2 == 0 {
                                    assert(r2(q as int, 0, t) == r1(q as int, 0, t));
                                }
                            }
                            lemma_propagated_grow(g, fs, nl, k1, r1, k2, r2, a, b2);
                        }
                    }
                    assert((forall|t: int| #[trigger] r2(p as int, d as int, t) == mem(lsnap@, t)) || pending(queue@, head as int, p as int, d as int)) by {
                        if !pending(q1, head as int, p as int, d as int) {
                            if !(p == q && d == 0 && pushed) {
                                assert forall|t: int| #[trigger] r2(p as int, d as int, t) == mem(lsnap@, t) by {
                                    assert(r1(p as int, d as int, t) == mem(lsnap@, t));
                                    if p == q && d == 0 {
                                        assert(r2(q as int, 0, t) == r1(q as int, 0, t));
                                    }
                                }
                            }
                        }
                    }
                    assert forall|jj: int, t: int| #![trigger targets@[jj], mem(cand@, t)] 0 <= jj < j + 1 && mem(cand@, t) implies r2(targets@[jj] as int, 0, t) by {
                        if jj < j {
                            assert(r1(targets@[jj] as int, 0, t));
                        } else {
                            assert(union(la1[q as int], cand@)[t]);
                            assert(mem(present@, q as int));
                        }
                    }
                    assert forall|a: int, b2: int, t: int| #[trigger] r0(a, b2, t) implies r2(a, b2, t) by {
                        assert(r1(a, b2, t));
                    }
                    assert forall|q2: int, t: int| #[trigger] mem2(mat(la0@), q2, t) implies mem(present@, q2) by {
                        if q2 == q {
                            if !mem2(la1, q2, t) {
                                assert(mem(cand@, t));
                            }
                        } else {
                            assert(mem2(la1, q2, t));
                        }
                    }
                    assert forall|i: int| 0 <= i < queue@.len() implies #[trigger] k2(queue@[i].0 as int, queue@[i].1 as int) by {
                        if i < q1.len() {
                            assert(queue@[i] == q1[i]);
                            assert(k1(q1[i].0 as int, q1[i].1 as int));
                        }
                    }
                    assert forall|i: int| 0 <= i < queue@.len() implies (#[trigger] queue@[i]).0 < np && queue@[i].1 <= g[queue@[i].0 as int].rhs.len() by {
                        if i < q1.len() {
                            assert(queue@[i] == q1[i]);
                        }
                    }
                    assert(closure_state_ok(*ctx, init, present@, mat(la0@), queue@));
                }
                j = j + 1;
            }
            proof {
                let k2 = kx(present@, init);
                let r2 = rx(present@, mat(la0@), init);
                if !pending(queue@, head as int, p as int, d as int) {
                    assert forall|q: int, t: int| #[trigger] closure_step(g, fs, nl, k2, r2, p as int, d as int, q, t) by {
                        if k2(p as int, d as int) && expands(g, p as int, d as int, q) && handed(g, fs, nl, r2, p as int, d as int, t) {
                            assert(r2(p as int, d as int, t) == mem(lsnap@, t));
                            assert(handed(g, fs, nl, r0, p as int, d as int, t));
                            assert(mem(cand@, t));
                            assert(rows(ctx.productions_by_nonterminal@)[g[q].lhs as int].contains(q as usize));
                            let jj = choose|jj: int| 0 <= jj < targets@.len() && targets@[jj] == q as usize;
                            assert(r2(targets@[jj] as int, 0, t));
                        }
                    }
                }
            }
        } else {
            proof {
                assert forall|q: int, t: int| #[trigger] closure_step(g, fs, nl, k0, r0, p as int, d as int, q, t) by {
                    assert(!expands(g, p as int, d as int, q));
                }
            }
        }
        let ql = queue.len();
        assert(ql == queue@.len());
    }
    // Collect the items, ordered by production and dot.
    let ghost k = kx(present@, init);
    let ghost r = rx(present@, mat(la0@), init);
    assert forall|a: int, b: int| #[trigger] k(a, b) implies propagated(g, fs, nl, k, r, a, b) by {
        if pending(queue@, head as int, a, b) {
            let i = choose|i: int| head <= i < queue@.len() && (#[trigger] queue@[i]).0 == a && queue@[i].1 == b;
        }
    }
    let mut out: Vec<LrItem> = Vec::new();
    let mut q: usize = 0;
    while q < np
        invariant
            ctx.wf(),
            g == ctx.g(),
            init == item@,
            valid_item(*ctx, init),
            np == g.len(),
            n == ctx.n(),
            p0 == init.p,
            d0 == init.d,
            q <= np,
            k == kx(present@, init),
            r == rx(present@, mat(la0@), init),
            closure_state_ok(*ctx, init, present@, mat(la0@), queue@),
            forall|i: int| 0 <= i < out@.len() ==> valid_item(*ctx, #[trigger] items_view(out@)[i]),
            forall|i: int| 0 <= i < out@.len() ==> (#[trigger] items_view(out@)[i]).p < q,
            forall|i: int, i2: int| 0 <= i < i2 < out@.len() ==> (#[trigger] items_view(out@)[i]).p < (#[trigger] items_view(out@)[i2]).p
                || (items_view(out@)[i].p == items_view(out@)[i2].p && items_view(out@)[i].d < items_view(out@)[i2].d),
            forall|a: int, b: int| 0 <= a < q ==> (#[trigger] k(a, b) == key_rel(items_view(out@))(a, b)),
            forall|a: int, b: int, t: int| 0 <= a < q ==> (#[trigger] r(a, b, t) == la_rel(items_view(out@))(a, b, t)),
            forall|a: int, b: int| q <= a ==> !(#[trigger] key_rel(items_view(out@))(a, b)),
        decreases np - q,
    {
        let ghost o0 = items_view(out@);
        if present[q] {
            assert(mat(la0@)[q as int] == la0@[q as int]@);
            out.push(LrItem { production_id: q, dot: 0, lookahead: la0[q].clone() });
        }
        let ghost o1 = items_view(out@);
        if q == p0 && d0 != 0 {
            out.push(LrItem { production_id: p0, dot: d0, lookahead: item.lookahead.clone() });
        }
        proof {
            let o = items_view(out@);
            assert forall|i: int| 0 <= i < o.len() implies #[trigger] o[i] == (if i < o0.len() { o0[i] } else if i < o1.len() { o1[i] } else { o[i] }) by {
                if i < o0.len() {
                    assert(o1[i] == o0[i]);
                }
            }
            assert forall|i: int| 0 <= i < o.len() implies valid_item(*ctx, #[trigger] o[i]) by {
                if i < o0.len() {
                    assert(o1[i] == o0[i]);
                } else if i < o1.len() {
                    assert(o[i].la =~= mat(la0@)[q as int]);
                } else {
                    assert(o[i].la =~= init.la);
                }
            }
            assert forall|a: int, b: int| 0 <= a < q + 1 implies (#[trigger] k(a, b) == key_rel(o)(a, b)) by {
                if a < q {
                    if key_rel(o)(a, b) {
                        let i = choose|i: int| 0 <= i < o.len() && (#[trigger] o[i]).p == a && o[i].d == b;
                        if i >= o0.len() {
                            assert(o[i].p == q);
                        }
                    }
                    if key_rel(o0)(a, b) {
                        let i = choose|i: int| 0 <= i < o0.len() && (#[trigger] o0[i]).p == a && o0[i].d == b;
                        assert(o[i] == o0[i]);
                    }
                } else {
                    if k(a, b) {
                        if b == 0 && mem(present@, a) {
                            assert(o[o0.len() as int].p == a && o[o0.len() as int].d == 0);
                        } else {
                            assert(o[o.len() - 1].p == a && o[o.len() - 1].d == b);
                        }
                    }
                    if key_rel(o)(a, b) {
                        let i = choose|i: int| 0 <= i < o.len() && (#[trigger] o[i]).p == a && o[i].d == b;
                        if i < o0.len() {
                            assert(!key_rel(o0)(a, b));
                        }
                    }
                }
            }
            assert forall|a: int, b: int, t: int| 0 <= a < q + 1 implies (#[trigger] r(a, b, t) == la_rel(o)(a, b, t)) by {
                if a < q {
                    if la_rel(o)(a, b, t) {
                        let i = choose|i: int| 0 <= i < o.len() && (#[trigger] o[i]).p == a && o[i].d == b && mem(o[i].la, t);
                        if i >= o0.len() {
                            assert(o[i].p == q);
                        }
                        assert(la_rel(o0)(a, b, t));
                    }
                    if la_rel(o0)(a, b, t) {
                        let i = choose|i: int| 0 <= i < o0.len() && (#[trigger] o0[i]).p == a && o0[i].d == b && mem(o0[i].la, t);
                        assert(o[i] == o0[i]);
                    }
                } else {
                    if r(a, b, t) {
                        if b == 0 && mem(present@, a) && mem2(mat(la0@), a, t) {
                            assert(o[o0.len() as int].p == a && o[o0.len() as int].d == 0);
                            assert(mem(o[o0.len() as int].la, t));
                        } else {
                            assert(o[o.len() - 1].p == a && o[o.len() - 1].d == b);
                            assert(mem(o[o.len() - 1].la, t));
                        }
                    }
                    if la_rel(o)(a, b, t) {
                        let i = choose|i: int| 0 <= i < o.len() && (#[trigger] o[i]).p == a && o[i].d == b && mem(o[i].la, t);
                        if i < o0.len() {
                            assert(key_rel(o0)(a, b));
                        } else if i < o1.len() {
                            assert(mem2(mat(la0@), a, t));
                        } else {
                            assert(mem(init.la, t));
                        }
                    }
                }
            }
            assert forall|a: int, b: int| q + 1 <= a implies !(#[trigger] key_rel(o)(a, b)) by {
                if key_rel(o)(a, b) {
                    let i = choose|i: int| 0 <= i < o.len() && (#[trigger] o[i]).p == a && o[i].d == b;
                    if i < o0.len() {
                        assert(o[i] == o0[i]);
                    }
                }
            }
        }
        q = q + 1;
    }
    proof {
        let o = items_view(out@);
        assert(key_rel(o) =~= k) by {
            assert forall|a: int, b: int| #[trigger] key_rel(o)(a, b) == k(a, b) by {
                if a < 0 {
                    if key_rel(o)(a, b) {
                        let i = choose|i: int| 0 <= i < o.len() && (#[trigger] o[i]).p == a && o[i].d == b;
                    }
                } else if a >= np {
                    assert(!mem(present@, a));
                }
            }
        }
        assert(la_rel(o) =~= r) by {
            assert forall|a: int, b: int, t: int| #[trigger] la_rel(o)(a, b, t) == r(a, b, t) by {
                if a < 0 {
                    if la_rel(o)(a, b, t) {
                        let i = choose|i: int| 0 <= i < o.len() && (#[trigger] o[i]).p == a && o[i].d == b && mem(o[i].la, t);
                    }
                } else if a >= np {
                    assert(!mem(present@, a));
                    if la_rel(o)(a, b, t) {
                        assert(key_rel(o)(a, b));
                    }
                }
            }
        }
        assert forall|p: int, d: int, q2: int, t: int| #[trigger] closure_step(g, fs, nl, k, r, p, d, q2, t) by {
            if k(p, d) {
                assert(propagated(g, fs, nl, k, r, p, d));
            }
        }
        assert forall|i: int, j: int| 0 <= i < o.len() && 0 <= j < o.len() && i != j implies (#[trigger] o[i]).p != (#[trigger] o[j]).p || o[i].d != o[j].d by {
            if i < j {
            } else {
            }
        }
    }
    out
}

} // verus!

verus! {

/// The closure of `init`, as a set of items.
pub open spec fn closure_set(ctx: CfgContext, init: ItemView) -> Set<ItemView> {
    (choose|s: Seq<ItemView>| is_closure(ctx, init, s)).to_set()
}

/// In a list of items with one item per key, the lookaheads of a key are those of its item.
pub proof fn lemma_la_rel_at(s: Seq<ItemView>, i: int, t: int)
    requires
        0 <= i < s.len(),
        forall|a: int, b: int| 0 <= a < s.len() && 0 <= b < s.len() && a != b ==> (#[trigger] s[a]).p != (#[trigger] s[b]).p || s[a].d != s[b].d,
    ensures
        la_rel(s)(s[i].p as int, s[i].d as int, t) == mem(s[i].la, t),
        key_rel(s)(s[i].p as int, s[i].d as int),
{
    if la_rel(s)(s[i].p as int, s[i].d as int, t) {
        let j = choose|j: int| 0 <= j < s.len() && (#[trigger] s[j]).p == s[i].p as int && s[j].d == s[i].d as int && mem(s[j].la, t);
        assert(j == i);
    }
}

/// Two closures of the same item hold the same items.
pub proof fn lemma_closure_unique(ctx: CfgContext, init: ItemView, s1: Seq<ItemView>, s2: Seq<ItemView>)
    requires
        is_closure(ctx, init, s1),
        is_closure(ctx, init, s2),
    ensures
        s1.to_set() == s2.to_set(),
{
    let g = ctx.g();
    let fs = ctx.fs();
    let nl = ctx.nl();
    assert(closure_sol(g, fs, nl, init, key_rel(s2), la_rel(s2)));
    assert(closure_sol(g, fs, nl, init, key_rel(s1), la_rel(s1)));
    assert forall|x: ItemView| s1.to_set().contains(x) implies s2.to_set().contains(x) by {
        lemma_closure_item_in(ctx, init, s1, s2, x);
    }
    assert forall|x: ItemView| s2.to_set().contains(x) implies s1.to_set().contains(x) by {
        lemma_closure_item_in(ctx, init, s2, s1, x);
    }
    assert(s1.to_set() =~= s2.to_set());
}

proof fn lemma_closure_item_in(ctx: CfgContext, init: ItemView, s1: Seq<ItemView>, s2: Seq<ItemView>, x: ItemView)
    requires
        is_closure(ctx, init, s1),
        is_closure(ctx, init, s2),
        s1.to_set().contains(x),
    ensures
        s2.to_set().contains(x),
{
    let g = ctx.g();
    let fs = ctx.fs();
    let nl = ctx.nl();
    assert(closure_sol(g, fs, nl, init, key_rel(s2), la_rel(s2)));
    assert(closure_sol(g, fs, nl, init, key_rel(s1), la_rel(s1)));
    let i = choose|i: int| 0 <= i < s1.len() && s1[i] == x;
    lemma_la_rel_at(s1, i, 0);
    assert(key_rel(s2)(x.p as int, x.d as int));
    let j = choose|j: int| 0 <= j < s2.len() && (#[trigger] s2[j]).p == x.p as int && s2[j].d == x.d as int;
    assert forall|t: int| 0 <= t < x.la.len() implies x.la[t] == s2[j].la[t] by {
        lemma_la_rel_at(s1, i, t);
        lemma_la_rel_at(s2, j, t);
        if x.la[t] {
            assert(la_rel(s1)(x.p as int, x.d as int, t));
            assert(la_rel(s2)(x.p as int, x.d as int, t));
        }
        if s2[j].la[t] {
            assert(la_rel(s2)(x.p as int, x.d as int, t));
            assert(la_rel(s1)(x.p as int, x.d as int, t));
        }
    }
    assert(s2[j].la =~= x.la);
    assert(s2[j] == x);
    assert(s2.contains(x));
}

/// A computed closure holds the items of `closure_set`.
pub proof fn lemma_closure_set(ctx: CfgContext, init: ItemView, s: Seq<ItemView>)
    requires
        is_closure(ctx, init, s),
    ensures
        s.to_set() == closure_set(ctx, init),
{
    let c = choose|c: Seq<ItemView>| is_closure(ctx, init, c);
    lemma_closure_unique(ctx, init, s, c);
}

} // verus!

verus! {

/// In the closure of an item with its dot past the start, the only item whose dot is past the
/// start is that item.
pub proof fn lemma_closure_kernel(ctx: CfgContext, init: ItemView, s: Seq<ItemView>, i: int)
    requires
        is_closure(ctx, init, s),
        init.la.len() == ctx.n(),
        init.d >= 1,
        0 <= i < s.len(),
        s[i].d >= 1,
    ensures
        s[i] == init,
{
    let g = ctx.g();
    let fs = ctx.fs();
    let nl = ctx.nl();
    let k2 = |p: int, d: int| (p == init.p && d == init.d) || d == 0;
    let r2 = |p: int, d: int, t: int| if p == init.p && d == init.d { mem(init.la, t) } else { d == 0 };
    assert(closure_sol(g, fs, nl, init, k2, r2)) by {
        assert forall|p: int, d: int, q: int, t: int| #[trigger] closure_step(g, fs, nl, k2, r2, p, d, q, t) by {
            if k2(p, d) && expands(g, p, d, q) && handed(g, fs, nl, r2, p, d, t) {
                assert(!(q == init.p && 0 == init.d));
            }
        }
    }
    lemma_la_rel_at(s, i, 0);
    assert(key_rel(s)(s[i].p as int, s[i].d as int));
    assert(k2(s[i].p as int, s[i].d as int));
    assert forall|t: int| 0 <= t < init.la.len() implies s[i].la[t] == init.la[t] by {
        lemma_la_rel_at(s, i, t);
        if s[i].la[t] {
            assert(la_rel(s)(s[i].p as int, s[i].d as int, t));
            assert(r2(s[i].p as int, s[i].d as int, t));
        }
        if init.la[t] {
            assert(mem(init.la, t));
            assert(la_rel(s)(init.p as int, init.d as int, t));
        }
    }
    assert(s[i].la.len() == ctx.n());
    assert(s[i].la =~= init.la);
}

/// The closure of an item with its dot at the start holds only items with the dot at the start.
pub proof fn lemma_closure_start(ctx: CfgContext, init: ItemView, s: Seq<ItemView>, i: int)
    requires
        is_closure(ctx, init, s),
        init.d == 0,
        0 <= i < s.len(),
    ensures
        s[i].d == 0,
{
    let g = ctx.g();
    let fs = ctx.fs();
    let nl = ctx.nl();
    let k2 = |p: int, d: int| d == 0;
    let r2 = |p: int, d: int, t: int| d == 0;
    assert(closure_sol(g, fs, nl, init, k2, r2)) by {
        assert forall|p: int, d: int, q: int, t: int| #[trigger] closure_step(g, fs, nl, k2, r2, p, d, q, t) by {}
    }
    lemma_la_rel_at(s, i, 0);
    assert(key_rel(s)(s[i].p as int, s[i].d as int));
    assert(k2(s[i].p as int, s[i].d as int));
}

/// In a closure, every item but the initial one has its dot at the start and is expanded from
/// an item of the closure.
pub proof fn lemma_closure_expanded(ctx: CfgContext, init: ItemView, s: Seq<ItemView>, i: int)
    requires
        is_closure(ctx, init, s),
        0 <= i < s.len(),
        s[i].p != init.p || s[i].d != init.d,
    ensures
        s[i].d == 0,
        exists|j: int| 0 <= j < s.len() && #[trigger] expands(ctx.g(), s[j].p as int, s[j].d as int, s[i].p as int),
{
    let g = ctx.g();
    let fs = ctx.fs();
    let nl = ctx.nl();
    let q0 = s[i].p as int;
    let d0 = s[i].d as int;
    let k1 = key_rel(s);
    let r1 = la_rel(s);
    if d0 != 0 || !(exists|j: int| 0 <= j < s.len() && #[trigger] expands(g, s[j].p as int, s[j].d as int, q0)) {
        let k2 = |p: int, d: int| k1(p, d) && !(p == q0 && d == d0);
        let r2 = |p: int, d: int, t: int| r1(p, d, t) && !(p == q0 && d == d0);
        assert(closure_sol(g, fs, nl, init, k2, r2)) by {
            assert forall|p: int, d: int, t: int| #[trigger] r2(p, d, t) implies k2(p, d) by {
                assert(r1(p, d, t));
            }
            assert forall|p: int, d: int, q: int, t: int| #[trigger] closure_step(g, fs, nl, k2, r2, p, d, q, t) by {
                if k2(p, d) && expands(g, p, d, q) && handed(g, fs, nl, r2, p, d, t) {
                    assert(handed(g, fs, nl, r1, p, d, t));
                    assert(closure_step(g, fs, nl, k1, r1, p, d, q, t));
                    assert(r1(q, 0, t));
                    if q == q0 && d0 == 0 {
                        let j = choose|j: int| 0 <= j < s.len() && (#[trigger] s[j]).p == p && s[j].d == d;
                        assert(expands(g, s[j].p as int, s[j].d as int, q0));
                    }
                }
            }
            assert forall|t: int| #[trigger] mem(init.la, t) implies r2(init.p as int, init.d as int, t) by {
                assert(r1(init.p as int, init.d as int, t));
            }
        }
        lemma_la_rel_at(s, i, 0);
        assert(k1(q0, d0));
        assert(k2(q0, d0));
    }
}

} // verus!
