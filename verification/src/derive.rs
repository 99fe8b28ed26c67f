use vstd::prelude::*;
use crate::bits::{mem, mem2, le};
use crate::analysis::{
    Sym, SpecIProd, sym_nullable, prefix_nullable, seq_nullable, sym_first, in_first, nullable_ok, first_ok,
    follow_ok, follow_at_ok, follow_source, prod_ok, closed_sets, wf_prod,
};
use crate::context::CfgContext;

verus! {

/// The non-terminal `a` derives the empty string by a derivation tree of depth at most `k`:
/// some production of `a` has only non-terminals on its right side, each deriving the empty
/// string by a tree of depth at most `k - 1`.
pub open spec fn derives_empty(g: Seq<SpecIProd>, a: int, k: nat) -> bool
    decreases k,
{
    k > 0 && exists|q: int|
        0 <= q < g.len() && g[q].lhs == a && forall|i: int|
            0 <= i < g[q].rhs.len() ==> !(#[trigger] g[q].rhs[i]).terminal && derives_empty(g, g[q].rhs[i].id as int, (k - 1) as nat)
}

/// A deeper bound allows the same derivations.
pub proof fn lemma_derives_empty_mono(g: Seq<SpecIProd>, a: int, k: nat, k2: nat)
    requires
        derives_empty(g, a, k),
        k <= k2,
    ensures
        derives_empty(g, a, k2),
    decreases k,
{
    let q = choose|q: int|
        0 <= q < g.len() && g[q].lhs == a && forall|i: int|
            0 <= i < g[q].rhs.len() ==> !(#[trigger] g[q].rhs[i]).terminal && derives_empty(g, g[q].rhs[i].id as int, (k - 1) as nat);
    assert forall|i: int| 0 <= i < g[q].rhs.len() implies !(#[trigger] g[q].rhs[i]).terminal && derives_empty(g, g[q].rhs[i].id as int, (k2 - 1) as nat) by {
        lemma_derives_empty_mono(g, g[q].rhs[i].id as int, (k - 1) as nat, (k2 - 1) as nat);
    }
}

/// The symbols that derive the empty string, as a bitmap over `n` symbols.
pub open spec fn empty_deriving(g: Seq<SpecIProd>, n: nat) -> Seq<bool> {
    Seq::new(n, |a: int| exists|k: nat| #[trigger] derives_empty(g, a, k))
}

/// The first `j` symbols of a right side whose symbols all derive the empty string do so
/// within one depth bound.
proof fn lemma_common_depth(g: Seq<SpecIProd>, n: nat, rhs: Seq<crate::analysis::Sym>, j: int) -> (k: nat)
    requires
        0 <= j <= rhs.len(),
        prefix_nullable(rhs, j, empty_deriving(g, n)),
    ensures
        forall|i: int| 0 <= i < j ==> #[trigger] derives_empty(g, rhs[i].id as int, k),
    decreases j,
{
    if j == 0 {
        0
    } else {
        let k0 = lemma_common_depth(g, n, rhs, j - 1);
        assert(sym_nullable(rhs[j - 1], empty_deriving(g, n)));
        let k1 = choose|k: nat| #[trigger] derives_empty(g, rhs[j - 1].id as int, k);
        let k = if k0 < k1 { k1 } else { k0 };
        assert forall|i: int| 0 <= i < j implies #[trigger] derives_empty(g, rhs[i].id as int, k) by {
            if i < j - 1 {
                lemma_derives_empty_mono(g, rhs[i].id as int, k0, k);
            } else {
                lemma_derives_empty_mono(g, rhs[i].id as int, k1, k);
            }
        }
        k
    }
}

/// The full `n` by `n` bitmap matrix.
pub open spec fn full(n: nat) -> Seq<Seq<bool>> {
    Seq::new(n, |i: int| Seq::new(n, |t: int| true))
}

/// The nullable set of a grammar's context holds exactly the symbols that derive the empty
/// string.
pub proof fn lemma_nullable_derives_empty(ctx: CfgContext, a: int)
    requires
        ctx.wf(),
        0 <= a < ctx.n(),
    ensures
        mem(ctx.nl(), a) <==> exists|k: nat| #[trigger] derives_empty(ctx.g(), a, k),
{
    let g = ctx.g();
    let n = ctx.n();
    let nl = ctx.nl();
    if exists|k: nat| #[trigger] derives_empty(g, a, k) {
        let k = choose|k: nat| #[trigger] derives_empty(g, a, k);
        lemma_derives_empty_nullable(ctx, a, k);
    }
    if mem(nl, a) {
        let d = empty_deriving(g, n);
        let f = full(n);
        assert forall|q: int| 0 <= q < g.len() implies #[trigger] prod_ok(g[q], d, f, f) by {
            let p = g[q];
            assert(wf_prod(p, n));
            if seq_nullable(p.rhs, d) {
                let k = lemma_common_depth(g, n, p.rhs, p.rhs.len() as int);
                assert forall|i: int| 0 <= i < p.rhs.len() implies !(#[trigger] g[q].rhs[i]).terminal && derives_empty(g, g[q].rhs[i].id as int, k) by {
                    assert(sym_nullable(p.rhs[i], d));
                }
                assert(derives_empty(g, p.lhs as int, k + 1));
                assert(mem(d, p.lhs as int));
            }
            assert forall|t: int| in_first(p.rhs, f, d, t) implies #[trigger] mem2(f, p.lhs as int, t) by {
                let j = choose|j: int| 0 <= j < p.rhs.len() && prefix_nullable(p.rhs, j, d) && #[trigger] sym_first(p.rhs[j], f, t);
                assert(p.rhs[j].id < n);
            }
            assert forall|i: int| 0 <= i < p.rhs.len() implies #[trigger] follow_at_ok(p, i, d, f, f) by {
                assert(p.rhs[i].id < n);
                assert forall|t: int| #[trigger] follow_source(p, i, d, f, f, t) implies mem2(f, p.rhs[i].id as int, t) by {
                    if in_first(p.rhs.skip(i + 1), f, d, t) {
                        let j = choose|j: int| 0 <= j < p.rhs.skip(i + 1).len() && prefix_nullable(p.rhs.skip(i + 1), j, d) && #[trigger] sym_first(p.rhs.skip(i + 1)[j], f, t);
                        assert(p.rhs[i + 1 + j].id < n);
                    }
                }
            }
        }
        assert(closed_sets(g, d, f, f));
        assert(le(nl, d));
        assert(mem(d, a));
    }
}

/// A symbol that derives the empty string is nullable.
proof fn lemma_derives_empty_nullable(ctx: CfgContext, a: int, k: nat)
    requires
        ctx.wf(),
        derives_empty(ctx.g(), a, k),
    ensures
        mem(ctx.nl(), a),
    decreases k,
{
    let g = ctx.g();
    let nl = ctx.nl();
    let q = choose|q: int|
        0 <= q < g.len() && g[q].lhs == a && forall|i: int|
            0 <= i < g[q].rhs.len() ==> !(#[trigger] g[q].rhs[i]).terminal && derives_empty(g, g[q].rhs[i].id as int, (k - 1) as nat);
    assert forall|i: int| 0 <= i < g[q].rhs.len() implies #[trigger] sym_nullable(g[q].rhs[i], nl) by {
        lemma_derives_empty_nullable(ctx, g[q].rhs[i].id as int, (k - 1) as nat);
    }
    assert(prod_ok(g[q], nl, ctx.fs(), ctx.fw()));
    assert(nullable_ok(g[q], nl));
}

/// The non-terminal `a` derives a string that begins with the terminal `t`, by a derivation
/// tree of depth at most `k`: some production of `a` has, after symbols that each derive the
/// empty string, either `t` itself or a non-terminal that derives a string beginning with `t`
/// by a tree of depth at most `k - 1`.
pub open spec fn derives_first(g: Seq<SpecIProd>, a: int, t: int, k: nat) -> bool
    decreases k,
{
    k > 0 && exists|q: int, j: int|
        #![trigger g[q].rhs[j]]
        0 <= q < g.len() && g[q].lhs == a && 0 <= j < g[q].rhs.len()
            && (forall|i: int| 0 <= i < j ==> #[trigger] derives_empty_sym(g, g[q].rhs[i]))
            && (if g[q].rhs[j].terminal {
                g[q].rhs[j].id == t
            } else {
                derives_first(g, g[q].rhs[j].id as int, t, (k - 1) as nat)
            })
}

/// The symbol is a non-terminal that derives the empty string.
pub open spec fn derives_empty_sym(g: Seq<SpecIProd>, s: crate::analysis::Sym) -> bool {
    !s.terminal && exists|k: nat| #[trigger] derives_empty(g, s.id as int, k)
}

/// The symbols of index below `n` whose derivations can begin with each terminal, as an `n`
/// by `n` bitmap matrix.
pub open spec fn first_deriving(g: Seq<SpecIProd>, n: nat) -> Seq<Seq<bool>> {
    Seq::new(n, |a: int| Seq::new(n, |t: int| exists|k: nat| #[trigger] derives_first(g, a, t, k)))
}

/// A symbol whose derivations can begin with `t` has `t` in its first set.
proof fn lemma_derives_first_in_first(ctx: CfgContext, a: int, t: int, k: nat)
    requires
        ctx.wf(),
        derives_first(ctx.g(), a, t, k),
    ensures
        mem2(ctx.fs(), a, t),
    decreases k,
{
    let g = ctx.g();
    let nl = ctx.nl();
    let fs = ctx.fs();
    let (q, j) = choose|q: int, j: int|
        #![trigger g[q].rhs[j]]
        0 <= q < g.len() && g[q].lhs == a && 0 <= j < g[q].rhs.len()
            && (forall|i: int| 0 <= i < j ==> #[trigger] derives_empty_sym(g, g[q].rhs[i]))
            && (if g[q].rhs[j].terminal {
                g[q].rhs[j].id == t
            } else {
                derives_first(g, g[q].rhs[j].id as int, t, (k - 1) as nat)
            });
    let p = g[q];
    assert(wf_prod(p, ctx.n()));
    assert forall|i: int| 0 <= i < j implies #[trigger] sym_nullable(p.rhs[i], nl) by {
        assert(derives_empty_sym(g, p.rhs[i]));
        lemma_nullable_derives_empty(ctx, p.rhs[i].id as int);
    }
    if !p.rhs[j].terminal {
        lemma_derives_first_in_first(ctx, p.rhs[j].id as int, t, (k - 1) as nat);
    }
    assert(sym_first(p.rhs[j], fs, t));
    assert(in_first(p.rhs, fs, nl, t));
    assert(prod_ok(p, nl, fs, ctx.fw()));
    assert(first_ok(p, nl, fs));
}

/// The first sets of a grammar's context hold exactly, for each symbol, the terminals that
/// a string it derives can begin with.
pub proof fn lemma_first_derives_first(ctx: CfgContext, a: int, t: int)
    requires
        ctx.wf(),
        0 <= a < ctx.n(),
    ensures
        mem2(ctx.fs(), a, t) <==> exists|k: nat| #[trigger] derives_first(ctx.g(), a, t, k),
{
    let g = ctx.g();
    let n = ctx.n();
    let nl = ctx.nl();
    if exists|k: nat| #[trigger] derives_first(g, a, t, k) {
        let k = choose|k: nat| #[trigger] derives_first(g, a, t, k);
        lemma_derives_first_in_first(ctx, a, t, k);
    }
    if mem2(ctx.fs(), a, t) {
        let fd = first_deriving(g, n);
        let f = full(n);
        assert forall|q: int| 0 <= q < g.len() implies #[trigger] prod_ok(g[q], nl, fd, f) by {
            let p = g[q];
            assert(wf_prod(p, n));
            assert(prod_ok(p, nl, ctx.fs(), ctx.fw()));
            assert forall|u: int| in_first(p.rhs, fd, nl, u) implies #[trigger] mem2(fd, p.lhs as int, u) by {
                let j = choose|j: int| 0 <= j < p.rhs.len() && prefix_nullable(p.rhs, j, nl) && #[trigger] sym_first(p.rhs[j], fd, u);
                assert forall|i: int| 0 <= i < j implies #[trigger] derives_empty_sym(g, g[q].rhs[i]) by {
                    assert(sym_nullable(p.rhs[i], nl));
                    assert(p.rhs[i].id < n);
                    lemma_nullable_derives_empty(ctx, p.rhs[i].id as int);
                }
                assert(p.rhs[j].id < n);
                if p.rhs[j].terminal {
                    assert(derives_first(g, p.lhs as int, u, 1));
                    assert(0 <= u < n);
                } else {
                    assert(mem2(fd, p.rhs[j].id as int, u));
                    let k = choose|k: nat| #[trigger] derives_first(g, p.rhs[j].id as int, u, k);
                    assert(derives_first(g, p.lhs as int, u, k + 1));
                }
            }
            assert forall|i: int| 0 <= i < p.rhs.len() implies #[trigger] follow_at_ok(p, i, nl, fd, f) by {
                assert(p.rhs[i].id < n);
                assert forall|u: int| #[trigger] follow_source(p, i, nl, fd, f, u) implies mem2(f, p.rhs[i].id as int, u) by {
                    if in_first(p.rhs.skip(i + 1), fd, nl, u) {
                        let j = choose|j: int| 0 <= j < p.rhs.skip(i + 1).len() && prefix_nullable(p.rhs.skip(i + 1), j, nl) && #[trigger] sym_first(p.rhs.skip(i + 1)[j], fd, u);
                        assert(p.rhs[i + 1 + j].id < n);
                    }
                }
            }
        }
        assert(closed_sets(g, nl, fd, f));
        assert(crate::bits::le2(ctx.fs(), fd));
        assert(mem2(fd, a, t));
    }
}

} // verus!

verus! {

/// A derivation step can replace the symbol at position `m` of `f` by the right side of
/// production `q`: the symbol is the non-terminal on the left side of `q`.
pub open spec fn step_ok(g: Seq<SpecIProd>, f: Seq<Sym>, m: int, q: int) -> bool {
    &&& 0 <= m < f.len()
    &&& 0 <= q < g.len()
    &&& !f[m].terminal
    &&& f[m].id == g[q].lhs
}

/// The string after the derivation step at position `m` by production `q`.
pub open spec fn step_to(g: Seq<SpecIProd>, f: Seq<Sym>, m: int, q: int) -> Seq<Sym> {
    f.take(m) + g[q].rhs + f.skip(m + 1)
}

/// The string of symbols `f` derives `h` in `n` steps.
pub open spec fn derives_in(g: Seq<SpecIProd>, f: Seq<Sym>, h: Seq<Sym>, n: nat) -> bool
    decreases n,
{
    if n == 0 {
        f == h
    } else {
        exists|m: int, q: int| #[trigger] step_ok(g, f, m, q) && derives_in(g, step_to(g, f, m, q), h, (n - 1) as nat)
    }
}

/// What can begin two strings side by side: what can begin the first, or, when the first is
/// nullable, what can begin the second.
pub proof fn lemma_in_first_concat(a: Seq<Sym>, b: Seq<Sym>, fs: Seq<Seq<bool>>, nl: Seq<bool>, t: int)
    ensures
        in_first(a + b, fs, nl, t) <==> in_first(a, fs, nl, t) || (seq_nullable(a, nl) && in_first(b, fs, nl, t)),
{
    let ab = a + b;
    if in_first(ab, fs, nl, t) {
        let j = choose|j: int| 0 <= j < ab.len() && prefix_nullable(ab, j, nl) && #[trigger] sym_first(ab[j], fs, t);
        if j < a.len() {
            assert(ab[j] == a[j]);
            assert forall|m: int| 0 <= m < j implies #[trigger] sym_nullable(a[m], nl) by {
                assert(sym_nullable(ab[m], nl));
                assert(ab[m] == a[m]);
            }
            assert(in_first(a, fs, nl, t));
        } else {
            let j2 = j - a.len();
            assert(ab[j] == b[j2]);
            assert forall|m: int| 0 <= m < a.len() implies #[trigger] sym_nullable(a[m], nl) by {
                assert(sym_nullable(ab[m], nl));
                assert(ab[m] == a[m]);
            }
            assert forall|m: int| 0 <= m < j2 implies #[trigger] sym_nullable(b[m], nl) by {
                assert(sym_nullable(ab[a.len() + m], nl));
                assert(ab[a.len() + m] == b[m]);
            }
            assert(sym_first(b[j2], fs, t));
            assert(in_first(b, fs, nl, t));
        }
    }
    if in_first(a, fs, nl, t) {
        let j = choose|j: int| 0 <= j < a.len() && prefix_nullable(a, j, nl) && #[trigger] sym_first(a[j], fs, t);
        assert(ab[j] == a[j]);
        assert forall|m: int| 0 <= m < j implies #[trigger] sym_nullable(ab[m], nl) by {
            assert(sym_nullable(a[m], nl));
            assert(ab[m] == a[m]);
        }
        assert(in_first(ab, fs, nl, t));
    } else if seq_nullable(a, nl) && in_first(b, fs, nl, t) {
        let j = choose|j: int| 0 <= j < b.len() && prefix_nullable(b, j, nl) && #[trigger] sym_first(b[j], fs, t);
        assert(ab[a.len() + j] == b[j]);
        assert forall|m: int| 0 <= m < a.len() + j implies #[trigger] sym_nullable(ab[m], nl) by {
            if m < a.len() {
                assert(sym_nullable(a[m], nl));
                assert(ab[m] == a[m]);
            } else {
                assert(sym_nullable(b[m - a.len()], nl));
                assert(ab[m] == b[m - a.len()]);
            }
        }
        assert(sym_first(ab[a.len() + j], fs, t));
        assert(in_first(ab, fs, nl, t));
    }
}

/// Every terminal that can begin what follows a non-terminal of `f` is in its follow set.
pub open spec fn follows_kept(ctx: CfgContext, f: Seq<Sym>) -> bool {
    forall|k: int, t: int|
        0 <= k < f.len() && !f[k].terminal && #[trigger] in_first(f.skip(k + 1), ctx.fs(), ctx.nl(), t) ==> mem2(ctx.fw(), f[k].id as int, t)
}

/// A derivation step keeps the follow sets sound for the derived string.
proof fn lemma_follows_kept_step(ctx: CfgContext, f: Seq<Sym>, m: int, q: int)
    requires
        ctx.wf(),
        follows_kept(ctx, f),
        step_ok(ctx.g(), f, m, q),
    ensures
        follows_kept(ctx, step_to(ctx.g(), f, m, q)),
{
    let g = ctx.g();
    let fs = ctx.fs();
    let nl = ctx.nl();
    let fw = ctx.fw();
    let r = g[q].rhs;
    let a = f.take(m);
    let b = f.skip(m + 1);
    let x = f[m];
    let f2 = step_to(g, f, m, q);
    assert(prod_ok(g[q], nl, fs, fw));
    assert forall|k: int, t: int|
        0 <= k < f2.len() && !f2[k].terminal && #[trigger] in_first(f2.skip(k + 1), fs, nl, t) implies mem2(fw, f2[k].id as int, t) by {
        if k < m {
            let a2 = a.skip(k + 1);
            assert(f2[k] == f[k]);
            assert(f2.skip(k + 1) =~= a2 + (r + b));
            assert(f.skip(k + 1) =~= a2 + (seq![x] + b));
            lemma_in_first_concat(a2, r + b, fs, nl, t);
            lemma_in_first_concat(r, b, fs, nl, t);
            lemma_in_first_concat(a2, seq![x] + b, fs, nl, t);
            lemma_in_first_concat(seq![x], b, fs, nl, t);
            if in_first(a2, fs, nl, t) {
            } else if in_first(r, fs, nl, t) {
                assert(mem2(fs, g[q].lhs as int, t));
                assert(sym_first(seq![x][0], fs, t));
                assert(prefix_nullable(seq![x], 0, nl));
                assert(in_first(seq![x], fs, nl, t));
            } else {
                assert(mem(nl, g[q].lhs as int));
                assert(sym_nullable(seq![x][0], nl));
                assert(seq_nullable(seq![x], nl));
            }
            assert(in_first(f.skip(k + 1), fs, nl, t));
        } else if k < m + r.len() {
            let i = k - m;
            assert(f2[k] == r[i]);
            assert(f2.skip(k + 1) =~= r.skip(i + 1) + b);
            lemma_in_first_concat(r.skip(i + 1), b, fs, nl, t);
            assert(follow_at_ok(g[q], i, nl, fs, fw));
            if !in_first(r.skip(i + 1), fs, nl, t) {
                assert(f.skip(m + 1) == b);
                assert(mem2(fw, x.id as int, t));
            }
            assert(follow_source(g[q], i, nl, fs, fw, t));
        } else {
            let k0 = k - r.len() + 1;
            assert(f2[k] == f[k0]);
            assert(f2.skip(k + 1) =~= f.skip(k0 + 1));
        }
    }
}

proof fn lemma_follows_kept_derives(ctx: CfgContext, f: Seq<Sym>, h: Seq<Sym>, n: nat)
    requires
        ctx.wf(),
        follows_kept(ctx, f),
        derives_in(ctx.g(), f, h, n),
    ensures
        follows_kept(ctx, h),
    decreases n,
{
    if n > 0 {
        let (m, q) = choose|m: int, q: int| #[trigger] step_ok(ctx.g(), f, m, q) && derives_in(ctx.g(), step_to(ctx.g(), f, m, q), h, (n - 1) as nat);
        lemma_follows_kept_step(ctx, f, m, q);
        lemma_follows_kept_derives(ctx, step_to(ctx.g(), f, m, q), h, (n - 1) as nat);
    }
}

/// Whatever terminal stands right after a non-terminal in a string derived from the augmented
/// start symbol is in the follow set of that non-terminal, and in its named follow set.
pub proof fn lemma_follow_derived(ctx: CfgContext, h: Seq<Sym>, n: nat, k: int)
    requires
        ctx.wf(),
        ctx.g().len() > 0,
        derives_in(ctx.g(), seq![Sym { terminal: false, id: ctx.g().last().lhs }], h, n),
        0 <= k,
        k + 1 < h.len(),
        !h[k].terminal,
        h[k + 1].terminal,
    ensures
        mem2(ctx.fw(), h[k].id as int, h[k + 1].id as int),
        h[k].id < ctx.n() && h[k + 1].id < ctx.n() ==> crate::context::named_contains(
            crate::context::named_view(ctx.follow@),
            ctx.names()[h[k].id as int],
            ctx.names()[h[k + 1].id as int],
        ),
{
    let f0 = seq![Sym { terminal: false, id: ctx.g().last().lhs }];
    assert forall|k0: int, t: int|
        0 <= k0 < f0.len() && !f0[k0].terminal && #[trigger] in_first(f0.skip(k0 + 1), ctx.fs(), ctx.nl(), t) implies mem2(ctx.fw(), f0[k0].id as int, t) by {
        assert(f0.skip(k0 + 1).len() == 0);
    }
    lemma_follows_kept_derives(ctx, f0, h, n);
    let t = h[k + 1].id as int;
    let rest = h.skip(k + 1);
    assert(rest[0] == h[k + 1]);
    assert(prefix_nullable(rest, 0, ctx.nl()));
    assert(sym_first(rest[0], ctx.fs(), t));
    assert(in_first(rest, ctx.fs(), ctx.nl(), t));
    assert(mem2(ctx.fw(), h[k].id as int, t));
    if h[k].id < ctx.n() && h[k + 1].id < ctx.n() {
        assert(crate::context::row_rel(ctx.names(), ctx.fw(), ctx.names()[h[k].id as int], ctx.names()[t]));
    }
}

} // verus!
