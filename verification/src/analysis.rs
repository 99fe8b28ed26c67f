use vstd::prelude::*;
use crate::bits::{mem, mem2, le, le2, union, mat, square, union_into, union_row, falses, count, count2, cap2, lemma_count_le_len, lemma_count2_le_cap2, lemma_count_mono, lemma_count2_mono, lemma_count2_update};

verus! {

/// A grammar symbol named by the index of its name in a symbol table.
#[derive(Clone, Copy, Debug, PartialEq, Eq, Structural)]
pub struct Sym {
    pub terminal: bool,
    pub id: usize,
}

/// The mathematical value of a production over symbol indices.
pub struct SpecIProd {
    pub lhs: usize,
    pub rhs: Seq<Sym>,
}

/// A production over symbol indices.
#[derive(Debug)]
pub struct IProduction {
    pub lhs: usize,
    pub rhs: Vec<Sym>,
}

impl View for IProduction {
    type V = SpecIProd;

    open spec fn view(&self) -> SpecIProd {
        SpecIProd { lhs: self.lhs, rhs: self.rhs@ }
    }
}

pub open spec fn iprods(v: Seq<IProduction>) -> Seq<SpecIProd> {
    v.map_values(|p: IProduction| p@)
}

/// Every index of the production is below `n`.
pub open spec fn wf_prod(p: SpecIProd, n: nat) -> bool {
    p.lhs < n && forall|i: int| 0 <= i < p.rhs.len() ==> (#[trigger] p.rhs[i]).id < n
}

pub open spec fn wf_grammar(g: Seq<SpecIProd>, n: nat) -> bool {
    forall|k: int| 0 <= k < g.len() ==> #[trigger] wf_prod(g[k], n)
}

/// A symbol that can derive the empty string, given the nullable set `nl`.
pub open spec fn sym_nullable(s: Sym, nl: Seq<bool>) -> bool {
    !s.terminal && mem(nl, s.id as int)
}

/// The first `j` symbols of `a` are nullable.
pub open spec fn prefix_nullable(a: Seq<Sym>, j: int, nl: Seq<bool>) -> bool {
    forall|m: int| 0 <= m < j ==> #[trigger] sym_nullable(a[m], nl)
}

/// Every symbol of `a` is nullable.
pub open spec fn seq_nullable(a: Seq<Sym>, nl: Seq<bool>) -> bool {
    prefix_nullable(a, a.len() as int, nl)
}

/// `t` can begin a string derived from the symbol `s`.
pub open spec fn sym_first(s: Sym, fs: Seq<Seq<bool>>, t: int) -> bool {
    if s.terminal {
        s.id == t
    } else {
        mem2(fs, s.id as int, t)
    }
}

/// `t` can begin a string derived from `a`: some symbol of `a` preceded only by
/// nullable symbols can begin with `t`.
pub open spec fn in_first(a: Seq<Sym>, fs: Seq<Seq<bool>>, nl: Seq<bool>, t: int) -> bool {
    exists|j: int| 0 <= j < a.len() && prefix_nullable(a, j, nl) && #[trigger] sym_first(a[j], fs, t)
}

/// The nullable rule of production `p`: a production whose right side is nullable
/// makes its left side nullable.
pub open spec fn nullable_ok(p: SpecIProd, nl: Seq<bool>) -> bool {
    seq_nullable(p.rhs, nl) ==> mem(nl, p.lhs as int)
}

/// The first rule of `p`: what can begin its right side can begin its left side.
pub open spec fn first_ok(p: SpecIProd, nl: Seq<bool>, fs: Seq<Seq<bool>>) -> bool {
    forall|t: int| in_first(p.rhs, fs, nl, t) ==> #[trigger] mem2(fs, p.lhs as int, t)
}

/// `t` must follow the non-terminal at position `i` of `p`.
pub open spec fn follow_source(
    p: SpecIProd,
    i: int,
    nl: Seq<bool>,
    fs: Seq<Seq<bool>>,
    fw: Seq<Seq<bool>>,
    t: int,
) -> bool {
    in_first(p.rhs.skip(i + 1), fs, nl, t) || (seq_nullable(p.rhs.skip(i + 1), nl) && mem2(
        fw,
        p.lhs as int,
        t,
    ))
}

/// The follow rule of `p` at position `i`.
pub open spec fn follow_at_ok(
    p: SpecIProd,
    i: int,
    nl: Seq<bool>,
    fs: Seq<Seq<bool>>,
    fw: Seq<Seq<bool>>,
) -> bool {
    !p.rhs[i].terminal ==> forall|t: int|
        #[trigger] follow_source(p, i, nl, fs, fw, t) ==> mem2(fw, p.rhs[i].id as int, t)
}

pub open spec fn follow_ok(p: SpecIProd, nl: Seq<bool>, fs: Seq<Seq<bool>>, fw: Seq<Seq<bool>>) -> bool {
    forall|i: int| 0 <= i < p.rhs.len() ==> #[trigger] follow_at_ok(p, i, nl, fs, fw)
}

pub open spec fn prod_ok(p: SpecIProd, nl: Seq<bool>, fs: Seq<Seq<bool>>, fw: Seq<Seq<bool>>) -> bool {
    &&& nullable_ok(p, nl)
    &&& first_ok(p, nl, fs)
    &&& follow_ok(p, nl, fs, fw)
}

/// The nullable set, the first sets and the follow sets obey every rule of every production.
pub open spec fn closed_sets(
    g: Seq<SpecIProd>,
    nl: Seq<bool>,
    fs: Seq<Seq<bool>>,
    fw: Seq<Seq<bool>>,
) -> bool {
    forall|k: int| 0 <= k < g.len() ==> #[trigger] prod_ok(g[k], nl, fs, fw)
}

/// The sets are included in every solution of the rules.
pub open spec fn below(g: Seq<SpecIProd>, nl: Seq<bool>, fs: Seq<Seq<bool>>, fw: Seq<Seq<bool>>) -> bool {
    forall|nl2: Seq<bool>, fs2: Seq<Seq<bool>>, fw2: Seq<Seq<bool>>|
        #[trigger] closed_sets(g, nl2, fs2, fw2) ==> le(nl, nl2) && le2(fs, fs2) && le2(fw, fw2)
}

/// The sets are the least solution of the rules.
pub open spec fn least_sets(g: Seq<SpecIProd>, nl: Seq<bool>, fs: Seq<Seq<bool>>, fw: Seq<Seq<bool>>) -> bool {
    closed_sets(g, nl, fs, fw) && below(g, nl, fs, fw)
}

pub proof fn lemma_prefix_nullable_mono(a: Seq<Sym>, j: int, nl: Seq<bool>, nl2: Seq<bool>)
    requires
        le(nl, nl2),
        prefix_nullable(a, j, nl),
    ensures
        prefix_nullable(a, j, nl2),
{
    assert forall|m: int| 0 <= m < j implies #[trigger] sym_nullable(a[m], nl2) by {
        assert(sym_nullable(a[m], nl));
        assert(mem(nl, a[m].id as int));
    }
}

pub proof fn lemma_first_mono(
    a: Seq<Sym>,
    fs: Seq<Seq<bool>>,
    nl: Seq<bool>,
    fs2: Seq<Seq<bool>>,
    nl2: Seq<bool>,
    t: int,
)
    requires
        le(nl, nl2),
        le2(fs, fs2),
        in_first(a, fs, nl, t),
    ensures
        in_first(a, fs2, nl2, t),
{
    let j = choose|j: int| 0 <= j < a.len() && prefix_nullable(a, j, nl) && #[trigger] sym_first(a[j], fs, t);
    lemma_prefix_nullable_mono(a, j, nl, nl2);
    if !a[j].terminal {
        assert(mem2(fs, a[j].id as int, t));
    }
    assert(sym_first(a[j], fs2, t));
}

/// Adding the left side of a production with a nullable right side keeps the sets below every solution.
pub proof fn lemma_below_nullable(
    g: Seq<SpecIProd>,
    k: int,
    nl: Seq<bool>,
    fs: Seq<Seq<bool>>,
    fw: Seq<Seq<bool>>,
)
    requires
        below(g, nl, fs, fw),
        0 <= k < g.len(),
        g[k].lhs < nl.len(),
        seq_nullable(g[k].rhs, nl),
    ensures
        below(g, nl.update(g[k].lhs as int, true), fs, fw),
{
    let a = g[k].lhs as int;
    let nl1 = nl.update(a, true);
    assert forall|nl2: Seq<bool>, fs2: Seq<Seq<bool>>, fw2: Seq<Seq<bool>>|
        #[trigger] closed_sets(g, nl2, fs2, fw2) implies le(nl1, nl2) && le2(fs, fs2) && le2(fw, fw2) by {
        assert(prod_ok(g[k], nl2, fs2, fw2));
        lemma_prefix_nullable_mono(g[k].rhs, g[k].rhs.len() as int, nl, nl2);
        assert forall|i: int| #[trigger] mem(nl1, i) implies mem(nl2, i) by {
            if i != a {
                assert(mem(nl, i));
            }
        }
    }
}

/// The matrix with `f` joined to row `r`.
pub open spec fn row_union(m: Seq<Seq<bool>>, r: int, f: Seq<bool>) -> Seq<Seq<bool>> {
    m.update(r, union(m[r], f))
}

/// Joining to a row of `m` what every solution `m2` holds in that row keeps `m` below `m2`.
pub proof fn lemma_le2_row_union(m: Seq<Seq<bool>>, r: int, f: Seq<bool>, m2: Seq<Seq<bool>>)
    requires
        0 <= r < m.len(),
        m[r].len() == f.len(),
        le2(m, m2),
        forall|t: int| #[trigger] mem(f, t) ==> mem2(m2, r, t),
    ensures
        le2(row_union(m, r, f), m2),
{
    let m1 = row_union(m, r, f);
    assert forall|i: int, t: int| #[trigger] mem2(m1, i, t) implies mem2(m2, i, t) by {
        if i == r {
            if !mem(f, t) {
                assert(mem2(m, i, t));
            }
        } else {
            assert(mem2(m, i, t));
        }
    }
}

/// A first set of a production's right side may be added to its left side.
pub proof fn lemma_below_first(
    g: Seq<SpecIProd>,
    k: int,
    nl: Seq<bool>,
    fs: Seq<Seq<bool>>,
    fw: Seq<Seq<bool>>,
    f: Seq<bool>,
)
    requires
        below(g, nl, fs, fw),
        0 <= k < g.len(),
        0 <= g[k].lhs < fs.len(),
        fs[g[k].lhs as int].len() == f.len(),
        forall|t: int| #[trigger] mem(f, t) ==> in_first(g[k].rhs, fs, nl, t),
    ensures
        below(g, nl, row_union(fs, g[k].lhs as int, f), fw),
{
    let a = g[k].lhs as int;
    assert forall|nl2: Seq<bool>, fs2: Seq<Seq<bool>>, fw2: Seq<Seq<bool>>|
        #[trigger] closed_sets(g, nl2, fs2, fw2) implies le(nl, nl2) && le2(row_union(fs, a, f), fs2)
        && le2(fw, fw2) by {
        assert(prod_ok(g[k], nl2, fs2, fw2));
        assert forall|t: int| #[trigger] mem(f, t) implies mem2(fs2, a, t) by {
            lemma_first_mono(g[k].rhs, fs, nl, fs2, nl2, t);
        }
        lemma_le2_row_union(fs, a, f, fs2);
    }
}

/// A follow contribution at position `i` of production `k` may be added to the follow
/// set of the non-terminal at that position.
pub proof fn lemma_below_follow(
    g: Seq<SpecIProd>,
    k: int,
    i: int,
    nl: Seq<bool>,
    fs: Seq<Seq<bool>>,
    fw: Seq<Seq<bool>>,
    f: Seq<bool>,
)
    requires
        below(g, nl, fs, fw),
        0 <= k < g.len(),
        0 <= i < g[k].rhs.len(),
        !g[k].rhs[i].terminal,
        0 <= g[k].rhs[i].id < fw.len(),
        fw[g[k].rhs[i].id as int].len() == f.len(),
        forall|t: int| #[trigger] mem(f, t) ==> follow_source(g[k], i, nl, fs, fw, t),
    ensures
        below(g, nl, fs, row_union(fw, g[k].rhs[i].id as int, f)),
{
    let b = g[k].rhs[i].id as int;
    let p = g[k];
    assert forall|nl2: Seq<bool>, fs2: Seq<Seq<bool>>, fw2: Seq<Seq<bool>>|
        #[trigger] closed_sets(g, nl2, fs2, fw2) implies le(nl, nl2) && le2(fs, fs2) && le2(
        row_union(fw, b, f),
        fw2,
    ) by {
        assert(prod_ok(p, nl2, fs2, fw2));
        assert(follow_at_ok(p, i, nl2, fs2, fw2));
        assert forall|t: int| #[trigger] mem(f, t) implies mem2(fw2, b, t) by {
            assert(follow_source(p, i, nl, fs, fw, t));
            if in_first(p.rhs.skip(i + 1), fs, nl, t) {
                lemma_first_mono(p.rhs.skip(i + 1), fs, nl, fs2, nl2, t);
            } else {
                lemma_prefix_nullable_mono(
                    p.rhs.skip(i + 1),
                    p.rhs.skip(i + 1).len() as int,
                    nl,
                    nl2,
                );
                assert(mem2(fw, p.lhs as int, t));
                assert(mem2(fw2, p.lhs as int, t));
            }
            assert(follow_source(p, i, nl2, fs2, fw2, t));
        }
        lemma_le2_row_union(fw, b, f, fw2);
    }
}

} // verus!

verus! {

/// Whether the symbols of `rhs` from position `from` on are all nullable.
pub fn tail_nullable(rhs: &Vec<Sym>, from: usize, nl: &Vec<bool>) -> (r: bool)
    requires
        from <= rhs@.len(),
    ensures
        r == seq_nullable(rhs@.skip(from as int), nl@),
{
    let ghost a = rhs@.skip(from as int);
    let mut i: usize = from;
    while i < rhs.len()
        invariant
            from <= i <= rhs@.len(),
            a == rhs@.skip(from as int),
            prefix_nullable(a, i - from, nl@),
        decreases rhs@.len() - i,
    {
        let s = rhs[i];
        if s.terminal || s.id >= nl.len() || !nl[s.id] {
            assert(!sym_nullable(a[i - from], nl@));
            return false;
        }
        assert(sym_nullable(a[i - from], nl@));
        i = i + 1;
    }
    true
}

/// The terminals that can begin a string derived from the symbols of `rhs`
/// from position `from` on.
pub fn first_of_tail(
    rhs: &Vec<Sym>,
    from: usize,
    fs: &Vec<Vec<bool>>,
    nl: &Vec<bool>,
    n: usize,
) -> (r: Vec<bool>)
    requires
        from <= rhs@.len(),
        forall|i: int| 0 <= i < rhs@.len() ==> (#[trigger] rhs@[i]).id < n,
        nl@.len() == n,
        square(mat(fs@), n as nat),
    ensures
        r@.len() == n,
        forall|t: int| #[trigger] mem(r@, t) == in_first(rhs@.skip(from as int), mat(fs@), nl@, t),
{
    let ghost a = rhs@.skip(from as int);
    let ghost m = mat(fs@);
    let mut r = falses(n);
    let mut i: usize = from;
    while i < rhs.len()
        invariant
            from <= i <= rhs@.len(),
            a == rhs@.skip(from as int),
            m == mat(fs@),
            square(m, n as nat),
            forall|j: int| 0 <= j < rhs@.len() ==> (#[trigger] rhs@[j]).id < n,
            nl@.len() == n,
            r@.len() == n,
            prefix_nullable(a, i - from, nl@),
            forall|t: int|
                #[trigger] mem(r@, t) == exists|j: int|
                    0 <= j < i - from && prefix_nullable(a, j, nl@) && #[trigger] sym_first(a[j], m, t),
        decreases rhs@.len() - i,
    {
        let s = rhs[i];
        let ghost k = i - from;
        let ghost r0 = r@;
        assert(a[k] == s);
        if s.terminal {
            r.set(s.id, true);
            assert forall|t: int| #[trigger] mem(r@, t) == in_first(a, m, nl@, t) by {
                if mem(r@, t) {
                    if t != s.id {
                        assert(mem(r0, t));
                    } else {
                        assert(sym_first(a[k], m, t));
                    }
                }
                if in_first(a, m, nl@, t) {
                    let j = choose|j: int| 0 <= j < a.len() && prefix_nullable(a, j, nl@) && #[trigger] sym_first(a[j], m, t);
                    if j > k {
                        assert(sym_nullable(a[k], nl@));
                    } else if j < k {
                        assert(mem(r0, t));
                    }
                }
            }
            return r;
        }
        assert(s.id < n);
        assert(m[s.id as int] == fs@[s.id as int]@);
        assert(m[s.id as int].len() == n);
        union_into(&mut r, &fs[s.id]);
        if !nl[s.id] {
            assert forall|t: int| #[trigger] mem(r@, t) == in_first(a, m, nl@, t) by {
                if mem(r@, t) {
                    if !mem(r0, t) {
                        assert(sym_first(a[k], m, t));
                    }
                }
                if in_first(a, m, nl@, t) {
                    let j = choose|j: int| 0 <= j < a.len() && prefix_nullable(a, j, nl@) && #[trigger] sym_first(a[j], m, t);
                    if j > k {
                        assert(sym_nullable(a[k], nl@));
                    } else if j < k {
                        assert(mem(r0, t));
                    } else {
                        assert(mem2(m, s.id as int, t));
                    }
                }
            }
            return r;
        }
        assert forall|t: int| #[trigger] mem(r@, t) == exists|j: int|
            0 <= j < k + 1 && prefix_nullable(a, j, nl@) && #[trigger] sym_first(a[j], m, t) by {
            if mem(r@, t) {
                if !mem(r0, t) {
                    assert(sym_first(a[k], m, t));
                }
            }
            if exists|j: int| 0 <= j < k + 1 && prefix_nullable(a, j, nl@) && #[trigger] sym_first(a[j], m, t) {
                let j = choose|j: int| 0 <= j < k + 1 && prefix_nullable(a, j, nl@) && #[trigger] sym_first(a[j], m, t);
                if j < k {
                    assert(mem(r0, t));
                } else {
                    assert(mem2(m, s.id as int, t));
                }
            }
        }
        assert(sym_nullable(a[k], nl@));
        assert(prefix_nullable(a, k + 1, nl@));
        i = i + 1;
    }
    assert forall|t: int| #[trigger] mem(r@, t) == in_first(a, m, nl@, t) by {
        if in_first(a, m, nl@, t) {
            let j = choose|j: int| 0 <= j < a.len() && prefix_nullable(a, j, nl@) && #[trigger] sym_first(a[j], m, t);
            assert(0 <= j < i - from);
        }
    }
    r
}

} // verus!

verus! {

/// The number of set bits of the three sets.
pub open spec fn total(nl: Seq<bool>, fs: Seq<Seq<bool>>, fw: Seq<Seq<bool>>) -> nat {
    count(nl) + count2(fs) + count2(fw)
}

pub open spec fn shapes(nl: Seq<bool>, fs: Seq<Seq<bool>>, fw: Seq<Seq<bool>>, n: nat) -> bool {
    nl.len() == n && square(fs, n) && square(fw, n)
}

pub proof fn lemma_row_union_facts(m: Seq<Seq<bool>>, r: int, f: Seq<bool>, n: nat)
    requires
        square(m, n),
        0 <= r < n,
        f.len() == n,
    ensures
        square(row_union(m, r, f), n),
        cap2(row_union(m, r, f)) == cap2(m),
        count2(row_union(m, r, f)) >= count2(m),
        union(m[r], f) != m[r] ==> count2(row_union(m, r, f)) > count2(m),
        union(m[r], f) == m[r] ==> row_union(m, r, f) == m,
{
    let u = union(m[r], f);
    lemma_count2_update(m, r, u);
    assert forall|i: int| #[trigger] mem(m[r], i) implies mem(u, i) by {}
    lemma_count_mono(m[r], u);
    if u == m[r] {
        assert(row_union(m, r, f) =~= m);
    }
}

/// Applies the rules of production `k` once to the nullable set, the first sets and the
/// follow sets; tells whether any of them grew.
fn update_for_production(
    g: &Vec<IProduction>,
    k: usize,
    n: usize,
    nl: &mut Vec<bool>,
    fs: &mut Vec<Vec<bool>>,
    fw: &mut Vec<Vec<bool>>,
) -> (changed: bool)
    requires
        k < g@.len(),
        wf_grammar(iprods(g@), n as nat),
        shapes(old(nl)@, mat(old(fs)@), mat(old(fw)@), n as nat),
        below(iprods(g@), old(nl)@, mat(old(fs)@), mat(old(fw)@)),
    ensures
        shapes(final(nl)@, mat(final(fs)@), mat(final(fw)@), n as nat),
        cap2(mat(final(fs)@)) == cap2(mat(old(fs)@)),
        cap2(mat(final(fw)@)) == cap2(mat(old(fw)@)),
        below(iprods(g@), final(nl)@, mat(final(fs)@), mat(final(fw)@)),
        total(final(nl)@, mat(final(fs)@), mat(final(fw)@)) >= total(
            old(nl)@,
            mat(old(fs)@),
            mat(old(fw)@),
        ),
        changed ==> total(final(nl)@, mat(final(fs)@), mat(final(fw)@)) > total(
            old(nl)@,
            mat(old(fs)@),
            mat(old(fw)@),
        ),
        !changed ==> final(nl)@ == old(nl)@ && mat(final(fs)@) == mat(old(fs)@) && mat(final(fw)@)
            == mat(old(fw)@),
        !changed ==> prod_ok(iprods(g@)[k as int], final(nl)@, mat(final(fs)@), mat(final(fw)@)),
{
    let ghost gg = iprods(g@);
    let ghost pp = gg[k as int];
    let ghost nl0 = nl@;
    let ghost fs0 = mat(fs@);
    let ghost fw0 = mat(fw@);
    let ghost t0 = total(nl0, fs0, fw0);
    let p = &g[k];
    let a = p.lhs;
    assert(pp.rhs == p.rhs@ && pp.lhs == a);
    assert(wf_prod(pp, n as nat));
    let mut changed = false;
    // Nullable
    if tail_nullable(&p.rhs, 0, nl) && !nl[a] {
        proof {
            assert(p.rhs@.skip(0) =~= p.rhs@);
            lemma_below_nullable(gg, k as int, nl@, mat(fs@), mat(fw@));
        }
        nl.set(a, true);
        proof {
            assert forall|i: int| #[trigger] mem(nl0, i) implies mem(nl@, i) by {}
            lemma_count_mono(nl0, nl@);
            assert(nl@ != nl0) by {
                assert(nl@[a as int] != nl0[a as int]);
            }
        }
        changed = true;
    }
    proof {
        assert(p.rhs@.skip(0) =~= p.rhs@);
        if !changed {
            assert(nl@ == nl0);
        }
    }
    // First
    let f = first_of_tail(&p.rhs, 0, fs, nl, n);
    proof {
        assert(p.rhs@.skip(0) =~= p.rhs@);
        lemma_below_first(gg, k as int, nl@, mat(fs@), mat(fw@), f@);
        lemma_row_union_facts(mat(fs@), a as int, f@, n as nat);
    }
    let ghost fs1 = mat(fs@);
    let c2 = union_row(fs, a, &f);
    proof {
        if !c2 {
            assert forall|t: int| in_first(pp.rhs, mat(fs@), nl@, t) implies #[trigger] mem2(
                mat(fs@),
                pp.lhs as int,
                t,
            ) by {
                assert(mem(f@, t));
                assert(union(fs1[a as int], f@)[t] == fs1[a as int][t]);
            }
        }
    }
    changed = changed || c2;
    let ghost nl2 = nl@;
    let ghost fs2 = mat(fs@);
    // Follow
    let mut i: usize = 0;
    while i < p.rhs.len()
        invariant
            p == &g[k as int],
            gg == iprods(g@),
            pp == gg[k as int],
            pp.rhs == p.rhs@,
            pp.lhs == a,
            wf_grammar(gg, n as nat),
            wf_prod(pp, n as nat),
            0 <= k < gg.len(),
            i <= p.rhs@.len(),
            nl@ == nl2,
            mat(fs@) == fs2,
            shapes(nl@, mat(fs@), mat(fw@), n as nat),
            cap2(mat(fs@)) == cap2(fs0),
            cap2(mat(fw@)) == cap2(fw0),
            below(gg, nl@, mat(fs@), mat(fw@)),
            total(nl@, mat(fs@), mat(fw@)) >= t0,
            changed ==> total(nl@, mat(fs@), mat(fw@)) > t0,
            !changed ==> nl@ == nl0 && mat(fs@) == fs0 && mat(fw@) == fw0,
            !changed ==> nullable_ok(pp, nl@) && first_ok(pp, nl@, mat(fs@)),
            !changed ==> forall|j: int| 0 <= j < i ==> #[trigger] follow_at_ok(pp, j, nl@, mat(fs@), mat(fw@)),
        decreases p.rhs@.len() - i,
    {
        let s = p.rhs[i];
        assert(s == pp.rhs[i as int]);
        if !s.terminal {
            let b = s.id;
            assert(b < n);
            let ghost fw_before = mat(fw@);
            let ft = first_of_tail(&p.rhs, i + 1, fs, nl, n);
            proof {
                assert forall|t: int| #[trigger] mem(ft@, t) implies follow_source(
                    pp,
                    i as int,
                    nl@,
                    mat(fs@),
                    mat(fw@),
                    t,
                ) by {}
                lemma_below_follow(gg, k as int, i as int, nl@, mat(fs@), mat(fw@), ft@);
                lemma_row_union_facts(mat(fw@), b as int, ft@, n as nat);
            }
            let c3 = union_row(fw, b, &ft);
            changed = changed || c3;
            let ghost fw_mid = mat(fw@);
            let tn = tail_nullable(&p.rhs, i + 1, nl);
            let mut c4 = false;
            if tn {
                let src = fw[a].clone();
                proof {
                    assert(src@ == mat(fw@)[a as int]);
                    assert forall|t: int| #[trigger] mem(src@, t) implies follow_source(
                        pp,
                        i as int,
                        nl@,
                        mat(fs@),
                        mat(fw@),
                        t,
                    ) by {
                        assert(mem2(mat(fw@), a as int, t));
                    }
                    lemma_below_follow(gg, k as int, i as int, nl@, mat(fs@), mat(fw@), src@);
                    lemma_row_union_facts(mat(fw@), b as int, src@, n as nat);
                }
                c4 = union_row(fw, b, &src);
                changed = changed || c4;
                proof {
                    if !c4 {
                        assert(mat(fw@) == fw_mid);
                    }
                }
            }
            proof {
                if !changed {
                    assert(!c3 && !c4);
                    assert(mat(fw@) == fw_before);
                    assert forall|t: int| #[trigger] follow_source(pp, i as int, nl@, mat(fs@), mat(fw@), t)
                        implies mem2(mat(fw@), b as int, t) by {
                        if in_first(pp.rhs.skip(i + 1), mat(fs@), nl@, t) {
                            assert(mem(ft@, t));
                            assert(union(fw_before[b as int], ft@)[t] == fw_before[b as int][t]);
                        } else {
                            assert(tn);
                            assert(mem2(mat(fw@), a as int, t));
                            assert(union(fw_mid[b as int], fw_mid[a as int])[t] == fw_mid[b as int][t]);
                        }
                    }
                    assert(follow_at_ok(pp, i as int, nl@, mat(fs@), mat(fw@)));
                }
            }
        } else {
            assert(follow_at_ok(pp, i as int, nl@, mat(fs@), mat(fw@)));
        }
        i = i + 1;
    }
    // The follow set of the left side is included in that of a non-terminal that ends the right side.
    let len = p.rhs.len();
    if len > 0 && !p.rhs[len - 1].terminal {
        let b = p.rhs[len - 1].id;
        assert(p.rhs@[len - 1] == pp.rhs[len - 1]);
        assert(b < n);
        let src = fw[a].clone();
        proof {
            assert(src@ == mat(fw@)[a as int]);
            assert(pp.rhs.skip(len as int) =~= Seq::<Sym>::empty());
            assert forall|t: int| #[trigger] mem(src@, t) implies follow_source(
                pp,
                len - 1,
                nl@,
                mat(fs@),
                mat(fw@),
                t,
            ) by {
                assert(mem2(mat(fw@), a as int, t));
            }
            lemma_below_follow(gg, k as int, len - 1, nl@, mat(fs@), mat(fw@), src@);
            lemma_row_union_facts(mat(fw@), b as int, src@, n as nat);
        }
        let c5 = union_row(fw, b, &src);
        changed = changed || c5;
    }
    proof {
        if !changed {
            assert(follow_ok(pp, nl@, mat(fs@), mat(fw@)));
        }
    }
    changed
}

/// The nullable set, the first sets and the follow sets of the grammar `g` over `n` symbols:
/// the rules of every production are applied until none makes a set grow.
pub fn compute_sets(g: &Vec<IProduction>, n: usize) -> (r: (Vec<bool>, Vec<Vec<bool>>, Vec<Vec<bool>>))
    requires
        wf_grammar(iprods(g@), n as nat),
    ensures
        shapes(r.0@, mat(r.1@), mat(r.2@), n as nat),
        least_sets(iprods(g@), r.0@, mat(r.1@), mat(r.2@)),
{
    let ghost gg = iprods(g@);
    let mut nl = falses(n);
    let mut fs = crate::bits::false_matrix(n);
    let mut fw = crate::bits::false_matrix(n);
    proof {
        assert forall|nl2: Seq<bool>, fs2: Seq<Seq<bool>>, fw2: Seq<Seq<bool>>|
            #[trigger] closed_sets(gg, nl2, fs2, fw2) implies le(nl@, nl2) && le2(mat(fs@), fs2) && le2(
            mat(fw@),
            fw2,
        ) by {
            assert forall|i: int| #[trigger] mem(nl@, i) implies mem(nl2, i) by {}
        }
    }
    let ghost capf = cap2(mat(fs@));
    let ghost capw = cap2(mat(fw@));
    loop
        invariant
            gg == iprods(g@),
            wf_grammar(gg, n as nat),
            shapes(nl@, mat(fs@), mat(fw@), n as nat),
            cap2(mat(fs@)) == capf,
            cap2(mat(fw@)) == capw,
            below(gg, nl@, mat(fs@), mat(fw@)),
        ensures
            shapes(nl@, mat(fs@), mat(fw@), n as nat),
            least_sets(gg, nl@, mat(fs@), mat(fw@)),
        decreases (n + capf + capw) - total(nl@, mat(fs@), mat(fw@)),
    {
        proof {
            lemma_count_le_len(nl@);
            lemma_count2_le_cap2(mat(fs@));
            lemma_count2_le_cap2(mat(fw@));
        }
        let ghost nl0 = nl@;
        let ghost fs0 = mat(fs@);
        let ghost fw0 = mat(fw@);
        let mut changed = false;
        let mut k: usize = 0;
        while k < g.len()
            invariant
                gg == iprods(g@),
                wf_grammar(gg, n as nat),
                k <= g@.len(),
                shapes(nl@, mat(fs@), mat(fw@), n as nat),
                cap2(mat(fs@)) == capf,
                cap2(mat(fw@)) == capw,
                below(gg, nl@, mat(fs@), mat(fw@)),
                total(nl@, mat(fs@), mat(fw@)) >= total(nl0, fs0, fw0),
                changed ==> total(nl@, mat(fs@), mat(fw@)) > total(nl0, fs0, fw0),
                !changed ==> nl@ == nl0 && mat(fs@) == fs0 && mat(fw@) == fw0,
                !changed ==> forall|j: int| 0 <= j < k ==> #[trigger] prod_ok(gg[j], nl@, mat(fs@), mat(fw@)),
            decreases g@.len() - k,
        {
            let c = update_for_production(g, k, n, &mut nl, &mut fs, &mut fw);
            changed = changed || c;
            k = k + 1;
        }
        if !changed {
            assert(closed_sets(gg, nl@, mat(fs@), mat(fw@)));
            break;
        }
        proof {
            lemma_count_le_len(nl@);
            lemma_count2_le_cap2(mat(fs@));
            lemma_count2_le_cap2(mat(fw@));
        }
    }
    (nl, fs, fw)
}

} // verus!
