use vstd::prelude::*;
use crate::bits::{mem, mem2, mat, square};
use crate::grammar::{
    names_of, syms_of, prods_of, contains_string, Symbol, SpecSymbol, Cfg, AugmentedCfg,
    is_augmentation,
};
use crate::analysis::{IProduction, iprods, compute_sets, least_sets, shapes};
use crate::symbols::{SymbolTable, grammar_matches};

verus! {

/// The views of a list of named string sets.
pub open spec fn named_view(e: Seq<(String, Vec<String>)>) -> Seq<(Seq<char>, Seq<Seq<char>>)> {
    e.map_values(|x: (String, Vec<String>)| (x.0@, names_of(x.1@)))
}

/// `t` belongs to a set named `key`.
pub open spec fn named_contains(e: Seq<(Seq<char>, Seq<Seq<char>>)>, key: Seq<char>, t: Seq<char>) -> bool {
    exists|j: int| 0 <= j < e.len() && (#[trigger] e[j]).0 == key && e[j].1.contains(t)
}

/// Some set is named `key`.
pub open spec fn named_has_key(e: Seq<(Seq<char>, Seq<Seq<char>>)>, key: Seq<char>) -> bool {
    exists|j: int| 0 <= j < e.len() && (#[trigger] e[j]).0 == key
}

/// Row `i` of `m`, as names.
pub open spec fn row_rel(names: Seq<Seq<char>>, m: Seq<Seq<bool>>, key: Seq<char>, t: Seq<char>) -> bool {
    exists|i: int, u: int| #[trigger] mem2(m, i, u) && names[i] == key && names[u] == t
}

/// The named sets `e` hold, under the names `names`, exactly the nonempty rows of `m`,
/// one set per row.
pub open spec fn named_sets_ok(names: Seq<Seq<char>>, m: Seq<Seq<bool>>, e: Seq<(Seq<char>, Seq<Seq<char>>)>) -> bool {
    &&& forall|key: Seq<char>, t: Seq<char>| #[trigger] named_contains(e, key, t) == row_rel(names, m, key, t)
    &&& forall|key: Seq<char>| #[trigger] named_has_key(e, key) ==> exists|t: Seq<char>| named_contains(e, key, t)
    &&& forall|j1: int, j2: int| 0 <= j1 < e.len() && 0 <= j2 < e.len() && j1 != j2 ==> (#[trigger] e[j1]).0 != (#[trigger] e[j2]).0
}

/// The names `s` are, without repetition, the names of the set bits of `bits`.
pub open spec fn names_ok(names: Seq<Seq<char>>, bits: Seq<bool>, s: Seq<Seq<char>>) -> bool {
    &&& forall|x: Seq<char>| #[trigger] s.contains(x) == exists|i: int| #[trigger] mem(bits, i) && names[i] == x
    &&& s.no_duplicates()
}

/// `pb[b]` lists in increasing order the productions of `g` whose left side is `b`.
pub open spec fn by_lhs_ok(g: Seq<crate::analysis::SpecIProd>, pb: Seq<Seq<usize>>, n: nat) -> bool {
    &&& pb.len() == n
    &&& forall|b: int, j: int| 0 <= b < n && 0 <= j < pb[b].len() ==> (#[trigger] pb[b][j]) < g.len() && g[pb[b][j] as int].lhs == b
    &&& forall|q: int| 0 <= q < g.len() ==> #[trigger] pb[g[q].lhs as int].contains(q as usize)
    &&& forall|b: int, i: int, j: int| 0 <= b < n && 0 <= i < j < pb[b].len() ==> #[trigger] pb[b][i] < #[trigger] pb[b][j]
}

pub open spec fn rows(v: Seq<Vec<usize>>) -> Seq<Seq<usize>> {
    v.map_values(|r: Vec<usize>| r@)
}

/// What the analysis of a grammar needs: the augmented grammar, its productions over symbol
/// indices, the productions of each non-terminal, and the nullable, first and follow sets.
pub struct CfgContext {
    pub augmented_cfg: AugmentedCfg,
    /// The names of the symbols of the augmented grammar; a symbol is named by its index here.
    pub symbols: SymbolTable,
    /// The productions of the augmented grammar over symbol indices.
    pub grammar: Vec<IProduction>,
    /// For each symbol index, the indices of its productions.
    pub productions_by_nonterminal: Vec<Vec<usize>>,
    /// The nullable non-terminals.
    pub nullable: Vec<String>,
    /// The nonempty first sets, named by their non-terminal.
    pub first: Vec<(String, Vec<String>)>,
    /// The nonempty follow sets, named by their non-terminal.
    pub follow: Vec<(String, Vec<String>)>,
    /// The nullable set over symbol indices.
    pub nullable_ids: Vec<bool>,
    /// The first sets over symbol indices.
    pub first_ids: Vec<Vec<bool>>,
    /// The follow sets over symbol indices.
    pub follow_ids: Vec<Vec<bool>>,
}

impl CfgContext {
    pub open spec fn names(&self) -> Seq<Seq<char>> {
        self.symbols.view_names()
    }

    pub open spec fn n(&self) -> nat {
        self.symbols.names@.len()
    }

    pub open spec fn g(&self) -> Seq<crate::analysis::SpecIProd> {
        iprods(self.grammar@)
    }

    pub open spec fn nl(&self) -> Seq<bool> {
        self.nullable_ids@
    }

    pub open spec fn fs(&self) -> Seq<Seq<bool>> {
        mat(self.first_ids@)
    }

    pub open spec fn fw(&self) -> Seq<Seq<bool>> {
        mat(self.follow_ids@)
    }

    /// The context describes the augmented grammar it holds.
    pub open spec fn wf(&self) -> bool {
        &&& self.symbols.wf()
        &&& grammar_matches(self.names(), self.g(), self.augmented_cfg@.productions)
        &&& crate::analysis::wf_grammar(self.g(), self.n())
        &&& shapes(self.nl(), self.fs(), self.fw(), self.n())
        &&& least_sets(self.g(), self.nl(), self.fs(), self.fw())
        &&& by_lhs_ok(self.g(), rows(self.productions_by_nonterminal@), self.n())
        &&& names_ok(self.names(), self.nl(), names_of(self.nullable@))
        &&& named_sets_ok(self.names(), self.fs(), named_view(self.first@))
        &&& named_sets_ok(self.names(), self.fw(), named_view(self.follow@))
    }
}

/// The productions of each symbol index.
fn productions_by_lhs(g: &Vec<IProduction>, n: usize) -> (r: Vec<Vec<usize>>)
    requires
        crate::analysis::wf_grammar(iprods(g@), n as nat),
    ensures
        by_lhs_ok(iprods(g@), rows(r@), n as nat),
{
    let ghost gg = iprods(g@);
    let mut r: Vec<Vec<usize>> = Vec::new();
    let mut b: usize = 0;
    while b < n
        invariant
            b <= n,
            r@.len() == b,
            forall|i: int| 0 <= i < b ==> (#[trigger] r@[i])@.len() == 0,
        decreases n - b,
    {
        r.push(Vec::new());
        b = b + 1;
    }
    let mut k: usize = 0;
    while k < g.len()
        invariant
            gg == iprods(g@),
            crate::analysis::wf_grammar(gg, n as nat),
            k <= g@.len(),
            r@.len() == n,
            forall|b: int, j: int| 0 <= b < n && 0 <= j < rows(r@)[b].len() ==> (#[trigger] rows(r@)[b][j]) < k && gg[rows(r@)[b][j] as int].lhs == b,
            forall|q: int| 0 <= q < k ==> #[trigger] rows(r@)[gg[q].lhs as int].contains(q as usize),
            forall|b: int, i: int, j: int| 0 <= b < n && 0 <= i < j < rows(r@)[b].len() ==> #[trigger] rows(r@)[b][i] < #[trigger] rows(r@)[b][j],
        decreases g@.len() - k,
    {
        let a = g[k].lhs;
        assert(crate::analysis::wf_prod(gg[k as int], n as nat));
        let ghost r0 = rows(r@);
        let mut row = r[a].clone();
        assert(row@ == r0[a as int]);
        row.push(k);
        r.set(a, row);
        proof {
            assert(rows(r@) =~= r0.update(a as int, r0[a as int].push(k)));
            assert forall|q: int| 0 <= q < k + 1 implies #[trigger] rows(r@)[gg[q].lhs as int].contains(q as usize) by {
                if q == k {
                    assert(rows(r@)[a as int][r0[a as int].len() as int] == k);
                } else {
                    let c = gg[q].lhs as int;
                    assert(crate::analysis::wf_prod(gg[q], n as nat));
                    assert(r0[c].contains(q as usize));
                    let w = choose|w: int| 0 <= w < r0[c].len() && r0[c][w] == q as usize;
                    assert(rows(r@)[c][w] == q);
                }
            }
        }
        k = k + 1;
    }
    r
}

/// The names of the set bits of `bits`.
fn names_of_bits(table: &SymbolTable, bits: &Vec<bool>) -> (r: Vec<String>)
    requires
        table.wf(),
        bits@.len() == table.names@.len(),
    ensures
        names_ok(table.view_names(), bits@, names_of(r@)),
{
    let ghost names = table.view_names();
    let ghost mut idx: Seq<int> = Seq::empty();
    let mut r: Vec<String> = Vec::new();
    let mut i: usize = 0;
    while i < bits.len()
        invariant
            names == table.view_names(),
            names.no_duplicates(),
            bits@.len() == names.len(),
            i <= bits@.len(),
            idx.len() == r@.len(),
            forall|j: int| 0 <= j < idx.len() ==> 0 <= #[trigger] idx[j] < i && mem(bits@, idx[j]) && names_of(r@)[j] == names[idx[j]],
            forall|j1: int, j2: int| 0 <= j1 < j2 < idx.len() ==> #[trigger] idx[j1] < #[trigger] idx[j2],
            forall|w: int| 0 <= w < i && #[trigger] mem(bits@, w) ==> names_of(r@).contains(names[w]),
        decreases bits@.len() - i,
    {
        if bits[i] {
            let ghost r0 = names_of(r@);
            r.push(table.names[i].clone());
            proof {
                assert(names_of(r@) =~= r0.push(names[i as int]));
                idx = idx.push(i as int);
                assert forall|w: int| 0 <= w < i + 1 && #[trigger] mem(bits@, w) implies names_of(r@).contains(names[w]) by {
                    if w < i {
                        let j = choose|j: int| 0 <= j < r0.len() && r0[j] == names[w];
                        assert(names_of(r@)[j] == names[w]);
                    } else {
                        assert(names_of(r@)[r0.len() as int] == names[w]);
                    }
                }
            }
        }
        i = i + 1;
    }
    proof {
        let s = names_of(r@);
        assert forall|x: Seq<char>| #[trigger] s.contains(x) == exists|w: int| #[trigger] mem(bits@, w) && names[w] == x by {
            if s.contains(x) {
                let j = choose|j: int| 0 <= j < s.len() && s[j] == x;
                assert(mem(bits@, idx[j]) && names[idx[j]] == x);
            }
        }
        assert forall|j1: int, j2: int| 0 <= j1 < s.len() && 0 <= j2 < s.len() && j1 != j2 implies s[j1] != s[j2] by {
            if j1 < j2 {
                assert(idx[j1] < idx[j2]);
            } else {
                assert(idx[j2] < idx[j1]);
            }
        }
    }
    r
}

/// Whether some bit of `v` is set.
pub fn any_bit(v: &Vec<bool>) -> (r: bool)
    ensures
        r == exists|i: int| #[trigger] mem(v@, i),
{
    let mut i: usize = 0;
    while i < v.len()
        invariant
            i <= v@.len(),
            forall|j: int| 0 <= j < i ==> !(#[trigger] mem(v@, j)),
        decreases v@.len() - i,
    {
        if v[i] {
            assert(mem(v@, i as int));
            return true;
        }
        i = i + 1;
    }
    false
}

/// The nonempty rows of `m`, each named by its symbol and given as the names of its set bits.
fn named_sets(table: &SymbolTable, m: &Vec<Vec<bool>>) -> (r: Vec<(String, Vec<String>)>)
    requires
        table.wf(),
        square(mat(m@), table.names@.len()),
    ensures
        named_sets_ok(table.view_names(), mat(m@), named_view(r@)),
{
    let ghost names = table.view_names();
    let ghost mm = mat(m@);
    let ghost mut idx: Seq<int> = Seq::empty();
    let mut r: Vec<(String, Vec<String>)> = Vec::new();
    let mut i: usize = 0;
    while i < m.len()
        invariant
            names == table.view_names(),
            mm == mat(m@),
            table.wf(),
            square(mm, names.len()),
            i <= m@.len(),
            idx.len() == r@.len(),
            forall|j: int| 0 <= j < idx.len() ==> 0 <= #[trigger] idx[j] < i
                && named_view(r@)[j].0 == names[idx[j]]
                && names_ok(names, mm[idx[j]], named_view(r@)[j].1)
                && exists|u: int| mem(mm[idx[j]], u),
            forall|j1: int, j2: int| 0 <= j1 < j2 < idx.len() ==> #[trigger] idx[j1] < #[trigger] idx[j2],
            forall|w: int, u: int| 0 <= w < i && #[trigger] mem2(mm, w, u) ==> exists|j: int| 0 <= j < idx.len() && #[trigger] idx[j] == w,
        decreases m@.len() - i,
    {
        assert(mm[i as int] == m@[i as int]@);
        if any_bit(&m[i]) {
            let members = names_of_bits(table, &m[i]);
            let ghost r0 = r@;
            r.push((table.names[i].clone(), members));
            proof {
                let ghost idx0 = idx;
                idx = idx.push(i as int);
                assert(named_view(r@) =~= named_view(r0).push((names[i as int], names_of(members@))));
                assert forall|w: int, u: int| 0 <= w < i + 1 && #[trigger] mem2(mm, w, u) implies exists|j: int| 0 <= j < idx.len() && #[trigger] idx[j] == w by {
                    if w == i {
                        assert(idx[idx.len() - 1] == w);
                    } else {
                        let j = choose|j: int| 0 <= j < idx0.len() && #[trigger] idx0[j] == w;
                        assert(idx[j] == w);
                    }
                }
            }
        } else {
            proof {
                assert forall|w: int, u: int| 0 <= w < i + 1 && #[trigger] mem2(mm, w, u) implies exists|j: int| 0 <= j < idx.len() && #[trigger] idx[j] == w by {
                    if w == i {
                        assert(mem(m@[i as int]@, u));
                    }
                }
            }
        }
        i = i + 1;
    }
    proof {
        let e = named_view(r@);
        assert forall|key: Seq<char>, t: Seq<char>| #[trigger] named_contains(e, key, t) == row_rel(names, mm, key, t) by {
            if named_contains(e, key, t) {
                let j = choose|j: int| 0 <= j < e.len() && (#[trigger] e[j]).0 == key && e[j].1.contains(t);
                assert(names_ok(names, mm[idx[j]], e[j].1));
                let u = choose|u: int| #[trigger] mem(mm[idx[j]], u) && names[u] == t;
                assert(mem2(mm, idx[j], u));
            }
            if row_rel(names, mm, key, t) {
                let (w, u) = choose|w: int, u: int| #[trigger] mem2(mm, w, u) && names[w] == key && names[u] == t;
                let j = choose|j: int| 0 <= j < idx.len() && #[trigger] idx[j] == w;
                assert(names_ok(names, mm[idx[j]], e[j].1));
                assert(mem(mm[idx[j]], u));
                assert(e[j].1.contains(t));
            }
        }
        assert forall|key: Seq<char>| #[trigger] named_has_key(e, key) implies exists|t: Seq<char>| named_contains(e, key, t) by {
            let j = choose|j: int| 0 <= j < e.len() && (#[trigger] e[j]).0 == key;
            assert(names_ok(names, mm[idx[j]], e[j].1));
            let u = choose|u: int| mem(mm[idx[j]], u);
            assert(e[j].1.contains(names[u]));
            assert(named_contains(e, key, names[u]));
        }
        assert forall|j1: int, j2: int| 0 <= j1 < e.len() && 0 <= j2 < e.len() && j1 != j2 implies (#[trigger] e[j1]).0 != (#[trigger] e[j2]).0 by {
            if j1 < j2 {
                assert(idx[j1] < idx[j2]);
            } else {
                assert(idx[j2] < idx[j1]);
            }
        }
    }
    r
}

impl CfgContext {
    /// Builds the context of a grammar: augments it, names its symbols by indices, and computes
    /// the least nullable, first and follow sets.
    pub fn from(cfg: &Cfg) -> (r: CfgContext)
        ensures
            is_augmentation(cfg@, r.augmented_cfg@),
            r.wf(),
    {
        let acfg = cfg.augment_grammar();
        let (symbols, grammar) = crate::symbols::intern_grammar(&acfg.productions);
        let n = symbols.len();
        let productions_by_nonterminal = productions_by_lhs(&grammar, n);
        let (nullable_ids, first_ids, follow_ids) = compute_sets(&grammar, n);
        let nullable = names_of_bits(&symbols, &nullable_ids);
        let first = named_sets(&symbols, &first_ids);
        let follow = named_sets(&symbols, &follow_ids);
        CfgContext {
            augmented_cfg: acfg,
            symbols,
            grammar,
            productions_by_nonterminal,
            nullable,
            first,
            follow,
            nullable_ids,
            first_ids,
            follow_ids,
        }
    }
}

/// A symbol that derives the empty string, given the nullable names `nl`.
pub open spec fn str_sym_nullable(s: SpecSymbol, nl: Seq<Seq<char>>) -> bool {
    match s {
        SpecSymbol::NonTerminal(x) => nl.contains(x),
        SpecSymbol::Terminal(_) => false,
    }
}

/// The first `j` symbols of `a` are nullable.
pub open spec fn str_prefix_nullable(a: Seq<SpecSymbol>, j: int, nl: Seq<Seq<char>>) -> bool {
    forall|m: int| 0 <= m < j ==> #[trigger] str_sym_nullable(a[m], nl)
}

/// Every symbol of `a` is nullable.
pub open spec fn str_seq_nullable(a: Seq<SpecSymbol>, nl: Seq<Seq<char>>) -> bool {
    str_prefix_nullable(a, a.len() as int, nl)
}

/// `t` can begin a string derived from `s`, given the named first sets `e`.
pub open spec fn str_sym_first(s: SpecSymbol, e: Seq<(Seq<char>, Seq<Seq<char>>)>, t: Seq<char>) -> bool {
    match s {
        SpecSymbol::Terminal(x) => x == t,
        SpecSymbol::NonTerminal(x) => named_contains(e, x, t),
    }
}

/// `t` can begin a string derived from `a`: some symbol of `a` preceded only by nullable
/// symbols can begin with `t`.
pub open spec fn str_in_first(
    a: Seq<SpecSymbol>,
    e: Seq<(Seq<char>, Seq<Seq<char>>)>,
    nl: Seq<Seq<char>>,
    t: Seq<char>,
) -> bool {
    exists|j: int| 0 <= j < a.len() && str_prefix_nullable(a, j, nl) && #[trigger] str_sym_first(a[j], e, t)
}

/// Whether every symbol of `symbols` is a non-terminal whose name is in `nullable`.
pub fn is_nullable(symbols: &[Symbol], nullable: &[String]) -> (r: bool)
    ensures
        r == str_seq_nullable(syms_of(symbols@), names_of(nullable@)),
{
    let ghost a = syms_of(symbols@);
    let mut i: usize = 0;
    while i < symbols.len()
        invariant
            a == syms_of(symbols@),
            i <= symbols@.len(),
            str_prefix_nullable(a, i as int, names_of(nullable@)),
        decreases symbols@.len() - i,
    {
        assert(a[i as int] == symbols@[i as int]@);
        match &symbols[i] {
            Symbol::NonTerminal(nt) => {
                if !contains_string(nullable, nt) {
                    assert(!str_sym_nullable(a[i as int], names_of(nullable@)));
                    return false;
                }
            },
            Symbol::Terminal(_) => {
                assert(!str_sym_nullable(a[i as int], names_of(nullable@)));
                return false;
            },
        }
        assert(str_sym_nullable(a[i as int], names_of(nullable@)));
        i = i + 1;
    }
    true
}

/// Appends copies of the strings of `src` to `r`.
pub fn extend_strings(r: &mut Vec<String>, src: &Vec<String>)
    ensures
        names_of(final(r)@) == names_of(old(r)@) + names_of(src@),
{
    let ghost r0 = names_of(r@);
    let mut i: usize = 0;
    while i < src.len()
        invariant
            i <= src@.len(),
            names_of(r@) == r0 + names_of(src@).take(i as int),
        decreases src@.len() - i,
    {
        let ghost rb = names_of(r@);
        r.push(src[i].clone());
        assert(names_of(r@) =~= rb.push(src@[i as int]@));
        assert(names_of(src@).take(i + 1) =~= names_of(src@).take(i as int).push(src@[i as int]@));
        assert(names_of(r@) =~= r0 + names_of(src@).take(i + 1));
        i = i + 1;
    }
    assert(names_of(src@).take(src@.len() as int) =~= names_of(src@));
}

/// The members of the sets named `key`, in the order the list holds them.
pub open spec fn members_of(e: Seq<(Seq<char>, Seq<Seq<char>>)>, key: Seq<char>) -> Seq<Seq<char>>
    decreases e.len(),
{
    if e.len() == 0 {
        Seq::empty()
    } else {
        members_of(e.drop_last(), key) + if e.last().0 == key {
            e.last().1
        } else {
            Seq::empty()
        }
    }
}

/// The names `get_first` lists for the symbols `a`, in scan order: for each symbol, the
/// terminal itself or the members of the non-terminal's first set, up to and including the
/// first symbol that is not nullable.
pub open spec fn first_seq(a: Seq<SpecSymbol>, e: Seq<(Seq<char>, Seq<Seq<char>>)>, nl: Seq<Seq<char>>) -> Seq<Seq<char>>
    decreases a.len(),
{
    if a.len() == 0 {
        Seq::empty()
    } else {
        let head = match a[0] {
            SpecSymbol::Terminal(x) => seq![x],
            SpecSymbol::NonTerminal(x) => members_of(e, x),
        };
        if str_sym_nullable(a[0], nl) {
            head + first_seq(a.drop_first(), e, nl)
        } else {
            head
        }
    }
}

/// The names of every set named `key`.
pub fn named_members(e: &[(String, Vec<String>)], key: &String) -> (r: Vec<String>)
    ensures
        forall|t: Seq<char>| #[trigger] names_of(r@).contains(t) == named_contains(named_view(e@), key@, t),
        names_of(r@) == members_of(named_view(e@), key@),
{
    let ghost ev = named_view(e@);
    let mut r: Vec<String> = Vec::new();
    let mut j: usize = 0;
    while j < e.len()
        invariant
            ev == named_view(e@),
            j <= e@.len(),
            forall|t: Seq<char>| #[trigger] names_of(r@).contains(t) == exists|w: int| 0 <= w < j && (#[trigger] ev[w]).0 == key@ && ev[w].1.contains(t),
            names_of(r@) == members_of(ev.take(j as int), key@),
        decreases e@.len() - j,
    {
        proof {
            assert(ev.take(j + 1).drop_last() =~= ev.take(j as int));
            assert(ev.take(j + 1).last() == ev[j as int]);
            assert(ev[j as int] == (e@[j as int].0@, names_of(e@[j as int].1@)));
        }
        if e[j].0 == *key {
            let ghost r0 = names_of(r@);
            extend_strings(&mut r, &e[j].1);
            proof {
                assert(ev[j as int] == (e@[j as int].0@, names_of(e@[j as int].1@)));
                assert forall|t: Seq<char>| #[trigger] names_of(r@).contains(t) == exists|w: int| 0 <= w < j + 1 && (#[trigger] ev[w]).0 == key@ && ev[w].1.contains(t) by {
                    if names_of(r@).contains(t) {
                        let x = choose|x: int| 0 <= x < names_of(r@).len() && names_of(r@)[x] == t;
                        if x < r0.len() {
                            assert(r0[x] == t);
                            assert(r0.contains(t));
                        } else {
                            assert(ev[j as int].1[x - r0.len()] == t);
                            assert(ev[j as int].1.contains(t));
                        }
                    }
                    if exists|w: int| 0 <= w < j + 1 && (#[trigger] ev[w]).0 == key@ && ev[w].1.contains(t) {
                        let w = choose|w: int| 0 <= w < j + 1 && (#[trigger] ev[w]).0 == key@ && ev[w].1.contains(t);
                        if w < j {
                            assert(r0.contains(t));
                            let x = choose|x: int| 0 <= x < r0.len() && r0[x] == t;
                            assert(names_of(r@)[x] == t);
                        } else {
                            let x = choose|x: int| 0 <= x < ev[j as int].1.len() && ev[j as int].1[x] == t;
                            assert(names_of(r@)[r0.len() + x] == t);
                        }
                    }
                }
            }
        } else {
            proof {
                assert(ev[j as int].0 != key@);
                assert forall|t: Seq<char>| #[trigger] names_of(r@).contains(t) == exists|w: int| 0 <= w < j + 1 && (#[trigger] ev[w]).0 == key@ && ev[w].1.contains(t) by {
                    if exists|w: int| 0 <= w < j + 1 && (#[trigger] ev[w]).0 == key@ && ev[w].1.contains(t) {
                        let w = choose|w: int| 0 <= w < j + 1 && (#[trigger] ev[w]).0 == key@ && ev[w].1.contains(t);
                        assert(w < j);
                    }
                }
            }
        }
        j = j + 1;
    }
    assert(ev.take(e@.len() as int) =~= ev);
    r
}

/// The names that can begin a string derived from `symbols`, given the named first sets
/// `first` and the nullable names `nullable`.
pub fn get_first(symbols: &[Symbol], first: &[(String, Vec<String>)], nullable: &[String]) -> (r: Vec<String>)
    ensures
        names_of(r@) == first_seq(syms_of(symbols@), named_view(first@), names_of(nullable@)),
        forall|t: Seq<char>| #[trigger] names_of(r@).contains(t) == str_in_first(
            syms_of(symbols@),
            named_view(first@),
            names_of(nullable@),
            t,
        ),
{
    let ghost a = syms_of(symbols@);
    let ghost e = named_view(first@);
    let ghost nl = names_of(nullable@);
    let mut r: Vec<String> = Vec::new();
    let mut i: usize = 0;
    assert(a.skip(0) =~= a);
    while i < symbols.len()
        invariant
            a == syms_of(symbols@),
            e == named_view(first@),
            nl == names_of(nullable@),
            i <= symbols@.len(),
            str_prefix_nullable(a, i as int, nl),
            names_of(r@) + first_seq(a.skip(i as int), e, nl) == first_seq(a, e, nl),
            forall|t: Seq<char>| #[trigger] names_of(r@).contains(t) == exists|j: int| 0 <= j < i && str_prefix_nullable(a, j, nl) && #[trigger] str_sym_first(a[j], e, t),
        decreases symbols@.len() - i,
    {
        let ghost r0 = names_of(r@);
        assert(a[i as int] == symbols@[i as int]@);
        proof {
            assert(a.skip(i as int)[0] == a[i as int]);
            assert(a.skip(i as int).drop_first() =~= a.skip(i + 1));
        }
        let mut stop = false;
        match &symbols[i] {
            Symbol::Terminal(t) => {
                r.push(t.clone());
                stop = true;
                proof {
                    assert(names_of(r@) =~= r0.push(t@));
                    assert(!str_sym_nullable(a[i as int], nl));
                    assert(first_seq(a.skip(i as int), e, nl) =~= seq![t@]);
                    assert(names_of(r@) =~= r0 + first_seq(a.skip(i as int), e, nl));
                }
            },
            Symbol::NonTerminal(nt) => {
                let members = named_members(first, nt);
                extend_strings(&mut r, &members);
                assert(names_of(members@) == members_of(e, nt@));
                if !contains_string(nullable, nt) {
                    stop = true;
                    assert(!str_sym_nullable(a[i as int], nl));
                } else {
                    assert(str_sym_nullable(a[i as int], nl));
                }
                proof {
                    assert forall|t: Seq<char>| #[trigger] names_of(r@).contains(t) == (r0.contains(t) || str_sym_first(a[i as int], e, t)) by {
                        if names_of(r@).contains(t) {
                            let x = choose|x: int| 0 <= x < names_of(r@).len() && names_of(r@)[x] == t;
                            if x < r0.len() {
                                assert(r0[x] == t);
                            } else {
                                assert(names_of(members@)[x - r0.len()] == t);
                                assert(names_of(members@).contains(t));
                            }
                        }
                        if r0.contains(t) {
                            let x = choose|x: int| 0 <= x < r0.len() && r0[x] == t;
                            assert(names_of(r@)[x] == t);
                        } else if str_sym_first(a[i as int], e, t) {
                            assert(names_of(members@).contains(t));
                            let x = choose|x: int| 0 <= x < names_of(members@).len() && names_of(members@)[x] == t;
                            assert(names_of(r@)[r0.len() + x] == t);
                        }
                    }
                }
            },
        }
        proof {
            if let Symbol::Terminal(tt) = &symbols@[i as int] {
                assert forall|t: Seq<char>| #[trigger] names_of(r@).contains(t) == (r0.contains(t) || str_sym_first(a[i as int], e, t)) by {
                    if names_of(r@).contains(t) && !r0.contains(t) {
                        let x = choose|x: int| 0 <= x < names_of(r@).len() && names_of(r@)[x] == t;
                        if x < r0.len() {
                            assert(r0[x] == t);
                        }
                    }
                    if str_sym_first(a[i as int], e, t) {
                        assert(names_of(r@)[r0.len() as int] == t);
                    }
                    if r0.contains(t) {
                        let x = choose|x: int| 0 <= x < r0.len() && r0[x] == t;
                        assert(names_of(r@)[x] == t);
                    }
                }
            }
            assert forall|t: Seq<char>| #[trigger] names_of(r@).contains(t) == exists|j: int| 0 <= j < i + 1 && str_prefix_nullable(a, j, nl) && #[trigger] str_sym_first(a[j], e, t) by {
                if exists|j: int| 0 <= j < i + 1 && str_prefix_nullable(a, j, nl) && #[trigger] str_sym_first(a[j], e, t) {
                    let j = choose|j: int| 0 <= j < i + 1 && str_prefix_nullable(a, j, nl) && #[trigger] str_sym_first(a[j], e, t);
                    if j < i {
                        assert(r0.contains(t));
                    }
                }
            }
        }
        proof {
            if str_sym_nullable(a[i as int], nl) {
                assert(names_of(r@) + first_seq(a.skip(i + 1), e, nl) =~= r0 + first_seq(a.skip(i as int), e, nl));
            } else {
                assert(names_of(r@) =~= r0 + first_seq(a.skip(i as int), e, nl));
            }
        }
        if stop {
            proof {
                assert forall|t: Seq<char>| #[trigger] names_of(r@).contains(t) == str_in_first(a, e, nl, t) by {
                    if str_in_first(a, e, nl, t) {
                        let j = choose|j: int| 0 <= j < a.len() && str_prefix_nullable(a, j, nl) && #[trigger] str_sym_first(a[j], e, t);
                        if j > i {
                            assert(str_sym_nullable(a[i as int], nl));
                        }
                    }
                }
            }
            return r;
        }
        i = i + 1;
    }
    proof {
        assert forall|t: Seq<char>| #[trigger] names_of(r@).contains(t) == str_in_first(a, e, nl, t) by {
            if str_in_first(a, e, nl, t) {
                let j = choose|j: int| 0 <= j < a.len() && str_prefix_nullable(a, j, nl) && #[trigger] str_sym_first(a[j], e, t);
            }
        }
        assert(a.skip(i as int).len() == 0);
        assert(names_of(r@) =~= names_of(r@) + first_seq(a.skip(i as int), e, nl));
    }
    r
}

/// The index of the first set named `key`.
pub fn lookup_named(e: &Vec<(String, Vec<String>)>, key: &String) -> (r: Option<usize>)
    ensures
        match r {
            Some(j) => j < e@.len() && e@[j as int].0@ == key@,
            None => !named_has_key(named_view(e@), key@),
        },
{
    let mut j: usize = 0;
    while j < e.len()
        invariant
            j <= e@.len(),
            forall|w: int| 0 <= w < j ==> (#[trigger] e@[w]).0@ != key@,
        decreases e@.len() - j,
    {
        if e[j].0 == *key {
            return Some(j);
        }
        j = j + 1;
    }
    proof {
        assert forall|w: int| 0 <= w < named_view(e@).len() implies (#[trigger] named_view(e@)[w]).0 != key@ by {
            assert(e@[w].0@ != key@);
        }
    }
    None
}

impl CfgContext {
    /// The first set of the symbol named `name`, when it is nonempty.
    pub fn first_set(&self, name: &String) -> (r: Option<&Vec<String>>)
        ensures
            match r {
                Some(v) => exists|j: int| 0 <= j < self.first@.len() && self.first@[j].0@ == name@ && *v == self.first@[j].1,
                None => !named_has_key(named_view(self.first@), name@),
            },
    {
        match lookup_named(&self.first, name) {
            Some(j) => Some(&self.first[j].1),
            None => None,
        }
    }

    /// The follow set of the symbol named `name`, when it is nonempty.
    pub fn follow_set(&self, name: &String) -> (r: Option<&Vec<String>>)
        ensures
            match r {
                Some(v) => exists|j: int| 0 <= j < self.follow@.len() && self.follow@[j].0@ == name@ && *v == self.follow@[j].1,
                None => !named_has_key(named_view(self.follow@), name@),
            },
    {
        match lookup_named(&self.follow, name) {
            Some(j) => Some(&self.follow[j].1),
            None => None,
        }
    }
}

} // verus!
