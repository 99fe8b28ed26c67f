use vstd::prelude::*;
use vstd::string::*;
use crate::grammar::{Symbol, SpecSymbol, sym_name};
use crate::context::CfgContext;
use crate::closure::{ItemView, LrItem, valid_item};
use crate::parser::Lr1Parser;
use crate::order::{
    sorted_bit_names, sorted_names, lemma_sorted_bit_names, bit_names, lemma_bit_names, sorted_strict, strs_lt,
    strs_less, lemma_strs_lt_transitive, lemma_strs_lt_irreflexive, lemma_strs_lt_total,
};
use crate::closure::items_view;
use crate::grammar::names_of;

verus! {

/// The words, each after a space.
pub open spec fn spaced(ws: Seq<Seq<char>>) -> Seq<char>
    decreases ws.len(),
{
    if ws.len() == 0 {
        Seq::empty()
    } else {
        spaced(ws.drop_last()) + seq![' '] + ws.last()
    }
}

/// The words, separated by a comma and a space.
pub open spec fn joined(ws: Seq<Seq<char>>) -> Seq<char>
    decreases ws.len(),
{
    if ws.len() == 0 {
        Seq::empty()
    } else if ws.len() == 1 {
        ws[0]
    } else {
        joined(ws.drop_last()) + ", "@ + ws.last()
    }
}

/// The names of the symbols of a right side, with the dot `•` before the symbol of index `d`.
pub open spec fn dotted(rhs: Seq<SpecSymbol>, d: int) -> Seq<Seq<char>> {
    let ns = rhs.map_values(|s: SpecSymbol| sym_name(s));
    ns.take(d) + seq!["•"@] + ns.skip(d)
}

/// The text of an item, `A -> x • y : [ a, b ]`: its production with the dot in its place,
/// then the names of its lookaheads in increasing order.
pub open spec fn item_text(ctx: CfgContext, it: ItemView) -> Seq<char> {
    let prod = ctx.augmented_cfg@.productions[it.p as int];
    prod.lhs + " ->"@ + spaced(dotted(prod.rhs, it.d as int)) + " : [ "@ + joined(sorted_bit_names(ctx.names(), it.la))
        + " ]"@
}

fn symbol_name(s: &Symbol) -> (r: &String)
    ensures
        r@ == sym_name(s@),
{
    match s {
        Symbol::Terminal(x) => x,
        Symbol::NonTerminal(x) => x,
    }
}

impl Lr1Parser {
    /// The text of an item: its production with the dot at its place, then its lookaheads.
    pub fn format_lr_item(&self, item: &LrItem) -> (r: String)
        requires
            self.cfgctx.wf(),
            valid_item(self.cfgctx, item@),
        ensures
            r@ == item_text(self.cfgctx, item@),
    {
        let ghost ctx = self.cfgctx;
        let ghost names = ctx.names();
        proof {
            assert(ctx.augmented_cfg@.productions.len() == ctx.g().len());
            assert(crate::symbols::prod_matches(names, ctx.g()[item@.p as int], ctx.augmented_cfg@.productions[item@.p as int]));
        }
        let prod = &self.cfgctx.augmented_cfg.productions[item.production_id];
        let ghost sp = prod@;
        let ghost ns = sp.rhs.map_values(|s: SpecSymbol| sym_name(s));
        let ghost d = item.dot as int;
        let mut r = prod.nonterminal.clone();
        let arrow = " ->";
        let space = " ";
        let dot = " •";
        proof {
            reveal_strlit(" ->");
            reveal_strlit(" ");
            reveal_strlit(" •");
            reveal_strlit("•");
        }
        r.append(arrow);
        let ghost head = sp.lhs + " ->"@;
        let n = prod.expansion.len();
        let mut i: usize = 0;
        while i < n
            invariant
                sp == prod@,
                ns == sp.rhs.map_values(|s: SpecSymbol| sym_name(s)),
                n == sp.rhs.len(),
                d == item.dot,
                0 <= d <= n,
                i <= n,
                space@ == " "@,
                dot@ == " •"@,
                " •"@ == seq![' '] + "•"@,
                " "@ == seq![' '],
                r@ == head + spaced(if d < i { ns.take(d) + seq!["•"@] + ns.subrange(d, i as int) } else { ns.take(i as int) }),
            decreases n - i,
        {
            let ghost before = if d < i { ns.take(d) + seq!["•"@] + ns.subrange(d, i as int) } else { ns.take(i as int) };
            let ghost mid = if d <= i { ns.take(d) + seq!["•"@] + ns.subrange(d, i as int) } else { ns.take(i as int) };
            if i == item.dot {
                r.append(dot);
                proof {
                    assert(before =~= ns.take(d));
                    assert(mid =~= before.push("•"@));
                    assert(mid.drop_last() =~= before);
                    assert(spaced(mid) == spaced(before) + seq![' '] + "•"@);
                    assert(r@ =~= head + spaced(mid));
                }
            } else {
                assert(mid == before);
            }
            assert(r@ == head + spaced(mid));
            let ghost r1 = r@;
            let name = symbol_name(&prod.expansion[i]);
            assert(name@ == ns[i as int]);
            r.append(space);
            r.append(name.as_str());
            proof {
                assert(" "@ =~= seq![' ']);
                assert(r@ == r1 + " "@ + ns[i as int]);
                let after = if d < i + 1 { ns.take(d) + seq!["•"@] + ns.subrange(d, i + 1) } else { ns.take(i + 1) };
                assert(after =~= mid.push(ns[i as int]));
                assert(after.drop_last() =~= mid);
                assert(spaced(after) == spaced(mid) + seq![' '] + ns[i as int]);
                assert(r@ =~= head + spaced(after));
            }
            i = i + 1;
        }
        if item.dot == n {
            r.append(dot);
            proof {
                assert(ns.take(n as int).push("•"@).drop_last() =~= ns.take(n as int));
            }
        }
        proof {
            assert(dotted(sp.rhs, d) =~= (if d < n { ns.take(d) + seq!["•"@] + ns.subrange(d, n as int) } else { ns.take(n as int).push("•"@) }));
        }
        let ghost body = r@;
        assert(body == head + spaced(dotted(sp.rhs, d)));
        let open_br = " : [ ";
        let comma = ", ";
        let close_br = " ]";
        proof {
            reveal_strlit(" : [ ");
            reveal_strlit(", ");
            reveal_strlit(" ]");
        }
        r.append(open_br);
        let las = sorted_names(&self.cfgctx.symbols.names, &item.lookahead);
        let ghost lv = names_of(las@);
        let m = las.len();
        let mut t: usize = 0;
        while t < m
            invariant
                lv == names_of(las@),
                m == lv.len(),
                t <= m,
                comma@ == ", "@,
                r@ == body + " : [ "@ + joined(lv.take(t as int)),
            decreases m - t,
        {
            let ghost prev = lv.take(t as int);
            if t > 0 {
                r.append(comma);
            }
            r.append(las[t].as_str());
            proof {
                let next = lv.take(t + 1);
                assert(next.drop_last() =~= prev);
                assert(next.last() == las@[t as int]@);
                if t == 0 {
                    assert(prev =~= Seq::<Seq<char>>::empty());
                    assert(next.len() == 1);
                }
            }
            t = t + 1;
        }
        assert(lv.take(m as int) =~= lv);
        r.append(close_br);
        proof {
            lemma_sorted_bit_names(names, item@.la, lv);
        }
        r
    }
}

/// `x` comes before `y` in the listing of a state: by production, then by the position of
/// the dot, then by the names of their lookaheads in increasing order.
pub open spec fn item_lt(names: Seq<Seq<char>>, x: ItemView, y: ItemView) -> bool {
    ||| x.p < y.p
    ||| x.p == y.p && x.d < y.d
    ||| x.p == y.p && x.d == y.d && strs_lt(sorted_bit_names(names, x.la), sorted_bit_names(names, y.la))
}

pub proof fn lemma_item_lt_transitive(names: Seq<Seq<char>>, x: ItemView, y: ItemView, z: ItemView)
    requires
        item_lt(names, x, y),
        item_lt(names, y, z),
    ensures
        item_lt(names, x, z),
{
    if x.p == y.p && y.p == z.p && x.d == y.d && y.d == z.d {
        lemma_strs_lt_transitive(sorted_bit_names(names, x.la), sorted_bit_names(names, y.la), sorted_bit_names(names, z.la));
    }
}

pub proof fn lemma_item_lt_irreflexive(names: Seq<Seq<char>>, x: ItemView)
    ensures
        !item_lt(names, x, x),
{
    lemma_strs_lt_irreflexive(sorted_bit_names(names, x.la));
}

/// Two different items whose lookaheads are over the same symbols are ordered one way or
/// the other.
pub proof fn lemma_item_lt_total(names: Seq<Seq<char>>, x: ItemView, y: ItemView)
    requires
        names.no_duplicates(),
        x != y,
        x.la.len() == y.la.len(),
        x.la.len() <= names.len(),
        sorted_strict(sorted_bit_names(names, x.la)),
        sorted_bit_names(names, x.la).to_set() == bit_names(names, x.la, x.la.len() as int).to_set(),
        sorted_strict(sorted_bit_names(names, y.la)),
        sorted_bit_names(names, y.la).to_set() == bit_names(names, y.la, y.la.len() as int).to_set(),
    ensures
        item_lt(names, x, y) || item_lt(names, y, x),
{
    if x.p == y.p && x.d == y.d {
        if x.la =~= y.la {
            assert(x == y);
        }
        let t = choose|t: int| 0 <= t < x.la.len() && x.la[t] != y.la[t];
        let n = x.la.len() as int;
        let kx = sorted_bit_names(names, x.la);
        let ky = sorted_bit_names(names, y.la);
        lemma_bit_names(names, x.la, n, names[t]);
        lemma_bit_names(names, y.la, n, names[t]);
        if x.la[t] {
            if exists|t2: int| 0 <= t2 < n && y.la[t2] && names[t2] == names[t] {
                let t2 = choose|t2: int| 0 <= t2 < n && y.la[t2] && names[t2] == names[t];
                assert(t2 == t);
            }
            assert(kx.to_set().contains(names[t]));
            assert(!ky.to_set().contains(names[t]));
        } else {
            if exists|t2: int| 0 <= t2 < n && x.la[t2] && names[t2] == names[t] {
                let t2 = choose|t2: int| 0 <= t2 < n && x.la[t2] && names[t2] == names[t];
                assert(t2 == t);
            }
            assert(ky.to_set().contains(names[t]));
            assert(!kx.to_set().contains(names[t]));
        }
        assert(kx != ky);
        lemma_strs_lt_total(kx, ky);
    }
}

impl Lr1Parser {
    /// The indices of the items of state `state_id`, each once, in increasing order of items.
    pub fn sorted_items(&self, state_id: usize) -> (r: Vec<usize>)
        requires
            self.wf(),
            state_id < self.states().len(),
        ensures
            r@.len() == self.states()[state_id as int].len(),
            forall|k: int| 0 <= k < r@.len() ==> (#[trigger] r@[k]) < self.states()[state_id as int].len(),
            forall|m: usize| m < self.states()[state_id as int].len() ==> #[trigger] r@.contains(m),
            forall|a: int, b: int| 0 <= a < b < r@.len() ==> item_lt(
                self.cfgctx.names(),
                self.states()[state_id as int][#[trigger] r@[a] as int],
                self.states()[state_id as int][#[trigger] r@[b] as int],
            ),
    {
        let ghost names = self.cfgctx.names();
        let state = &self.dfa.states[state_id];
        let ghost s = self.states()[state_id as int];
        assert(s == items_view(state@));
        assert(crate::dfa::state_wf(self.cfgctx, s));
        let n = state.len();
        let mut keys: Vec<Vec<String>> = Vec::new();
        let mut m: usize = 0;
        while m < n
            invariant
                self.wf(),
                names == self.cfgctx.names(),
                s == items_view(state@),
                s == self.states()[state_id as int],
                crate::dfa::state_wf(self.cfgctx, s),
                n == s.len(),
                m <= n,
                keys@.len() == m,
                forall|j: int| 0 <= j < m ==> names_of((#[trigger] keys@[j])@) == sorted_bit_names(names, s[j].la),
                forall|j: int| 0 <= j < m ==> sorted_strict(sorted_bit_names(names, #[trigger] s[j].la))
                    && sorted_bit_names(names, s[j].la).to_set() == bit_names(names, s[j].la, s[j].la.len() as int).to_set(),
            decreases n - m,
        {
            assert(s[m as int] == state@[m as int]@);
            assert(valid_item(self.cfgctx, s[m as int]));
            let k = sorted_names(&self.cfgctx.symbols.names, &state[m].lookahead);
            proof {
                lemma_sorted_bit_names(names, s[m as int].la, names_of(k@));
            }
            keys.push(k);
            m = m + 1;
        }
        let mut r: Vec<usize> = Vec::new();
        let mut m: usize = 0;
        while m < n
            invariant
                names == self.cfgctx.names(),
                names.no_duplicates(),
                s == items_view(state@),
                crate::dfa::state_wf(self.cfgctx, s),
                n == s.len(),
                keys@.len() == n,
                forall|j: int| 0 <= j < n ==> names_of((#[trigger] keys@[j])@) == sorted_bit_names(names, s[j].la),
                forall|j: int| 0 <= j < n ==> sorted_strict(sorted_bit_names(names, #[trigger] s[j].la))
                    && sorted_bit_names(names, s[j].la).to_set() == bit_names(names, s[j].la, s[j].la.len() as int).to_set(),
                m <= n,
                r@.len() == m,
                forall|k: int| 0 <= k < r@.len() ==> (#[trigger] r@[k]) < m,
                forall|j: usize| j < m ==> #[trigger] r@.contains(j),
                forall|a: int, b: int| 0 <= a < b < r@.len() ==> item_lt(names, s[#[trigger] r@[a] as int], s[#[trigger] r@[b] as int]),
            decreases n - m,
        {
            let ghost rv = r@;
            let mut j: usize = 0;
            while j < r.len() && !self.item_less(state, &keys, m, r[j])
                invariant
                    names == self.cfgctx.names(),
                    names.no_duplicates(),
                    s == items_view(state@),
                    crate::dfa::state_wf(self.cfgctx, s),
                    n == s.len(),
                    keys@.len() == n,
                    forall|jj: int| 0 <= jj < n ==> names_of((#[trigger] keys@[jj])@) == sorted_bit_names(names, s[jj].la),
                    forall|jj: int| 0 <= jj < n ==> sorted_strict(sorted_bit_names(names, #[trigger] s[jj].la))
                        && sorted_bit_names(names, s[jj].la).to_set() == bit_names(names, s[jj].la, s[jj].la.len() as int).to_set(),
                    m < n,
                    rv == r@,
                    forall|k: int| 0 <= k < rv.len() ==> (#[trigger] rv[k]) < m,
                    j <= rv.len(),
                    forall|i: int| 0 <= i < j ==> item_lt(names, s[#[trigger] rv[i] as int], s[m as int]),
                decreases rv.len() - j,
            {
                proof {
                    let o = rv[j as int] as int;
                    assert(o < m);
                    assert(s[o] != s[m as int]);
                    assert(valid_item(self.cfgctx, s[o]) && valid_item(self.cfgctx, s[m as int]));
                    lemma_item_lt_total(names, s[m as int], s[o]);
                }
                j = j + 1;
            }
            let ghost j0 = j as int;
            r.insert(j, m);
            proof {
                let r2 = r@;
                assert(r2 =~= rv.insert(j0, m as usize));
                assert forall|a: int, b: int| 0 <= a < b < r2.len() implies item_lt(names, s[#[trigger] r2[a] as int], s[#[trigger] r2[b] as int]) by {
                    if b < j0 {
                        assert(r2[a] == rv[a] && r2[b] == rv[b]);
                    } else if b == j0 {
                        assert(r2[a] == rv[a]);
                    } else if a < j0 {
                        assert(r2[a] == rv[a] && r2[b] == rv[b - 1]);
                        assert(item_lt(names, s[m as int], s[rv[j0] as int]));
                        if b - 1 > j0 {
                            assert(item_lt(names, s[rv[j0] as int], s[rv[b - 1] as int]));
                            lemma_item_lt_transitive(names, s[m as int], s[rv[j0] as int], s[rv[b - 1] as int]);
                        }
                        lemma_item_lt_transitive(names, s[rv[a] as int], s[m as int], s[rv[b - 1] as int]);
                    } else if a == j0 {
                        assert(r2[b] == rv[b - 1]);
                        assert(item_lt(names, s[m as int], s[rv[j0] as int]));
                        if b - 1 > j0 {
                            assert(item_lt(names, s[rv[j0] as int], s[rv[b - 1] as int]));
                            lemma_item_lt_transitive(names, s[m as int], s[rv[j0] as int], s[rv[b - 1] as int]);
                        }
                    } else {
                        assert(r2[a] == rv[a - 1] && r2[b] == rv[b - 1]);
                    }
                }
                assert forall|k: int| 0 <= k < r2.len() implies (#[trigger] r2[k]) < m + 1 by {
                    if k < j0 {
                        assert(r2[k] == rv[k]);
                    } else if k > j0 {
                        assert(r2[k] == rv[k - 1]);
                    }
                }
                assert forall|i: usize| i < m + 1 implies #[trigger] r2.contains(i) by {
                    if i < m {
                        assert(rv.contains(i));
                        let k = choose|k: int| 0 <= k < rv.len() && rv[k] == i;
                        if k < j0 {
                            assert(r2[k] == i);
                        } else {
                            assert(r2[k + 1] == i);
                        }
                    } else {
                        assert(r2[j0] == i);
                    }
                }
            }
            m = m + 1;
        }
        r
    }

    /// Whether item `a` of a state comes before item `b`, given the names of each item's
    /// lookaheads in increasing order.
    fn item_less(&self, state: &Vec<LrItem>, keys: &Vec<Vec<String>>, a: usize, b: usize) -> (r: bool)
        requires
            a < state@.len(),
            b < state@.len(),
            keys@.len() == state@.len(),
            names_of(keys@[a as int]@) == sorted_bit_names(self.cfgctx.names(), state@[a as int]@.la),
            names_of(keys@[b as int]@) == sorted_bit_names(self.cfgctx.names(), state@[b as int]@.la),
        ensures
            r == item_lt(self.cfgctx.names(), state@[a as int]@, state@[b as int]@),
    {
        let x = &state[a];
        let y = &state[b];
        if x.production_id != y.production_id {
            x.production_id < y.production_id
        } else if x.dot != y.dot {
            x.dot < y.dot
        } else {
            strs_less(&keys[a], &keys[b])
        }
    }
}

} // verus!

verus! {

/// The list in increasing order with `x` put in its place.
pub open spec fn insert_sorted(s: Seq<Seq<char>>, x: Seq<char>) -> Seq<Seq<char>>
    decreases s.len(),
{
    if s.len() == 0 {
        seq![x]
    } else if x == s[0] {
        s
    } else if crate::order::str_lt(x, s[0]) {
        seq![x] + s
    } else {
        seq![s[0]] + insert_sorted(s.drop_first(), x)
    }
}

proof fn lemma_insert_sorted(s: Seq<Seq<char>>, x: Seq<char>)
    requires
        sorted_strict(s),
    ensures
        sorted_strict(insert_sorted(s, x)),
        insert_sorted(s, x).to_set() == s.to_set().insert(x),
    decreases s.len(),
{
    if s.len() == 0 {
        assert(seq![x].to_set() =~= s.to_set().insert(x)) by {
            assert(seq![x][0] == x);
        }
    } else if x == s[0] {
        assert(s.to_set() =~= s.to_set().insert(x)) by {
            assert(s.contains(s[0]));
        }
    } else if crate::order::str_lt(x, s[0]) {
        let r = seq![x] + s;
        assert forall|i: int, j: int| 0 <= i < j < r.len() implies crate::order::str_lt(#[trigger] r[i], #[trigger] r[j]) by {
            if i == 0 {
                assert(r[j] == s[j - 1]);
                if j - 1 > 0 {
                    assert(crate::order::str_lt(s[0], s[j - 1]));
                    crate::order::lemma_str_lt_transitive(x, s[0], s[j - 1]);
                }
            } else {
                assert(r[i] == s[i - 1] && r[j] == s[j - 1]);
            }
        }
        assert forall|y: Seq<char>| r.to_set().contains(y) <==> s.to_set().insert(x).contains(y) by {
            if r.contains(y) {
                let k = choose|k: int| 0 <= k < r.len() && r[k] == y;
                if k > 0 {
                    assert(s[k - 1] == y);
                }
            }
            if s.contains(y) {
                let k = choose|k: int| 0 <= k < s.len() && s[k] == y;
                assert(r[k + 1] == y);
            }
            if y == x {
                assert(r[0] == x);
            }
        }
        assert(r.to_set() =~= s.to_set().insert(x));
    } else {
        let t = s.drop_first();
        assert(sorted_strict(t)) by {
            assert forall|i: int, j: int| 0 <= i < j < t.len() implies crate::order::str_lt(#[trigger] t[i], #[trigger] t[j]) by {
                assert(t[i] == s[i + 1] && t[j] == s[j + 1]);
            }
        }
        lemma_insert_sorted(t, x);
        let r2 = insert_sorted(t, x);
        let r = seq![s[0]] + r2;
        crate::order::lemma_str_lt_total(x, s[0]);
        assert forall|i: int, j: int| 0 <= i < j < r.len() implies crate::order::str_lt(#[trigger] r[i], #[trigger] r[j]) by {
            if i == 0 {
                assert(r[j] == r2[j - 1]);
                assert(r2.to_set().contains(r2[j - 1]));
                if r2[j - 1] != x {
                    assert(t.to_set().contains(r2[j - 1]));
                    let k = choose|k: int| 0 <= k < t.len() && t[k] == r2[j - 1];
                    assert(s[k + 1] == t[k]);
                }
            } else {
                assert(r[i] == r2[i - 1] && r[j] == r2[j - 1]);
            }
        }
        assert forall|y: Seq<char>| r.to_set().contains(y) <==> s.to_set().insert(x).contains(y) by {
            if r.contains(y) {
                let k = choose|k: int| 0 <= k < r.len() && r[k] == y;
                if k > 0 {
                    assert(r2[k - 1] == y);
                    assert(r2.to_set().contains(y));
                    if y != x {
                        assert(t.to_set().contains(y));
                        let k2 = choose|k2: int| 0 <= k2 < t.len() && t[k2] == y;
                        assert(s[k2 + 1] == y);
                    }
                } else {
                    assert(s[0] == y);
                }
            }
            if s.contains(y) {
                let k = choose|k: int| 0 <= k < s.len() && s[k] == y;
                if k == 0 {
                    assert(r[0] == y);
                } else {
                    assert(t[k - 1] == y);
                    assert(t.to_set().contains(y));
                    assert(r2.to_set().contains(y));
                    let k2 = choose|k2: int| 0 <= k2 < r2.len() && r2[k2] == y;
                    assert(r[k2 + 1] == y);
                }
            }
            if y == x {
                assert(r2.to_set().contains(x));
                let k2 = choose|k2: int| 0 <= k2 < r2.len() && r2[k2] == x;
                assert(r[k2 + 1] == x);
            }
        }
        assert(r.to_set() =~= s.to_set().insert(x));
    }
}

/// Every list of strings has its strings, each once, in increasing order.
pub proof fn lemma_sorted_exists(xs: Seq<Seq<char>>) -> (s: Seq<Seq<char>>)
    ensures
        sorted_strict(s),
        s.to_set() == xs.to_set(),
    decreases xs.len(),
{
    if xs.len() == 0 {
        let s = Seq::<Seq<char>>::empty();
        assert(s.to_set() =~= xs.to_set());
        s
    } else {
        let s1 = lemma_sorted_exists(xs.drop_last());
        lemma_insert_sorted(s1, xs.last());
        assert forall|y: Seq<char>| xs.to_set().contains(y) <==> xs.drop_last().to_set().insert(xs.last()).contains(y) by {
            if xs.contains(y) {
                let k = choose|k: int| 0 <= k < xs.len() && xs[k] == y;
                if k < xs.len() - 1 {
                    assert(xs.drop_last()[k] == y);
                }
            }
            if xs.drop_last().contains(y) {
                let k = choose|k: int| 0 <= k < xs.drop_last().len() && xs.drop_last()[k] == y;
                assert(xs[k] == y);
            }
            if y == xs.last() {
                assert(xs[xs.len() - 1] == y);
            }
        }
        assert(xs.to_set() =~= xs.drop_last().to_set().insert(xs.last()));
        insert_sorted(s1, xs.last())
    }
}

/// The words of a production with its dot: the names of the right side, with the dot `•`
/// standing before the symbol of index `d`.
pub proof fn lemma_dotted_law(rhs: Seq<SpecSymbol>, d: int)
    requires
        0 <= d <= rhs.len(),
    ensures
        dotted(rhs, d).len() == rhs.len() + 1,
        dotted(rhs, d)[d] == "•"@,
        forall|i: int| 0 <= i < d ==> dotted(rhs, d)[i] == sym_name(#[trigger] rhs[i]),
        forall|i: int| d < i <= rhs.len() ==> dotted(rhs, d)[i] == sym_name(#[trigger] rhs[i - 1]),
{
}

/// The text of an item lists every lookahead of the item, each once, in increasing order of
/// names, between `[ ` and ` ]`, after the production with its dot.
pub proof fn lemma_item_text_law(ctx: CfgContext, it: ItemView) -> (las: Seq<Seq<char>>)
    requires
        ctx.wf(),
        valid_item(ctx, it),
    ensures
        sorted_strict(las),
        forall|x: Seq<char>| las.contains(x) <==> exists|t: int| 0 <= t < it.la.len() && it.la[t] && #[trigger] ctx.names()[t] == x,
        item_text(ctx, it) == ctx.augmented_cfg@.productions[it.p as int].lhs + " ->"@
            + spaced(dotted(ctx.augmented_cfg@.productions[it.p as int].rhs, it.d as int)) + " : [ "@ + joined(las) + " ]"@,
{
    let names = ctx.names();
    let xs = bit_names(names, it.la, it.la.len() as int);
    let las = lemma_sorted_exists(xs);
    lemma_sorted_bit_names(names, it.la, las);
    assert forall|x: Seq<char>| las.contains(x) <==> exists|t: int| 0 <= t < it.la.len() && it.la[t] && #[trigger] names[t] == x by {
        lemma_bit_names(names, it.la, it.la.len() as int, x);
        assert(las.to_set().contains(x) == xs.to_set().contains(x));
    }
    las
}

} // verus!

verus! {

/// Where word `i` begins in the words each after a space, less one: the lengths of the words
/// before it, each with its space.
pub open spec fn spaced_at(ws: Seq<Seq<char>>, i: int) -> int
    decreases i,
{
    if i <= 0 {
        0
    } else {
        spaced_at(ws, i - 1) + 1 + ws[i - 1].len()
    }
}

/// Where word `i` begins in the words separated by a comma and a space.
pub open spec fn joined_at(ws: Seq<Seq<char>>, i: int) -> int
    decreases i,
{
    if i <= 0 {
        0
    } else {
        joined_at(ws, i - 1) + ws[i - 1].len() + 2
    }
}

proof fn lemma_spaced_at_prefix(ws: Seq<Seq<char>>, vs: Seq<Seq<char>>, i: int)
    requires
        0 <= i <= vs.len() <= ws.len(),
        forall|j: int| 0 <= j < vs.len() ==> vs[j] == ws[j],
    ensures
        spaced_at(ws, i) == spaced_at(vs, i),
        joined_at(ws, i) == joined_at(vs, i),
    decreases i,
{
    if i > 0 {
        lemma_spaced_at_prefix(ws, vs, i - 1);
    }
}

proof fn lemma_at_mono(ws: Seq<Seq<char>>, i: int, j: int)
    requires
        0 <= i <= j,
    ensures
        0 <= spaced_at(ws, i) <= spaced_at(ws, j),
        0 <= joined_at(ws, i) <= joined_at(ws, j),
    decreases j,
{
    if j > i {
        lemma_at_mono(ws, i, j - 1);
    } else if i > 0 {
        lemma_at_mono(ws, i - 1, i - 1);
    }
}

proof fn lemma_spaced_len(ws: Seq<Seq<char>>)
    ensures
        spaced(ws).len() == spaced_at(ws, ws.len() as int),
    decreases ws.len(),
{
    if ws.len() > 0 {
        let vs = ws.drop_last();
        lemma_spaced_len(vs);
        lemma_spaced_at_prefix(ws, vs, vs.len() as int);
    }
}

proof fn lemma_spaced_word(ws: Seq<Seq<char>>, i: int)
    requires
        0 <= i < ws.len(),
    ensures
        spaced(ws)[spaced_at(ws, i)] == ' ',
        spaced(ws).subrange(spaced_at(ws, i) + 1, spaced_at(ws, i + 1)) == ws[i],
    decreases ws.len(),
{
    let vs = ws.drop_last();
    let n = vs.len() as int;
    let s = spaced(ws);
    let s0 = spaced(vs);
    assert(s == s0 + seq![' '] + ws.last());
    lemma_spaced_len(vs);
    lemma_spaced_at_prefix(ws, vs, i);
    if i == n {
        assert(s.subrange(spaced_at(ws, i) + 1, spaced_at(ws, i + 1)) =~= ws.last());
    } else {
        lemma_spaced_word(vs, i);
        lemma_spaced_at_prefix(ws, vs, i + 1);
        lemma_at_mono(vs, i, i);
        lemma_at_mono(vs, i + 1, n);
        assert(s.subrange(spaced_at(ws, i) + 1, spaced_at(ws, i + 1)) =~= s0.subrange(spaced_at(vs, i) + 1, spaced_at(vs, i + 1)));
    }
}

/// The words each after a space: a space, then each word in turn, at its place.
pub proof fn lemma_spaced_law(ws: Seq<Seq<char>>)
    ensures
        spaced(ws).len() == spaced_at(ws, ws.len() as int),
        forall|i: int| 0 <= i < ws.len() ==> spaced(ws)[#[trigger] spaced_at(ws, i)] == ' ',
        forall|i: int| 0 <= i < ws.len() ==> spaced(ws).subrange(#[trigger] spaced_at(ws, i) + 1, spaced_at(ws, i + 1)) == ws[i],
{
    lemma_spaced_len(ws);
    assert forall|i: int| 0 <= i < ws.len() implies spaced(ws)[#[trigger] spaced_at(ws, i)] == ' ' by {
        lemma_spaced_word(ws, i);
    }
    assert forall|i: int| 0 <= i < ws.len() implies spaced(ws).subrange(#[trigger] spaced_at(ws, i) + 1, spaced_at(ws, i + 1)) == ws[i] by {
        lemma_spaced_word(ws, i);
    }
}

proof fn lemma_joined_len(ws: Seq<Seq<char>>)
    requires
        ws.len() > 0,
    ensures
        joined(ws).len() == joined_at(ws, ws.len() as int) - 2,
    decreases ws.len(),
{
    reveal_strlit(", ");
    assert(joined_at(ws, 0) == 0);
    if ws.len() > 1 {
        let vs = ws.drop_last();
        lemma_joined_len(vs);
        lemma_spaced_at_prefix(ws, vs, vs.len() as int);
    }
}

proof fn lemma_joined_word(ws: Seq<Seq<char>>, i: int)
    requires
        0 <= i < ws.len(),
    ensures
        joined(ws).subrange(joined_at(ws, i), joined_at(ws, i) + ws[i].len()) == ws[i],
        i > 0 ==> joined(ws).subrange(joined_at(ws, i) - 2, joined_at(ws, i)) == ", "@,
    decreases ws.len(),
{
    reveal_strlit(", ");
    let s = joined(ws);
    assert(joined_at(ws, 0) == 0);
    if ws.len() == 1 {
        assert(s.subrange(0, ws[0].len() as int) =~= ws[0]);
    } else {
        let vs = ws.drop_last();
        let n = vs.len() as int;
        let s0 = joined(vs);
        assert(s == s0 + ", "@ + ws.last());
        assert(", "@.len() == 2);
        lemma_joined_len(vs);
        lemma_spaced_at_prefix(ws, vs, i);
        if i == n {
            lemma_spaced_at_prefix(ws, vs, n);
            assert(s.subrange(joined_at(ws, i), joined_at(ws, i) + ws[i].len()) =~= ws.last());
            assert(s.subrange(joined_at(ws, i) - 2, joined_at(ws, i)) =~= ", "@);
        } else {
            lemma_joined_word(vs, i);
            lemma_at_mono(vs, i, i);
            lemma_at_mono(vs, i + 1, n);
            assert(s.subrange(joined_at(ws, i), joined_at(ws, i) + ws[i].len()) =~= s0.subrange(joined_at(vs, i), joined_at(vs, i) + vs[i].len()));
            if i > 0 {
                lemma_at_mono(vs, i - 1, i - 1);
                assert(joined_at(vs, i) == joined_at(vs, i - 1) + vs[i - 1].len() + 2);
                assert(s.subrange(joined_at(ws, i) - 2, joined_at(ws, i)) =~= s0.subrange(joined_at(vs, i) - 2, joined_at(vs, i)));
            }
        }
    }
}

/// The words separated by a comma and a space: each word in turn, at its place, with `, `
/// between two words and nothing else.
pub proof fn lemma_joined_law(ws: Seq<Seq<char>>)
    requires
        ws.len() > 0,
    ensures
        joined(ws).len() == joined_at(ws, ws.len() as int) - 2,
        forall|i: int| 0 <= i < ws.len() ==> joined(ws).subrange(#[trigger] joined_at(ws, i), joined_at(ws, i) + ws[i].len()) == ws[i],
        forall|i: int| 0 < i < ws.len() ==> joined(ws).subrange(#[trigger] joined_at(ws, i) - 2, joined_at(ws, i)) == ", "@,
{
    lemma_joined_len(ws);
    assert forall|i: int| 0 <= i < ws.len() implies joined(ws).subrange(#[trigger] joined_at(ws, i), joined_at(ws, i) + ws[i].len()) == ws[i] by {
        lemma_joined_word(ws, i);
    }
    assert forall|i: int| 0 < i < ws.len() implies joined(ws).subrange(#[trigger] joined_at(ws, i) - 2, joined_at(ws, i)) == ", "@ by {
        lemma_joined_word(ws, i);
    }
}

} // verus!
