use vstd::prelude::*;
use crate::grammar::{names_of, Symbol, SpecSymbol, SpecProduction, Production, prods_of, syms_of};
use crate::analysis::{Sym, SpecIProd, IProduction, iprods, wf_grammar, wf_prod};

verus! {

/// The names of the symbols of a grammar, each once; a symbol is named by its index here.
pub struct SymbolTable {
    pub names: Vec<String>,
}

impl SymbolTable {
    pub open spec fn view_names(&self) -> Seq<Seq<char>> {
        names_of(self.names@)
    }

    pub open spec fn wf(&self) -> bool {
        self.view_names().no_duplicates()
    }

    pub fn new() -> (r: Self)
        ensures
            r.names@.len() == 0,
            r.wf(),
    {
        SymbolTable { names: Vec::new() }
    }

    pub fn len(&self) -> (r: usize)
        ensures
            r == self.names@.len(),
    {
        self.names.len()
    }

    /// The index of the name `s`, if the table holds it.
    pub fn lookup(&self, s: &String) -> (r: Option<usize>)
        requires
            self.wf(),
        ensures
            match r {
                Some(i) => i < self.names@.len() && self.view_names()[i as int] == s@,
                None => !self.view_names().contains(s@),
            },
    {
        let mut i: usize = 0;
        while i < self.names.len()
            invariant
                i <= self.names@.len(),
                forall|j: int| 0 <= j < i ==> #[trigger] self.names@[j]@ != s@,
            decreases self.names@.len() - i,
        {
            if self.names[i] == *s {
                return Some(i);
            }
            i = i + 1;
        }
        assert forall|j: int| 0 <= j < self.view_names().len() implies #[trigger] self.view_names()[j] != s@ by {
            assert(self.names@[j]@ != s@);
        }
        None
    }

    /// The index of the name `s`, added at the end when the table does not hold it yet.
    pub fn intern(&mut self, s: &String) -> (id: usize)
        requires
            old(self).wf(),
        ensures
            final(self).wf(),
            id < final(self).names@.len(),
            final(self).view_names()[id as int] == s@,
            old(self).view_names().contains(s@) ==> final(self).view_names() == old(self).view_names(),
            !old(self).view_names().contains(s@) ==> final(self).view_names() == old(self).view_names().push(s@),
    {
        match self.lookup(s) {
            Some(i) => i,
            None => {
                let ghost old_names = self.view_names();
                self.names.push(s.clone());
                assert(self.view_names() =~= old_names.push(s@));
                assert forall|i: int, j: int|
                    0 <= i < self.view_names().len() && 0 <= j < self.view_names().len() && i != j
                    implies #[trigger] self.view_names()[i] != #[trigger] self.view_names()[j] by {
                    if i < old_names.len() && j < old_names.len() {
                    } else if i == old_names.len() {
                        assert(old_names[j] == self.view_names()[j]);
                    } else {
                        assert(old_names[i] == self.view_names()[i]);
                    }
                }
                self.names.len() - 1
            },
        }
    }
}

/// The symbol `s` stands for `v` under the names `names`.
pub open spec fn sym_matches(names: Seq<Seq<char>>, s: Sym, v: SpecSymbol) -> bool {
    s.id < names.len() && match v {
        SpecSymbol::Terminal(x) => s.terminal && names[s.id as int] == x,
        SpecSymbol::NonTerminal(x) => !s.terminal && names[s.id as int] == x,
    }
}

pub open spec fn prod_matches(names: Seq<Seq<char>>, ip: SpecIProd, p: SpecProduction) -> bool {
    &&& ip.lhs < names.len()
    &&& names[ip.lhs as int] == p.lhs
    &&& ip.rhs.len() == p.rhs.len()
    &&& forall|i: int| 0 <= i < ip.rhs.len() ==> #[trigger] sym_matches(names, ip.rhs[i], p.rhs[i])
}

/// The productions `g` over indices stand for the productions `ps` under the names `names`.
pub open spec fn grammar_matches(names: Seq<Seq<char>>, g: Seq<SpecIProd>, ps: Seq<SpecProduction>) -> bool {
    &&& g.len() == ps.len()
    &&& forall|k: int| 0 <= k < g.len() ==> #[trigger] prod_matches(names, g[k], ps[k])
}

pub proof fn lemma_prod_matches_extend(
    names: Seq<Seq<char>>,
    names2: Seq<Seq<char>>,
    ip: SpecIProd,
    p: SpecProduction,
)
    requires
        prod_matches(names, ip, p),
        names.len() <= names2.len(),
        forall|i: int| 0 <= i < names.len() ==> #[trigger] names2[i] == names[i],
    ensures
        prod_matches(names2, ip, p),
{
    assert forall|i: int| 0 <= i < ip.rhs.len() implies #[trigger] sym_matches(names2, ip.rhs[i], p.rhs[i]) by {
        assert(sym_matches(names, ip.rhs[i], p.rhs[i]));
    }
}

pub proof fn lemma_matches_wf(names: Seq<Seq<char>>, g: Seq<SpecIProd>, ps: Seq<SpecProduction>)
    requires
        grammar_matches(names, g, ps),
    ensures
        wf_grammar(g, names.len()),
{
    assert forall|k: int| 0 <= k < g.len() implies #[trigger] wf_prod(g[k], names.len()) by {
        assert(prod_matches(names, g[k], ps[k]));
        assert forall|i: int| 0 <= i < g[k].rhs.len() implies (#[trigger] g[k].rhs[i]).id < names.len() by {
            assert(sym_matches(names, g[k].rhs[i], ps[k].rhs[i]));
        }
    }
}

/// Interns a symbol.
pub fn intern_symbol(table: &mut SymbolTable, s: &Symbol) -> (r: Sym)
    requires
        old(table).wf(),
    ensures
        final(table).wf(),
        sym_matches(final(table).view_names(), r, s@),
        old(table).view_names().len() <= final(table).view_names().len(),
        forall|i: int| 0 <= i < old(table).view_names().len() ==> #[trigger] final(table).view_names()[i]
            == old(table).view_names()[i],
{
    match s {
        Symbol::Terminal(x) => {
            let id = table.intern(x);
            Sym { terminal: true, id }
        },
        Symbol::NonTerminal(x) => {
            let id = table.intern(x);
            Sym { terminal: false, id }
        },
    }
}

/// Names every symbol of `prods` by its index in a table of the names, in order of first
/// occurrence.
pub fn intern_grammar(prods: &Vec<Production>) -> (r: (SymbolTable, Vec<IProduction>))
    ensures
        r.0.wf(),
        grammar_matches(r.0.view_names(), iprods(r.1@), prods_of(prods@)),
        wf_grammar(iprods(r.1@), r.0.names@.len() as nat),
{
    let mut table = SymbolTable::new();
    let mut g: Vec<IProduction> = Vec::new();
    let mut k: usize = 0;
    while k < prods.len()
        invariant
            k <= prods@.len(),
            table.wf(),
            g@.len() == k,
            forall|j: int| 0 <= j < k ==> #[trigger] prod_matches(table.view_names(), iprods(g@)[j], prods_of(prods@)[j]),
        decreases prods@.len() - k,
    {
        let p = &prods[k];
        let ghost names0 = table.view_names();
        let lhs = table.intern(&p.nonterminal);
        let mut rhs: Vec<Sym> = Vec::new();
        let mut i: usize = 0;
        while i < p.expansion.len()
            invariant
                p == &prods@[k as int],
                i <= p.expansion@.len(),
                rhs@.len() == i,
                table.wf(),
                lhs < table.names@.len(),
                table.view_names()[lhs as int] == p.nonterminal@,
                names0.len() <= table.view_names().len(),
                forall|j: int| 0 <= j < names0.len() ==> #[trigger] table.view_names()[j] == names0[j],
                forall|j: int| 0 <= j < i ==> #[trigger] sym_matches(table.view_names(), rhs@[j], p.expansion@[j]@),
            decreases p.expansion@.len() - i,
        {
            let ghost names1 = table.view_names();
            let s = intern_symbol(&mut table, &p.expansion[i]);
            proof {
                assert forall|j: int| 0 <= j < i implies #[trigger] sym_matches(table.view_names(), rhs@[j], p.expansion@[j]@) by {
                    assert(sym_matches(names1, rhs@[j], p.expansion@[j]@));
                }
            }
            rhs.push(s);
            i = i + 1;
        }
        let ghost names2 = table.view_names();
        let ip = IProduction { lhs, rhs };
        proof {
            assert(prods_of(prods@)[k as int] == p@);
            assert forall|i: int| 0 <= i < ip@.rhs.len() implies #[trigger] sym_matches(names2, ip@.rhs[i], p@.rhs[i]) by {
                assert(sym_matches(names2, rhs@[i], p.expansion@[i]@));
            }
            assert(prod_matches(names2, ip@, p@));
            assert forall|j: int| 0 <= j < k implies #[trigger] prod_matches(names2, iprods(g@)[j], prods_of(prods@)[j]) by {
                assert(prod_matches(names0, iprods(g@)[j], prods_of(prods@)[j]));
                lemma_prod_matches_extend(names0, names2, iprods(g@)[j], prods_of(prods@)[j]);
            }
        }
        let ghost ipv = ip@;
        let ghost g0 = g@;
        g.push(ip);
        proof {
            assert(g@ == g0.push(g@[k as int]));
            assert(iprods(g@)[k as int] == ipv);
            assert forall|j: int| 0 <= j < k + 1 implies #[trigger] prod_matches(table.view_names(), iprods(g@)[j], prods_of(prods@)[j]) by {
                if j < k {
                    assert(iprods(g@)[j] == iprods(g0)[j]);
                }
            }
        }
        k = k + 1;
    }
    proof {
        lemma_matches_wf(table.view_names(), iprods(g@), prods_of(prods@));
    }
    (table, g)
}

} // verus!
