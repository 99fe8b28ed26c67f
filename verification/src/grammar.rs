use vstd::prelude::*;
use vstd::string::*;

verus! {

/// The mathematical value of a grammar symbol.
pub enum SpecSymbol {
    Terminal(Seq<char>),
    NonTerminal(Seq<char>),
}

/// A grammar symbol: a terminal or a non-terminal, named by a string.
#[derive(Clone, Debug, Hash, PartialEq, Eq)]
pub enum Symbol {
    Terminal(String),
    NonTerminal(String),
}

impl View for Symbol {
    type V = SpecSymbol;

    open spec fn view(&self) -> SpecSymbol {
        match self {
            Symbol::Terminal(s) => SpecSymbol::Terminal(s@),
            Symbol::NonTerminal(s) => SpecSymbol::NonTerminal(s@),
        }
    }
}

/// The views of a sequence of strings.
pub open spec fn names_of(v: Seq<String>) -> Seq<Seq<char>> {
    v.map_values(|s: String| s@)
}

/// The views of a sequence of symbols.
pub open spec fn syms_of(v: Seq<Symbol>) -> Seq<SpecSymbol> {
    v.map_values(|s: Symbol| s@)
}

/// The name carried by a symbol, whatever its kind.
pub open spec fn sym_name(s: SpecSymbol) -> Seq<char> {
    match s {
        SpecSymbol::Terminal(n) => n,
        SpecSymbol::NonTerminal(n) => n,
    }
}

impl Symbol {
    /// A copy of the symbol with the same view.
    pub fn copy(&self) -> (r: Symbol)
        ensures
            r@ == self@,
    {
        match self {
            Symbol::Terminal(x) => Symbol::Terminal(x.clone()),
            Symbol::NonTerminal(x) => Symbol::NonTerminal(x.clone()),
        }
    }
}

/// Copies a sequence of symbols.
pub fn copy_symbols(v: &[Symbol]) -> (r: Vec<Symbol>)
    ensures
        syms_of(r@) == syms_of(v@),
{
    let mut r: Vec<Symbol> = Vec::new();
    let mut i: usize = 0;
    while i < v.len()
        invariant
            i <= v@.len(),
            r@.len() == i,
            forall|j: int| 0 <= j < i ==> #[trigger] r@[j]@ == v@[j]@,
        decreases v@.len() - i,
    {
        r.push(v[i].copy());
        i = i + 1;
    }
    assert(syms_of(r@) =~= syms_of(v@));
    r
}

/// Copies a sequence of strings.
pub fn copy_strings(v: &Vec<String>) -> (r: Vec<String>)
    ensures
        names_of(r@) == names_of(v@),
{
    let mut r: Vec<String> = Vec::new();
    let mut i: usize = 0;
    while i < v.len()
        invariant
            i <= v@.len(),
            r@.len() == i,
            forall|j: int| 0 <= j < i ==> #[trigger] r@[j]@ == v@[j]@,
        decreases v@.len() - i,
    {
        r.push(v[i].clone());
        i = i + 1;
    }
    assert(names_of(r@) =~= names_of(v@));
    r
}

/// Whether a string occurs in a list of strings.
pub fn contains_string(v: &[String], s: &String) -> (r: bool)
    ensures
        r == names_of(v@).contains(s@),
{
    let mut i: usize = 0;
    while i < v.len()
        invariant
            i <= v@.len(),
            forall|j: int| 0 <= j < i ==> #[trigger] v@[j]@ != s@,
        decreases v@.len() - i,
    {
        if v[i] == *s {
            assert(names_of(v@)[i as int] == s@);
            return true;
        }
        i = i + 1;
    }
    assert forall|j: int| 0 <= j < names_of(v@).len() implies #[trigger] names_of(v@)[j] != s@ by {
        assert(v@[j]@ != s@);
    }
    false
}

/// The mathematical value of a production.
pub struct SpecProduction {
    pub lhs: Seq<char>,
    pub rhs: Seq<SpecSymbol>,
}

/// A production `nonterminal -> expansion`.
#[derive(Clone, Debug, Hash, PartialEq, Eq)]
pub struct Production {
    pub nonterminal: String,
    pub expansion: Vec<Symbol>,
}

impl View for Production {
    type V = SpecProduction;

    open spec fn view(&self) -> SpecProduction {
        SpecProduction { lhs: self.nonterminal@, rhs: syms_of(self.expansion@) }
    }
}

/// The views of a sequence of productions.
pub open spec fn prods_of(v: Seq<Production>) -> Seq<SpecProduction> {
    v.map_values(|p: Production| p@)
}

impl Production {
    pub fn new(nonterminal: String, expansion: Vec<Symbol>) -> (r: Self)
        ensures
            r.nonterminal == nonterminal,
            r.expansion == expansion,
    {
        Self { nonterminal, expansion }
    }

    /// A copy of the production with the same view.
    pub fn copy(&self) -> (r: Production)
        ensures
            r@ == self@,
    {
        Production { nonterminal: self.nonterminal.clone(), expansion: copy_symbols(self.expansion.as_slice()) }
    }
}

/// Copies a sequence of productions.
pub fn copy_productions(v: &Vec<Production>) -> (r: Vec<Production>)
    ensures
        prods_of(r@) == prods_of(v@),
{
    let mut r: Vec<Production> = Vec::new();
    let mut i: usize = 0;
    while i < v.len()
        invariant
            i <= v@.len(),
            r@.len() == i,
            forall|j: int| 0 <= j < i ==> #[trigger] r@[j]@ == v@[j]@,
        decreases v@.len() - i,
    {
        r.push(v[i].copy());
        i = i + 1;
    }
    assert(prods_of(r@) =~= prods_of(v@));
    r
}

/// The mathematical value of a grammar.
pub struct SpecCfg {
    pub start: Seq<char>,
    pub nonterminals: Seq<Seq<char>>,
    pub terminals: Seq<Seq<char>>,
    pub productions: Seq<SpecProduction>,
}

/// A context-free grammar: its start symbol, its declared non-terminals and
/// terminals (sets: `Cfg::new` takes each name once), and its productions.
#[derive(Debug)]
pub struct Cfg {
    pub start_symbol: String,
    pub nonterminals: Vec<String>,
    pub terminals: Vec<String>,
    pub productions: Vec<Production>,
}

impl View for Cfg {
    type V = SpecCfg;

    open spec fn view(&self) -> SpecCfg {
        SpecCfg {
            start: self.start_symbol@,
            nonterminals: names_of(self.nonterminals@),
            terminals: names_of(self.terminals@),
            productions: prods_of(self.productions@),
        }
    }
}

/// `k` ticks (`'`).
pub open spec fn ticks(k: nat) -> Seq<char> {
    Seq::new(k, |_i: int| '\'')
}

/// A name is taken when the grammar declares it as a non-terminal or a terminal.
pub open spec fn taken(cfg: SpecCfg, s: Seq<char>) -> bool {
    cfg.nonterminals.contains(s) || cfg.terminals.contains(s)
}

/// `r` is `base` followed by the fewest ticks that make it a name the grammar does not declare.
pub open spec fn is_fresh_name(cfg: SpecCfg, base: Seq<char>, r: Seq<char>) -> bool {
    exists|k: nat|
        r == base + #[trigger] ticks(k) && !taken(cfg, r) && forall|j: nat|
            j < k ==> taken(cfg, base + #[trigger] ticks(j))
}

/// The length of the longest name of a list.
pub open spec fn max_len(v: Seq<Seq<char>>) -> nat
    decreases v.len(),
{
    if v.len() == 0 {
        0
    } else {
        let m = max_len(v.drop_last());
        if v.last().len() > m {
            v.last().len()
        } else {
            m
        }
    }
}

pub proof fn lemma_max_len(v: Seq<Seq<char>>, s: Seq<char>)
    requires
        v.contains(s),
    ensures
        s.len() <= max_len(v),
    decreases v.len(),
{
    let i = choose|i: int| 0 <= i < v.len() && v[i] == s;
    if i < v.len() - 1 {
        assert(v.drop_last()[i] == s);
        lemma_max_len(v.drop_last(), s);
    }
}

/// The mathematical value of an augmented grammar.
pub struct SpecAugmentedCfg {
    pub start: Seq<char>,
    pub end: Seq<char>,
    pub nonterminals: Seq<Seq<char>>,
    pub terminals: Seq<Seq<char>>,
    pub productions: Seq<SpecProduction>,
}

/// A grammar extended by a fresh start symbol `S'`, a fresh end marker `$`
/// and the production `S' -> S $`.
pub struct AugmentedCfg {
    pub start_symbol: String,
    pub end_terminal: String,
    pub nonterminals: Vec<String>,
    pub terminals: Vec<String>,
    pub productions: Vec<Production>,
}

impl View for AugmentedCfg {
    type V = SpecAugmentedCfg;

    open spec fn view(&self) -> SpecAugmentedCfg {
        SpecAugmentedCfg {
            start: self.start_symbol@,
            end: self.end_terminal@,
            nonterminals: names_of(self.nonterminals@),
            terminals: names_of(self.terminals@),
            productions: prods_of(self.productions@),
        }
    }
}

/// The augmentation of `cfg` with the given fresh start symbol and end marker.
pub open spec fn augmented_with(cfg: SpecCfg, start: Seq<char>, end: Seq<char>) -> SpecAugmentedCfg {
    SpecAugmentedCfg {
        start: start,
        end: end,
        nonterminals: cfg.nonterminals.push(start),
        terminals: cfg.terminals,
        productions: cfg.productions.push(
            SpecProduction {
                lhs: start,
                rhs: seq![SpecSymbol::NonTerminal(cfg.start), SpecSymbol::Terminal(end)],
            },
        ),
    }
}

/// `a` is the augmentation of `cfg`: its start symbol is `S'` and its end marker `$`,
/// each followed by as many ticks as make it undeclared in `cfg`.
pub open spec fn is_augmentation(cfg: SpecCfg, a: SpecAugmentedCfg) -> bool {
    &&& is_fresh_name(cfg, "S'"@, a.start)
    &&& is_fresh_name(cfg, "$"@, a.end)
    &&& a == augmented_with(cfg, a.start, a.end)
}

/// At most one name is fresh for a grammar and a base.
pub proof fn lemma_fresh_name_unique(cfg: SpecCfg, base: Seq<char>, r1: Seq<char>, r2: Seq<char>)
    requires
        is_fresh_name(cfg, base, r1),
        is_fresh_name(cfg, base, r2),
    ensures
        r1 == r2,
{
    let k1 = choose|k: nat|
        r1 == base + #[trigger] ticks(k) && !taken(cfg, r1) && forall|j: nat| j < k ==> taken(cfg, base + #[trigger] ticks(j));
    let k2 = choose|k: nat|
        r2 == base + #[trigger] ticks(k) && !taken(cfg, r2) && forall|j: nat| j < k ==> taken(cfg, base + #[trigger] ticks(j));
    if k1 < k2 {
        assert(taken(cfg, base + ticks(k1)));
    } else if k2 < k1 {
        assert(taken(cfg, base + ticks(k2)));
    }
}

/// A grammar has at most one augmentation: the fresh start symbol and end marker are
/// determined by the names the grammar declares.
pub proof fn lemma_augmentation_unique(cfg: SpecCfg, a: SpecAugmentedCfg, b: SpecAugmentedCfg)
    requires
        is_augmentation(cfg, a),
        is_augmentation(cfg, b),
    ensures
        a == b,
{
    lemma_fresh_name_unique(cfg, "S'"@, a.start, b.start);
    lemma_fresh_name_unique(cfg, "$"@, a.end, b.end);
}

impl Cfg {
    pub fn new(
        start_symbol: String,
        nonterminals: Vec<String>,
        terminals: Vec<String>,
        productions: Vec<Production>,
    ) -> (r: Self)
        requires
            names_of(nonterminals@).no_duplicates(),
            names_of(terminals@).no_duplicates(),
        ensures
            r.start_symbol == start_symbol,
            r.nonterminals == nonterminals,
            r.terminals == terminals,
            r.productions == productions,
    {
        Self { start_symbol, nonterminals, terminals, productions }
    }

    /// Appends ticks to `s` until no declared symbol has its name.
    fn append_until_unique(&self, s: String) -> (r: String)
        ensures
            is_fresh_name(self@, s@, r@),
    {
        let ghost base = s@;
        let ghost bound = max_len(self@.nonterminals) + max_len(self@.terminals);
        let mut s = s;
        let ghost mut k: nat = 0;
        assert(s@ =~= base + ticks(0));
        while contains_string(self.nonterminals.as_slice(), &s) || contains_string(
            self.terminals.as_slice(),
            &s,
        )
            invariant
                s@ == base + ticks(k),
                k <= bound + 1,
                bound == max_len(self@.nonterminals) + max_len(self@.terminals),
                forall|j: nat| j < k ==> taken(self@, base + #[trigger] ticks(j)),
            decreases bound + 1 - k,
        {
            proof {
                if self@.nonterminals.contains(s@) {
                    lemma_max_len(self@.nonterminals, s@);
                } else {
                    lemma_max_len(self@.terminals, s@);
                }
                assert(taken(self@, base + ticks(k)));
            }
            let tick = "'";
            proof {
                reveal_strlit("'");
            }
            s.append(tick);
            proof {
                assert(base + ticks(k + 1) =~= base + ticks(k) + seq!['\'']);
                assert forall|j: nat| j < k + 1 implies taken(self@, base + #[trigger] ticks(j)) by {
                    if j == k {
                    }
                }
                k = k + 1;
            }
        }
        assert(!taken(self@, s@));
        s
    }

    /// The grammar extended by a fresh start symbol and a fresh end marker.
    pub fn augment_grammar(&self) -> (r: AugmentedCfg)
        ensures
            is_augmentation(self@, r@),
    {
        let new_start_symbol = self.append_until_unique(String::from_str("S'"));
        let end_terminal = self.append_until_unique(String::from_str("$"));
        proof {
            reveal_strlit("S'");
            reveal_strlit("$");
        }
        let mut new_nonterminals = copy_strings(&self.nonterminals);
        new_nonterminals.push(new_start_symbol.clone());
        let mut new_productions = copy_productions(&self.productions);
        let rhs = vec![
            Symbol::NonTerminal(self.start_symbol.clone()),
            Symbol::Terminal(end_terminal.clone()),
        ];
        new_productions.push(Production::new(new_start_symbol.clone(), rhs));
        let r = AugmentedCfg {
            start_symbol: new_start_symbol,
            end_terminal,
            nonterminals: new_nonterminals,
            terminals: copy_strings(&self.terminals),
            productions: new_productions,
        };
        proof {
            assert(names_of(r.nonterminals@) =~= self@.nonterminals.push(r.start_symbol@));
            assert(syms_of(rhs@) =~= seq![SpecSymbol::NonTerminal(self@.start), SpecSymbol::Terminal(r.end_terminal@)]);
            assert(prods_of(r.productions@) =~= self@.productions.push(
                SpecProduction {
                    lhs: r.start_symbol@,
                    rhs: seq![SpecSymbol::NonTerminal(self@.start), SpecSymbol::Terminal(r.end_terminal@)],
                },
            ));
        }
        r
    }
}

} // verus!
