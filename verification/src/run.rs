use vstd::prelude::*;
use crate::bits::mem;
use crate::analysis::{Sym, SpecIProd};
use crate::grammar::SpecSymbol;
use crate::closure::ItemView;
use crate::parser::{Lr1Parser, is_reduce, reduce_on, least_reduce, conflicted, rr_conflict, has_rr, sr_conflict, has_sr, shift_on, is_shift_of};
use crate::driver::{state_below, goto_of, tokens, path_ok};
use crate::dfa::{has_entry, row_ok, after_sym};

verus! {

/// A configuration of the parse: the states of the stack, the symbols beside them, the
/// productions reduced by so far, and the number of terminals read.
pub struct Config {
    pub st: Seq<usize>,
    pub syms: Seq<Sym>,
    pub ds: Seq<usize>,
    pub k: nat,
}

/// One move of the parse: to the next configuration, or a rejection in a state that has no
/// transition on a symbol.
pub enum Move {
    Next(Config),
    Reject(int, SpecSymbol),
}

/// How a parse ends: accepted with the productions reduced by, rejected in a state on a
/// symbol, or not within the moves allowed.
pub enum Outcome {
    Accepted(Seq<usize>),
    Rejected(int, SpecSymbol),
    Unfinished,
}

/// The index of the name `x`, or -1 when no symbol has it.
pub open spec fn id_of(names: Seq<Seq<char>>, x: Seq<char>) -> int {
    if names.contains(x) {
        choose|i: int| 0 <= i < names.len() && names[i] == x
    } else {
        -1
    }
}

/// The production the state reduces by on the lookahead `t`, if any: the least production of
/// its reduce items with that lookahead.
pub open spec fn reduce_choice(g: Seq<SpecIProd>, s: Seq<ItemView>, t: int) -> Option<usize> {
    if reduce_on(g, s, t) {
        Some(choose|q: usize| least_reduce(g, s, t, q as int))
    } else {
        None
    }
}

/// The target of the first transition from entry `e` on of a row that is on `x`.
pub open spec fn goto_target(row: Seq<(Sym, usize)>, x: Sym, e: int) -> Option<usize>
    decreases row.len() - e,
{
    if e < 0 || e >= row.len() {
        None
    } else if row[e].0 == x {
        Some(row[e].1)
    } else {
        goto_target(row, x, e + 1)
    }
}

/// The production the parse reduces by in configuration `c`: the least production of the
/// reduce items of the state on top of the stack whose lookaheads hold the next terminal.
pub open spec fn reduction(p: Lr1Parser, all: Seq<Seq<char>>, c: Config) -> Option<usize> {
    let t = id_of(p.cfgctx.names(), all[c.k as int]);
    if t >= 0 {
        reduce_choice(p.cfgctx.g(), p.states()[state_below(c.st, c.st.len() as int)], t)
    } else {
        None
    }
}

/// The move from configuration `c` when `all` is the input with its end marker: a reduction
/// when there is one, popping the right side and taking the transition on the left side from
/// the state below; else the shift of the next terminal.
pub open spec fn next_move(p: Lr1Parser, all: Seq<Seq<char>>, c: Config) -> Move {
    let g = p.cfgctx.g();
    let l = c.st.len() as int;
    let top = state_below(c.st, l);
    let t = id_of(p.cfgctx.names(), all[c.k as int]);
    match reduction(p, all, c) {
        Some(q) => {
            let m = l - g[q as int].rhs.len();
            let below = state_below(c.st, m);
            let x = Sym { terminal: false, id: g[q as int].lhs };
            match goto_target(p.trans()[below], x, 0) {
                Some(j) => Move::Next(Config { st: c.st.take(m).push(j), syms: c.syms.take(m).push(x), ds: c.ds.push(q), k: c.k }),
                None => Move::Reject(below, SpecSymbol::NonTerminal(p.cfgctx.augmented_cfg@.productions[q as int].lhs)),
            }
        },
        None => {
            if t < 0 {
                Move::Reject(top, SpecSymbol::Terminal(all[c.k as int]))
            } else {
                let x = Sym { terminal: true, id: t as usize };
                match goto_target(p.trans()[top], x, 0) {
                    Some(j) => Move::Next(Config { st: c.st.push(j), syms: c.syms.push(x), ds: c.ds, k: c.k + 1 }),
                    None => Move::Reject(top, SpecSymbol::Terminal(all[c.k as int])),
                }
            }
        },
    }
}

/// The parse from `c`, within `fuel` moves: accepted once every terminal is read.
pub open spec fn run(p: Lr1Parser, all: Seq<Seq<char>>, c: Config, fuel: nat) -> Outcome
    decreases fuel,
{
    if c.k >= all.len() {
        Outcome::Accepted(c.ds)
    } else if fuel == 0 {
        Outcome::Unfinished
    } else {
        match next_move(p, all, c) {
            Move::Next(c2) => run(p, all, c2, (fuel - 1) as nat),
            Move::Reject(s, v) => Outcome::Rejected(s, v),
        }
    }
}

/// The configuration after `m` moves from `c`, if the parse goes on that long.
pub open spec fn after(p: Lr1Parser, all: Seq<Seq<char>>, c: Config, m: nat) -> Option<Config>
    decreases m,
{
    if m == 0 {
        Some(c)
    } else {
        match after(p, all, c, (m - 1) as nat) {
            Some(c1) => if c1.k >= all.len() {
                None
            } else {
                match next_move(p, all, c1) {
                    Move::Next(c2) => Some(c2),
                    Move::Reject(_, _) => None,
                }
            },
            None => None,
        }
    }
}

/// The parse moves from `c0` to `c1`.
pub open spec fn reaches(p: Lr1Parser, all: Seq<Seq<char>>, c0: Config, c1: Config) -> bool {
    exists|m: nat| #[trigger] after(p, all, c0, m) == Some(c1)
}

/// The configuration a parse starts from.
pub open spec fn start_config() -> Config {
    Config { st: Seq::empty(), syms: Seq::empty(), ds: Seq::empty(), k: 0 }
}

/// The parse of `input`, followed by the end marker, ends with `o`.
pub open spec fn parse_ends(p: Lr1Parser, input: Seq<&str>, o: Outcome) -> bool {
    exists|fuel: nat| #[trigger] run(p, tokens(input).push(p.cfgctx.augmented_cfg@.end), start_config(), fuel) == o
}

/// Running on from a configuration the parse reaches.
pub proof fn lemma_after_run(p: Lr1Parser, all: Seq<Seq<char>>, c: Config, c1: Config, m: nat, f: nat)
    requires
        after(p, all, c, m) == Some(c1),
    ensures
        run(p, all, c, m + f) == run(p, all, c1, f),
    decreases m,
{
    if m > 0 {
        let c0 = after(p, all, c, (m - 1) as nat).unwrap();
        lemma_after_run(p, all, c, c0, (m - 1) as nat, f + 1);
        assert((m - 1) as nat + (f + 1) == m + f);
    }
}

/// Moves compose.
pub proof fn lemma_after_trans(p: Lr1Parser, all: Seq<Seq<char>>, c0: Config, c1: Config, c2: Config, a: nat, b: nat)
    requires
        after(p, all, c0, a) == Some(c1),
        after(p, all, c1, b) == Some(c2),
    ensures
        after(p, all, c0, a + b) == Some(c2),
    decreases b,
{
    if b > 0 {
        let c3 = after(p, all, c1, (b - 1) as nat).unwrap();
        lemma_after_trans(p, all, c0, c1, c3, a, (b - 1) as nat);
        assert(a + b - 1 == a + (b - 1) as nat);
    }
}

pub proof fn lemma_reaches_trans(p: Lr1Parser, all: Seq<Seq<char>>, c0: Config, c1: Config, c2: Config)
    requires
        reaches(p, all, c0, c1),
        reaches(p, all, c1, c2),
    ensures
        reaches(p, all, c0, c2),
{
    let a = choose|m: nat| #[trigger] after(p, all, c0, m) == Some(c1);
    let b = choose|m: nat| #[trigger] after(p, all, c1, m) == Some(c2);
    lemma_after_trans(p, all, c0, c1, c2, a, b);
}

/// A move to the next configuration is reached.
pub proof fn lemma_reaches_move(p: Lr1Parser, all: Seq<Seq<char>>, c0: Config, c1: Config)
    requires
        c0.k < all.len(),
        next_move(p, all, c0) == Move::Next(c1),
    ensures
        reaches(p, all, c0, c1),
{
    assert(after(p, all, c0, 0) == Some(c0));
    assert(after(p, all, c0, 1) == Some(c1));
}

/// Every configuration reaches itself.
pub proof fn lemma_reaches_refl(p: Lr1Parser, all: Seq<Seq<char>>, c: Config)
    ensures
        reaches(p, all, c, c),
{
    assert(after(p, all, c, 0) == Some(c));
}

/// A parse that reaches a configuration ends as the parse from it does.
pub proof fn lemma_reaches_run(p: Lr1Parser, all: Seq<Seq<char>>, c0: Config, c1: Config, f: nat) -> (m: nat)
    requires
        reaches(p, all, c0, c1),
    ensures
        run(p, all, c0, m + f) == run(p, all, c1, f),
{
    let m = choose|m: nat| #[trigger] after(p, all, c0, m) == Some(c1);
    lemma_after_run(p, all, c0, c1, m, f);
    m
}

/// The parse ends the same way whatever fuel lets it end.
pub proof fn lemma_run_deterministic(p: Lr1Parser, all: Seq<Seq<char>>, c: Config, f1: nat, f2: nat)
    requires
        run(p, all, c, f1) != Outcome::Unfinished,
        run(p, all, c, f2) != Outcome::Unfinished,
    ensures
        run(p, all, c, f1) == run(p, all, c, f2),
    decreases f1,
{
    if c.k < all.len() && f1 > 0 && f2 > 0 {
        match next_move(p, all, c) {
            Move::Next(c2) => {
                lemma_run_deterministic(p, all, c2, (f1 - 1) as nat, (f2 - 1) as nat);
            },
            Move::Reject(_, _) => {},
        }
    }
}

/// A parse has one outcome: a parse that ends one way does not end another way.
pub proof fn lemma_parse_ends_unique(p: Lr1Parser, input: Seq<&str>, o1: Outcome, o2: Outcome)
    requires
        parse_ends(p, input, o1),
        parse_ends(p, input, o2),
        o1 != Outcome::Unfinished,
        o2 != Outcome::Unfinished,
    ensures
        o1 == o2,
{
    let all = tokens(input).push(p.cfgctx.augmented_cfg@.end);
    let f1 = choose|fuel: nat| #[trigger] run(p, all, start_config(), fuel) == o1;
    let f2 = choose|fuel: nat| #[trigger] run(p, all, start_config(), fuel) == o2;
    lemma_run_deterministic(p, all, start_config(), f1, f2);
}

/// The least production of the reduce items with a lookahead is the one the state reduces by.
pub proof fn lemma_reduce_choice(g: Seq<SpecIProd>, s: Seq<ItemView>, t: int, q: usize)
    requires
        least_reduce(g, s, t, q as int),
    ensures
        reduce_choice(g, s, t) == Some(q),
{
    let i = choose|i: int| 0 <= i < s.len() && is_reduce(g, #[trigger] s[i]) && mem(s[i].la, t) && s[i].p == q as int;
    assert(reduce_on(g, s, t));
    let c = choose|c: usize| least_reduce(g, s, t, c as int);
    let ic = choose|i: int| 0 <= i < s.len() && is_reduce(g, #[trigger] s[i]) && mem(s[i].la, t) && s[i].p == c as int;
    assert(q <= s[ic].p);
    assert(c <= s[i].p);
}

/// In a row whose entries are on distinct symbols, the target on `x` is that of its entry.
pub proof fn lemma_goto_target(row: Seq<(Sym, usize)>, x: Sym, e0: int, j: usize)
    requires
        0 <= e0,
        forall|e1: int, e2: int| 0 <= e1 < row.len() && 0 <= e2 < row.len() && e1 != e2 ==> (#[trigger] row[e1]).0 != (#[trigger] row[e2]).0,
        exists|e: int| e0 <= e < row.len() && row[e] == (x, j),
    ensures
        goto_target(row, x, e0) == Some(j),
    decreases row.len() - e0,
{
    let e = choose|e: int| e0 <= e < row.len() && row[e] == (x, j);
    if e0 < e {
        assert(row[e0].0 != x) by {
            assert(row[e0].0 != row[e].0);
        }
        lemma_goto_target(row, x, e0 + 1, j);
    }
}

/// A row with no entry on `x` has no target on it.
pub proof fn lemma_goto_target_none(row: Seq<(Sym, usize)>, x: Sym, e0: int)
    requires
        0 <= e0,
        !has_entry(row, x),
    ensures
        goto_target(row, x, e0) == None::<usize>,
    decreases row.len() - e0,
{
    if e0 < row.len() {
        assert(row[e0].0 != x);
        lemma_goto_target_none(row, x, e0 + 1);
    }
}

/// What the transition lookup finds is the target of the row.
pub proof fn lemma_transition_target(p: Lr1Parser, from: int, x: Sym, r: Option<usize>)
    requires
        p.wf(),
        0 <= from < p.states().len(),
        match r {
            Some(j) => goto_of(p.trans(), from, x, j),
            None => !has_entry(p.trans()[from], x),
        },
    ensures
        goto_target(p.trans()[from], x, 0) == r,
{
    assert(row_ok(p.cfgctx, p.states(), p.trans(), from));
    match r {
        Some(j) => lemma_goto_target(p.trans()[from], x, 0, j),
        None => lemma_goto_target_none(p.trans()[from], x, 0),
    }
}

/// The index of a name the symbol table holds.
pub proof fn lemma_id_of(names: Seq<Seq<char>>, i: int)
    requires
        names.no_duplicates(),
        0 <= i < names.len(),
    ensures
        id_of(names, names[i]) == i,
{
    let x = names[i];
    assert(names.contains(x));
    let j = choose|j: int| 0 <= j < names.len() && names[j] == x;
}

/// In a state without conflict, the parse does what any item of the state on top of the
/// stack calls for on the next terminal: it reduces by the production of a reduce item that
/// has the terminal as lookahead, and it shifts the terminal when an item has it after its dot.
pub proof fn lemma_move_follows_item(p: Lr1Parser, all: Seq<Seq<char>>, c: Config, it: ItemView)
    requires
        p.wf(),
        c.k < all.len(),
        path_ok(p, c.st, c.syms),
        id_of(p.cfgctx.names(), all[c.k as int]) >= 0,
        !conflicted(p.cfgctx.g(), p.states()[state_below(c.st, c.st.len() as int)]),
        p.states()[state_below(c.st, c.st.len() as int)].contains(it),
    ensures
        is_reduce(p.cfgctx.g(), it) && mem(it.la, id_of(p.cfgctx.names(), all[c.k as int]))
            ==> reduction(p, all, c) == Some(it.p),
        is_shift_of(p.cfgctx.g(), it, id_of(p.cfgctx.names(), all[c.k as int])) ==> {
            &&& reduction(p, all, c) == None::<usize>
            &&& next_move(p, all, c) is Next
        },
{
    let g = p.cfgctx.g();
    let top = state_below(c.st, c.st.len() as int);
    let s = p.states()[top];
    let t = id_of(p.cfgctx.names(), all[c.k as int]);
    let m = choose|m: int| 0 <= m < s.len() && s[m] == it;
    if c.st.len() > 0 {
        assert(c.st[c.st.len() - 1] < p.states().len());
    }
    if is_reduce(g, it) && mem(it.la, t) {
        assert forall|i: int| 0 <= i < s.len() && is_reduce(g, #[trigger] s[i]) && mem(s[i].la, t) implies it.p <= s[i].p by {
            if s[i].p != s[m].p {
                assert(rr_conflict(g, s, t));
                assert(has_rr(g, s));
            }
        }
        assert(least_reduce(g, s, t, it.p as int));
        lemma_reduce_choice(g, s, t, it.p);
    }
    if is_shift_of(g, it, t) {
        assert(shift_on(g, s, t));
        if reduce_on(g, s, t) {
            assert(sr_conflict(g, s, t));
            assert(has_sr(g, s));
        }
        assert(row_ok(p.cfgctx, p.states(), p.trans(), top));
        let x = Sym { terminal: true, id: t as usize };
        assert(after_sym(g, s[m]) == Some(x));
        assert(has_entry(p.trans()[top], x));
        let e = choose|e: int| 0 <= e < p.trans()[top].len() && (#[trigger] p.trans()[top][e]).0 == x;
        let j = p.trans()[top][e].1;
        assert(goto_of(p.trans(), top, x, j));
        lemma_transition_target(p, top, x, Some(j));
    }
}

} // verus!
