use vstd::prelude::*;
use crate::bits::{mem, falses};
use crate::analysis::{Sym, SpecIProd};
use crate::grammar::{Cfg, SpecCfg, SpecAugmentedCfg, SpecSymbol, is_augmentation, lemma_augmentation_unique, sym_name, taken, ticks};
use crate::context::{CfgContext, rows};
use crate::closure::{ItemView, LrItem, items_view, valid_item};
use crate::dfa::{after_sym, dfa_ok, states_view, trans_view, build_dfa};
use crate::format::item_lt;
use crate::order::{str_lt, str_less, lemma_str_lt_total, lemma_str_lt_transitive};

verus! {

/// The LR(1) automaton: its states, each a list of items, and for each state its transitions,
/// each a symbol and the state it leads to.
pub struct Dfa {
    pub states: Vec<Vec<LrItem>>,
    pub transitions: Vec<Vec<(Sym, usize)>>,
}

/// An LR(1) parser of a grammar: the grammar's context and its LR(1) automaton, built from
/// the item `start`.
pub struct Lr1Parser {
    pub cfgctx: CfgContext,
    pub dfa: Dfa,
    pub start: LrItem,
}

/// The two kinds of conflict that make a grammar not LR(1).
#[derive(Clone, Copy, Debug, PartialEq, Eq, Structural)]
pub enum ConflictKind {
    ReduceReduce,
    ShiftReduce,
}

/// A conflict in state `state_id` on the lookahead terminal of index `lookahead`.
#[derive(Clone, Copy, Debug, PartialEq, Eq, Structural)]
pub struct Conflict {
    pub kind: ConflictKind,
    pub state_id: usize,
    pub lookahead: usize,
}

/// Why no parser is built for a grammar.
pub enum Lr1Error {
    /// The augmented start symbol has no production or more than one.
    StartProductions,
    /// The grammar is not LR(1): the automaton, built, has a conflict.
    Conflict(Lr1Parser, Conflict),
}

/// The item reduces: its dot is at the end of its production.
pub open spec fn is_reduce(g: Seq<SpecIProd>, it: ItemView) -> bool {
    after_sym(g, it).is_none()
}

/// Reduce items of two different productions in the state have the lookahead `t`.
pub open spec fn rr_conflict(g: Seq<SpecIProd>, s: Seq<ItemView>, t: int) -> bool {
    exists|i: int, j: int|
        0 <= i < s.len() && 0 <= j < s.len() && s[i].p != s[j].p && is_reduce(g, #[trigger] s[i]) && is_reduce(g, #[trigger] s[j])
            && mem(s[i].la, t) && mem(s[j].la, t)
}

/// `q` is the least production of the reduce items of the state with the lookahead `t`:
/// that of the first of them in the order in which the state's items are listed.
pub open spec fn least_reduce(g: Seq<SpecIProd>, s: Seq<ItemView>, t: int, q: int) -> bool {
    &&& exists|i: int| 0 <= i < s.len() && is_reduce(g, #[trigger] s[i]) && mem(s[i].la, t) && s[i].p == q
    &&& forall|i: int| 0 <= i < s.len() && is_reduce(g, #[trigger] s[i]) && mem(s[i].la, t) ==> q <= s[i].p
}

/// Some reduce item of the state has the lookahead `t`.
pub open spec fn reduce_on(g: Seq<SpecIProd>, s: Seq<ItemView>, t: int) -> bool {
    exists|i: int| 0 <= i < s.len() && is_reduce(g, #[trigger] s[i]) && mem(s[i].la, t)
}

/// The item shifts the terminal `t`.
pub open spec fn is_shift_of(g: Seq<SpecIProd>, it: ItemView, t: int) -> bool {
    match after_sym(g, it) {
        Some(x) => x.terminal && x.id == t,
        None => false,
    }
}

/// Some item of the state shifts the terminal `t`.
pub open spec fn shift_on(g: Seq<SpecIProd>, s: Seq<ItemView>, t: int) -> bool {
    exists|i: int| 0 <= i < s.len() && is_shift_of(g, #[trigger] s[i], t)
}

/// The state may both reduce and shift on the lookahead `t`.
pub open spec fn sr_conflict(g: Seq<SpecIProd>, s: Seq<ItemView>, t: int) -> bool {
    reduce_on(g, s, t) && shift_on(g, s, t)
}

/// The state has a reduce-reduce conflict.
pub open spec fn has_rr(g: Seq<SpecIProd>, s: Seq<ItemView>) -> bool {
    exists|t: int| #[trigger] rr_conflict(g, s, t)
}

/// The state has a shift-reduce conflict.
pub open spec fn has_sr(g: Seq<SpecIProd>, s: Seq<ItemView>) -> bool {
    exists|t: int| #[trigger] sr_conflict(g, s, t)
}

/// Reduce item `j` of the state has the lookahead `t`, and so has a reduce item of a production
/// before its own, listed before it.
pub open spec fn rr_at(g: Seq<SpecIProd>, s: Seq<ItemView>, j: int, t: int) -> bool {
    &&& 0 <= j < s.len()
    &&& is_reduce(g, s[j])
    &&& mem(s[j].la, t)
    &&& exists|i: int| 0 <= i < s.len() && is_reduce(g, #[trigger] s[i]) && mem(s[i].la, t) && s[i].p < s[j].p
}

/// `t` is the lookahead of the reduce-reduce conflict reported for the state: take the first
/// reduce item, in the order in which the state's items are listed, with a lookahead that a
/// reduce item of an earlier production has too; of its lookaheads shared so, the first by name.
pub open spec fn first_rr(g: Seq<SpecIProd>, names: Seq<Seq<char>>, s: Seq<ItemView>, t: int) -> bool {
    exists|j: int|
        #[trigger] rr_at(g, s, j, t)
        && (forall|j2: int, t2: int| #[trigger] rr_at(g, s, j2, t2) && j2 != j ==> item_lt(names, s[j], s[j2]))
        && (forall|t2: int| #[trigger] rr_at(g, s, j, t2) && t2 != t ==> str_lt(names[t], names[t2]))
}

/// Item `i` of the state shifts a terminal that a reduce item of the state has as lookahead.
pub open spec fn shift_in_conflict(g: Seq<SpecIProd>, s: Seq<ItemView>, i: int) -> bool {
    match after_sym(g, s[i]) {
        Some(x) => x.terminal && reduce_on(g, s, x.id as int),
        None => false,
    }
}

/// `t` is the terminal of the shift-reduce conflict reported for the state: the one shifted by
/// the first item, in the order in which the state's items are listed, that shifts a terminal
/// some reduce item has as lookahead.
pub open spec fn first_sr(g: Seq<SpecIProd>, names: Seq<Seq<char>>, s: Seq<ItemView>, t: int) -> bool {
    exists|i: int|
        0 <= i < s.len() && #[trigger] shift_in_conflict(g, s, i) && is_shift_of(g, s[i], t) && forall|j: int|
            0 <= j < s.len() && j != i && #[trigger] shift_in_conflict(g, s, j) ==> item_lt(names, s[i], s[j])
}

/// The state has a conflict of either kind.
pub open spec fn conflicted(g: Seq<SpecIProd>, s: Seq<ItemView>) -> bool {
    has_rr(g, s) || has_sr(g, s)
}

/// The conflict reported for the states: in the first conflicted state, the reduce-reduce
/// conflict on the lookahead `first_rr` picks when it has one, else the shift-reduce conflict
/// on the terminal of its first item, in listing order, that shifts a reduce lookahead.
pub open spec fn conflict_ok(g: Seq<SpecIProd>, names: Seq<Seq<char>>, states: Seq<Seq<ItemView>>, c: Conflict) -> bool {
    &&& c.state_id < states.len()
    &&& forall|i: int| 0 <= i < c.state_id ==> !conflicted(g, #[trigger] states[i])
    &&& match c.kind {
        ConflictKind::ReduceReduce => first_rr(g, names, states[c.state_id as int], c.lookahead as int),
        ConflictKind::ShiftReduce => !has_rr(g, states[c.state_id as int]) && first_sr(g, names, states[c.state_id as int], c.lookahead as int),
    }
}

/// The item from which the automaton starts: the dot at the start of the production of the
/// augmented start symbol, and the end marker as the only lookahead.
pub open spec fn start_item_ok(ctx: CfgContext, it: ItemView) -> bool {
    &&& it.d == 0
    &&& it.p < ctx.g().len()
    &&& ctx.augmented_cfg@.productions[it.p as int].lhs == ctx.augmented_cfg@.start
    &&& it.la.len() == ctx.n()
    &&& forall|t: int| 0 <= t < ctx.n() ==> (#[trigger] it.la[t] <==> ctx.names()[t] == ctx.augmented_cfg@.end)
}

/// The item takes part in the conflict `c`: it reduces with the conflict's lookahead or,
/// for a shift-reduce conflict, shifts it.
pub open spec fn in_conflict(g: Seq<SpecIProd>, it: ItemView, c: Conflict) -> bool {
    ||| is_reduce(g, it) && mem(it.la, c.lookahead as int)
    ||| c.kind == ConflictKind::ShiftReduce && is_shift_of(g, it, c.lookahead as int)
}

/// The last production is the augmented one: the start symbol goes to a non-terminal and the
/// end marker.
pub open spec fn augmented_last(a: SpecAugmentedCfg) -> bool {
    let ps = a.productions;
    &&& ps.len() > 0
    &&& ps.last().lhs == a.start
    &&& ps.last().rhs.len() == 2
    &&& ps.last().rhs[0] is NonTerminal
    &&& ps.last().rhs[1] == SpecSymbol::Terminal(a.end)
}

/// The augmented start symbol and the end marker occur only where the augmentation put them:
/// no right side names the start symbol, only the second symbol of the last production names
/// the end marker, and only the last production has the start symbol on its left side.
pub open spec fn markers_fresh(a: SpecAugmentedCfg) -> bool {
    let ps = a.productions;
    &&& forall|q: int, k: int| 0 <= q < ps.len() && 0 <= k < ps[q].rhs.len() ==> sym_name(#[trigger] ps[q].rhs[k]) != a.start
    &&& forall|q: int, k: int| 0 <= q < ps.len() && 0 <= k < ps[q].rhs.len() && sym_name(#[trigger] ps[q].rhs[k]) == a.end ==> q == ps.len() - 1 && k == 1
    &&& forall|q: int| 0 <= q < ps.len() - 1 ==> (#[trigger] ps[q]).lhs != a.start
}

/// Every name the grammar's productions use, and its start symbol, is declared.
pub open spec fn names_declared(cfg: SpecCfg) -> bool {
    &&& taken(cfg, cfg.start)
    &&& forall|q: int| 0 <= q < cfg.productions.len() ==> taken(cfg, (#[trigger] cfg.productions[q]).lhs)
    &&& forall|q: int, k: int| 0 <= q < cfg.productions.len() && 0 <= k < cfg.productions[q].rhs.len() ==> taken(cfg, sym_name(#[trigger] cfg.productions[q].rhs[k]))
}

/// When a grammar declares every name it uses, its augmentation puts the fresh start symbol
/// and end marker only in the augmented production.
pub proof fn lemma_declared_markers_fresh(cfg: SpecCfg, a: SpecAugmentedCfg)
    requires
        is_augmentation(cfg, a),
        names_declared(cfg),
    ensures
        augmented_last(a),
        markers_fresh(a),
{
    let ps = a.productions;
    let last = ps.len() - 1;
    assert(ps.last().rhs =~= seq![SpecSymbol::NonTerminal(cfg.start), SpecSymbol::Terminal(a.end)]);
    assert(a.start[0] == 'S' && a.end[0] == '$') by {
        reveal_strlit("S'");
        reveal_strlit("$");
        let k1 = choose|k: nat| a.start == "S'"@ + #[trigger] ticks(k) && !taken(cfg, a.start) && forall|j: nat| j < k ==> taken(cfg, "S'"@ + #[trigger] ticks(j));
        let k2 = choose|k: nat| a.end == "$"@ + #[trigger] ticks(k) && !taken(cfg, a.end) && forall|j: nat| j < k ==> taken(cfg, "$"@ + #[trigger] ticks(j));
        assert(a.start[0] == ("S'"@ + ticks(k1))[0]);
        assert(a.end[0] == ("$"@ + ticks(k2))[0]);
    }
    assert forall|q: int, k: int| 0 <= q < ps.len() && 0 <= k < ps[q].rhs.len() implies sym_name(#[trigger] ps[q].rhs[k]) != a.start by {
        if q < last {
            assert(ps[q] == cfg.productions[q]);
            assert(taken(cfg, sym_name(cfg.productions[q].rhs[k])));
        } else if k == 0 {
            assert(!taken(cfg, a.start));
        }
    }
    assert forall|q: int, k: int| 0 <= q < ps.len() && 0 <= k < ps[q].rhs.len() && sym_name(#[trigger] ps[q].rhs[k]) == a.end implies q == ps.len() - 1 && k == 1 by {
        if q < last {
            assert(ps[q] == cfg.productions[q]);
            assert(taken(cfg, sym_name(cfg.productions[q].rhs[k])));
        }
    }
    assert forall|q: int| 0 <= q < ps.len() - 1 implies (#[trigger] ps[q]).lhs != a.start by {
        assert(ps[q] == cfg.productions[q]);
        assert(taken(cfg, cfg.productions[q].lhs));
    }
}

/// The augmented start symbol has exactly one production.
pub open spec fn single_start(a: SpecAugmentedCfg) -> bool {
    exists|q: int|
        0 <= q < a.productions.len() && (#[trigger] a.productions[q]).lhs == a.start && forall|q2: int|
            0 <= q2 < a.productions.len() && (#[trigger] a.productions[q2]).lhs == a.start ==> q2 == q
}

/// When a grammar declares every name it uses, its augmented start symbol has exactly one
/// production, so building its parser fails only on a conflict.
pub proof fn lemma_declared_single_start(cfg: SpecCfg, a: SpecAugmentedCfg)
    requires
        is_augmentation(cfg, a),
        names_declared(cfg),
    ensures
        single_start(a),
{
    lemma_declared_markers_fresh(cfg, a);
    let ps = a.productions;
    let last = ps.len() - 1;
    assert(ps[last].lhs == a.start);
    assert forall|q2: int| 0 <= q2 < ps.len() && (#[trigger] ps[q2]).lhs == a.start implies q2 == last by {
        if q2 < last {
            assert(ps[q2].lhs != a.start);
        }
    }
}

impl Lr1Parser {
    pub open spec fn states(&self) -> Seq<Seq<ItemView>> {
        states_view(self.dfa.states@)
    }

    pub open spec fn trans(&self) -> Seq<Seq<(Sym, usize)>> {
        trans_view(self.dfa.transitions@)
    }

    /// The parser holds the LR(1) automaton of its context's grammar.
    pub open spec fn wf(&self) -> bool {
        &&& self.cfgctx.wf()
        &&& valid_item(self.cfgctx, self.start@)
        &&& start_item_ok(self.cfgctx, self.start@)
        &&& augmented_last(self.cfgctx.augmented_cfg@)
        &&& dfa_ok(self.cfgctx, self.start@, self.states(), self.trans())
    }

    /// The production of the first reduce item of state `state_id` with lookahead `t` in the
    /// order in which the state's items are listed, which is the least such production.
    pub fn reduce(&self, state_id: usize, t: usize) -> (r: Option<usize>)
        requires
            self.wf(),
            state_id < self.states().len(),
        ensures
            match r {
                Some(p) => least_reduce(self.cfgctx.g(), self.states()[state_id as int], t as int, p as int),
                None => !reduce_on(self.cfgctx.g(), self.states()[state_id as int], t as int),
            },
    {
        let ghost g = self.cfgctx.g();
        let state = &self.dfa.states[state_id];
        let ghost s = self.states()[state_id as int];
        assert(s == items_view(state@));
        let mut best: Option<usize> = None;
        let mut i: usize = 0;
        while i < state.len()
            invariant
                g == self.cfgctx.g(),
                s == self.states()[state_id as int],
                s == items_view(state@),
                i <= state@.len(),
                match best {
                    None => forall|i2: int| 0 <= i2 < i ==> !(is_reduce(g, #[trigger] s[i2]) && mem(s[i2].la, t as int)),
                    Some(q) => (exists|i2: int| 0 <= i2 < i && is_reduce(g, #[trigger] s[i2]) && mem(s[i2].la, t as int) && s[i2].p == q)
                        && forall|i2: int| 0 <= i2 < i && is_reduce(g, #[trigger] s[i2]) && mem(s[i2].la, t as int) ==> q <= s[i2].p,
                },
            decreases state@.len() - i,
        {
            let it = &state[i];
            assert(s[i as int] == it@);
            if it.get_symbol_after_dot(&self.cfgctx).is_none() && t < it.lookahead.len() && it.lookahead[t] {
                let better = match best {
                    None => true,
                    Some(q) => it.production_id < q,
                };
                if better {
                    best = Some(it.production_id);
                }
            }
            i = i + 1;
        }
        proof {
            if best is None && reduce_on(g, s, t as int) {
                let i2 = choose|i2: int| 0 <= i2 < s.len() && is_reduce(g, #[trigger] s[i2]) && mem(s[i2].la, t as int);
            }
        }
        best
    }

    /// The items of the conflicted state that take part in the conflict `c`, by index: the
    /// reduce items with the conflict's lookahead and, for a shift-reduce conflict, the items
    /// that shift it.
    pub fn conflict_items(&self, c: &Conflict) -> (r: Vec<usize>)
        requires
            self.wf(),
            c.state_id < self.states().len(),
        ensures
            forall|k: int| 0 <= k < r@.len() ==> (#[trigger] r@[k]) < self.states()[c.state_id as int].len()
                && in_conflict(self.cfgctx.g(), self.states()[c.state_id as int][r@[k] as int], *c),
            forall|m: int| 0 <= m < self.states()[c.state_id as int].len() && in_conflict(self.cfgctx.g(), #[trigger] self.states()[c.state_id as int][m], *c) ==> r@.contains(m as usize),
            forall|k1: int, k2: int| 0 <= k1 < k2 < r@.len() ==> #[trigger] r@[k1] < #[trigger] r@[k2],
    {
        let state = &self.dfa.states[c.state_id];
        let ghost s = self.states()[c.state_id as int];
        assert(s == items_view(state@));
        let t = c.lookahead;
        let mut r: Vec<usize> = Vec::new();
        let mut m: usize = 0;
        while m < state.len()
            invariant
                s == items_view(state@),
                s == self.states()[c.state_id as int],
                t == c.lookahead,
                m <= state@.len(),
                forall|k: int| 0 <= k < r@.len() ==> (#[trigger] r@[k]) < m && in_conflict(self.cfgctx.g(), s[r@[k] as int], *c),
                forall|j: int| 0 <= j < m && in_conflict(self.cfgctx.g(), #[trigger] s[j], *c) ==> r@.contains(j as usize),
                forall|k1: int, k2: int| 0 <= k1 < k2 < r@.len() ==> #[trigger] r@[k1] < #[trigger] r@[k2],
            decreases state@.len() - m,
        {
            let it = &state[m];
            assert(s[m as int] == it@);
            let sel = match it.get_symbol_after_dot(&self.cfgctx) {
                None => t < it.lookahead.len() && it.lookahead[t],
                Some(x) => c.kind == ConflictKind::ShiftReduce && x.terminal && x.id == t,
            };
            assert(sel == in_conflict(self.cfgctx.g(), s[m as int], *c));
            if sel {
                let ghost r0 = r@;
                r.push(m);
                proof {
                    assert forall|j: int| 0 <= j < m + 1 && in_conflict(self.cfgctx.g(), #[trigger] s[j], *c) implies r@.contains(j as usize) by {
                        if j < m {
                            assert(r0.contains(j as usize));
                            let k = choose|k: int| 0 <= k < r0.len() && r0[k] == j as usize;
                            assert(r@[k] == j as usize);
                        } else {
                            assert(r@[r0.len() as int] == m);
                        }
                    }
                }
            }
            m = m + 1;
        }
        r
    }

    /// Whether a reduce item of state `state_id` of a production before `p` has the lookahead `t`.
    fn earlier_reduce(&self, state_id: usize, p: usize, t: usize) -> (r: bool)
        requires
            self.wf(),
            state_id < self.states().len(),
        ensures
            r == exists|i: int|
                0 <= i < self.states()[state_id as int].len() && is_reduce(self.cfgctx.g(), #[trigger] self.states()[state_id as int][i])
                    && mem(self.states()[state_id as int][i].la, t as int) && self.states()[state_id as int][i].p < p,
    {
        let ghost g = self.cfgctx.g();
        let state = &self.dfa.states[state_id];
        let ghost s = self.states()[state_id as int];
        assert(s == items_view(state@));
        let mut m: usize = 0;
        while m < state.len()
            invariant
                g == self.cfgctx.g(),
                s == items_view(state@),
                s == self.states()[state_id as int],
                m <= state@.len(),
                forall|i: int| 0 <= i < m ==> !(is_reduce(g, #[trigger] s[i]) && mem(s[i].la, t as int) && s[i].p < p),
            decreases state@.len() - m,
        {
            let it = &state[m];
            assert(s[m as int] == it@);
            if it.production_id < p && it.get_symbol_after_dot(&self.cfgctx).is_none() && t < it.lookahead.len() && it.lookahead[t] {
                return true;
            }
            m = m + 1;
        }
        false
    }

    /// Whether some item of state `state_id` shifts the terminal `t`.
    fn shifts(&self, state_id: usize, t: usize) -> (r: bool)
        requires
            self.wf(),
            state_id < self.states().len(),
        ensures
            r == shift_on(self.cfgctx.g(), self.states()[state_id as int], t as int),
    {
        let state = &self.dfa.states[state_id];
        let ghost s = self.states()[state_id as int];
        assert(s == items_view(state@));
        let mut m: usize = 0;
        while m < state.len()
            invariant
                s == items_view(state@),
                s == self.states()[state_id as int],
                m <= state@.len(),
                forall|i: int| 0 <= i < m ==> !is_shift_of(self.cfgctx.g(), #[trigger] s[i], t as int),
            decreases state@.len() - m,
        {
            let it = &state[m];
            assert(s[m as int] == it@);
            match it.get_symbol_after_dot(&self.cfgctx) {
                Some(x) => {
                    if x.terminal && x.id == t {
                        assert(is_shift_of(self.cfgctx.g(), s[m as int], t as int));
                        return true;
                    }
                },
                None => {},
            }
            m = m + 1;
        }
        false
    }

    /// The conflict of state `state_id`, if any: a reduce-reduce conflict when there is one, on
    /// the first lookahead by name of the first reduce item, in listing order, that shares one
    /// with a reduce item of an earlier production; else a shift-reduce conflict on the terminal
    /// shifted by the first item, in listing order, that shifts a reduce lookahead.
    fn state_conflict(&self, state_id: usize) -> (r: Option<(ConflictKind, usize)>)
        requires
            self.wf(),
            state_id < self.states().len(),
        ensures
            match r {
                None => !conflicted(self.cfgctx.g(), self.states()[state_id as int]),
                Some((ConflictKind::ReduceReduce, t)) => first_rr(self.cfgctx.g(), self.cfgctx.names(), self.states()[state_id as int], t as int),
                Some((ConflictKind::ShiftReduce, t)) => !has_rr(self.cfgctx.g(), self.states()[state_id as int])
                    && first_sr(self.cfgctx.g(), self.cfgctx.names(), self.states()[state_id as int], t as int),
            },
    {
        let ghost g = self.cfgctx.g();
        let ghost s = self.states()[state_id as int];
        let n = self.cfgctx.symbols.len();
        proof {
            assert(crate::dfa::state_wf(self.cfgctx, s));
            // No lookahead at or past `n` belongs to an item.
            assert forall|i: int, t: int| 0 <= i < s.len() && #[trigger] mem(s[i].la, t) implies t < n by {
                assert(valid_item(self.cfgctx, s[i]));
            }
        }
        let state = &self.dfa.states[state_id];
        assert(s == items_view(state@));
        let order = self.sorted_items(state_id);
        let ghost names = self.cfgctx.names();
        let mut a: usize = 0;
        while a < order.len()
            invariant
                self.wf(),
                state_id < self.states().len(),
                g == self.cfgctx.g(),
                names == self.cfgctx.names(),
                s == self.states()[state_id as int],
                s == items_view(state@),
                n == names.len(),
                forall|i: int, t: int| 0 <= i < s.len() && #[trigger] mem(s[i].la, t) ==> t < n,
                order@.len() == s.len(),
                forall|k: int| 0 <= k < order@.len() ==> (#[trigger] order@[k]) < s.len(),
                forall|m: usize| m < s.len() ==> #[trigger] order@.contains(m),
                forall|a1: int, b1: int| 0 <= a1 < b1 < order@.len() ==> item_lt(names, s[#[trigger] order@[a1] as int], s[#[trigger] order@[b1] as int]),
                a <= order@.len(),
                forall|b: int, t2: int| 0 <= b < a ==> !#[trigger] rr_at(g, s, order@[b] as int, t2),
            decreases order@.len() - a,
        {
            let m = order[a];
            assert(s[m as int] == state@[m as int]@);
            if state[m].get_symbol_after_dot(&self.cfgctx).is_none() {
                let p = state[m].production_id;
                let mut best: Option<usize> = None;
                let mut t: usize = 0;
                while t < n
                    invariant
                        self.wf(),
                        state_id < self.states().len(),
                        g == self.cfgctx.g(),
                        names == self.cfgctx.names(),
                        s == self.states()[state_id as int],
                        s == items_view(state@),
                        n == names.len(),
                        m < s.len(),
                        is_reduce(g, s[m as int]),
                        p == s[m as int].p,
                        t <= n,
                        match best {
                            None => forall|t2: int| 0 <= t2 < t ==> !#[trigger] rr_at(g, s, m as int, t2),
                            Some(b) => b < t && rr_at(g, s, m as int, b as int) && forall|t2: int|
                                0 <= t2 < t && #[trigger] rr_at(g, s, m as int, t2) && t2 != b ==> str_lt(names[b as int], names[t2]),
                        },
                    decreases n - t,
                {
                    if t < state[m].lookahead.len() && state[m].lookahead[t] && self.earlier_reduce(state_id, p, t) {
                        assert(rr_at(g, s, m as int, t as int));
                        best = match best {
                            None => Some(t),
                            Some(b) => {
                                proof {
                                    assert(names.no_duplicates());
                                    assert(names[t as int] != names[b as int]);
                                    lemma_str_lt_total(names[t as int], names[b as int]);
                                }
                                if str_less(&self.cfgctx.symbols.names[t], &self.cfgctx.symbols.names[b]) {
                                    proof {
                                        assert forall|t2: int| 0 <= t2 < t + 1 && #[trigger] rr_at(g, s, m as int, t2) && t2 != t implies str_lt(names[t as int], names[t2]) by {
                                            if t2 != b {
                                                lemma_str_lt_transitive(names[t as int], names[b as int], names[t2]);
                                            }
                                        }
                                    }
                                    Some(t)
                                } else {
                                    Some(b)
                                }
                            },
                        };
                    }
                    t = t + 1;
                }
                if let Some(b) = best {
                    proof {
                        assert forall|t2: int| #[trigger] rr_at(g, s, m as int, t2) && t2 != b implies str_lt(names[b as int], names[t2]) by {
                            assert(mem(s[m as int].la, t2));
                        }
                        assert forall|j2: int, t2: int| #[trigger] rr_at(g, s, j2, t2) && j2 != m implies item_lt(names, s[m as int], s[j2]) by {
                            assert(order@.contains(j2 as usize));
                            let c = choose|c: int| 0 <= c < order@.len() && order@[c] == j2 as usize;
                            if c < a {
                                assert(!rr_at(g, s, order@[c] as int, t2));
                            }
                            assert(c != a);
                            assert(item_lt(names, s[order@[a as int] as int], s[order@[c] as int]));
                        }
                        assert(first_rr(g, names, s, b as int));
                    }
                    return Some((ConflictKind::ReduceReduce, b));
                }
                proof {
                    assert forall|t2: int| !#[trigger] rr_at(g, s, m as int, t2) by {
                        if rr_at(g, s, m as int, t2) {
                            assert(mem(s[m as int].la, t2));
                        }
                    }
                }
            }
            a = a + 1;
        }
        proof {
            assert forall|t2: int| !#[trigger] rr_conflict(g, s, t2) by {
                if rr_conflict(g, s, t2) {
                    let (i, j) = choose|i: int, j: int|
                        0 <= i < s.len() && 0 <= j < s.len() && s[i].p != s[j].p && is_reduce(g, #[trigger] s[i]) && is_reduce(g, #[trigger] s[j])
                            && mem(s[i].la, t2) && mem(s[j].la, t2);
                    let hi = if s[i].p < s[j].p { j } else { i };
                    assert(rr_at(g, s, hi, t2));
                    assert(order@.contains(hi as usize));
                    let c = choose|c: int| 0 <= c < order@.len() && order@[c] == hi as usize;
                    assert(!rr_at(g, s, order@[c] as int, t2));
                }
            }
            assert(!has_rr(g, s));
        }
        let ns = state.len();
        let mut a: usize = 0;
        while a < order.len()
            invariant
                self.wf(),
                state_id < self.states().len(),
                g == self.cfgctx.g(),
                s == self.states()[state_id as int],
                s == items_view(state@),
                !has_rr(g, s),
                order@.len() == s.len(),
                ns == s.len(),
                forall|k: int| 0 <= k < order@.len() ==> (#[trigger] order@[k]) < s.len(),
                forall|m: usize| m < s.len() ==> #[trigger] order@.contains(m),
                forall|a1: int, b1: int| 0 <= a1 < b1 < order@.len() ==> item_lt(
                    self.cfgctx.names(),
                    s[#[trigger] order@[a1] as int],
                    s[#[trigger] order@[b1] as int],
                ),
                a <= order@.len(),
                forall|b: int| 0 <= b < a ==> !shift_in_conflict(g, s, #[trigger] order@[b] as int),
            decreases order@.len() - a,
        {
            let m = order[a];
            assert(s[m as int] == state@[m as int]@);
            match state[m].get_symbol_after_dot(&self.cfgctx) {
                Some(x) => {
                    if x.terminal && self.reduce(state_id, x.id).is_some() {
                        proof {
                            let names = self.cfgctx.names();
                            assert(shift_in_conflict(g, s, m as int));
                            assert(is_shift_of(g, s[m as int], x.id as int));
                            assert forall|j: int| 0 <= j < s.len() && j != m && #[trigger] shift_in_conflict(g, s, j) implies item_lt(names, s[m as int], s[j]) by {
                                assert(order@.contains(j as usize));
                                let b = choose|b: int| 0 <= b < order@.len() && order@[b] == j as usize;
                                if b < a {
                                    assert(!shift_in_conflict(g, s, order@[b] as int));
                                }
                                assert(b != a);
                                assert(item_lt(names, s[order@[a as int] as int], s[order@[b] as int]));
                            }
                            assert(sr_conflict(g, s, x.id as int));
                        }
                        return Some((ConflictKind::ShiftReduce, x.id));
                    }
                },
                None => {},
            }
            a = a + 1;
        }
        proof {
            assert(!has_sr(g, s)) by {
                if has_sr(g, s) {
                    let t = choose|t: int| #[trigger] sr_conflict(g, s, t);
                    let i = choose|i: int| 0 <= i < s.len() && is_shift_of(g, #[trigger] s[i], t);
                    assert(shift_in_conflict(g, s, i));
                    assert(order@.contains(i as usize));
                    let b = choose|b: int| 0 <= b < order@.len() && order@[b] == i as usize;
                    assert(!shift_in_conflict(g, s, order@[b] as int));
                }
            }
        }
        None
    }

    /// Builds the parser of a grammar: its context, the item of the augmented start
    /// production with the end marker as lookahead, and the LR(1) automaton from that item.
    /// Fails when the augmented start symbol has not exactly one production, or when the
    /// automaton has a conflict, which is then returned with the parser.
    pub fn new(cfg: &Cfg) -> (r: Result<Lr1Parser, Lr1Error>)
        ensures
            match r {
                Ok(p) => {
                    &&& p.wf()
                    &&& is_augmentation(cfg@, p.cfgctx.augmented_cfg@)
                    &&& single_start(p.cfgctx.augmented_cfg@)
                    &&& forall|i: int| 0 <= i < p.states().len() ==> !conflicted(p.cfgctx.g(), #[trigger] p.states()[i])
                },
                Err(Lr1Error::StartProductions) => forall|a: SpecAugmentedCfg| is_augmentation(cfg@, a) ==> !single_start(a),
                Err(Lr1Error::Conflict(p, c)) => {
                    &&& p.wf()
                    &&& is_augmentation(cfg@, p.cfgctx.augmented_cfg@)
                    &&& single_start(p.cfgctx.augmented_cfg@)
                    &&& conflict_ok(p.cfgctx.g(), p.cfgctx.names(), p.states(), c)
                },
            },
    {
        let ctx = CfgContext::from(cfg);
        let ghost a = ctx.augmented_cfg@;
        let ghost g = ctx.g();
        let ghost names = ctx.names();
        let ghost last = (g.len() - 1) as int;
        proof {
            assert(a.productions.len() == g.len());
            assert(crate::symbols::prod_matches(names, g[last], a.productions[last]));
            assert(a.productions[last].rhs[1] == SpecSymbol::Terminal(a.end));
            assert(crate::symbols::sym_matches(names, g[last].rhs[1], a.productions[last].rhs[1]));
        }
        let sid = match ctx.symbols.lookup(&ctx.augmented_cfg.start_symbol) {
            Some(i) => i,
            None => {
                proof {
                    assert(names[g[last].lhs as int] == a.start);
                }
                return Err(Lr1Error::StartProductions);
            },
        };
        let eid = match ctx.symbols.lookup(&ctx.augmented_cfg.end_terminal) {
            Some(i) => i,
            None => {
                proof {
                    assert(names[g[last].rhs[1].id as int] == a.end);
                }
                return Err(Lr1Error::StartProductions);
            },
        };
        let ghost pb = rows(ctx.productions_by_nonterminal@);
        proof {
            // A production has the augmented start symbol on its left side exactly when its
            // index is listed under `sid`.
            assert forall|q: int| 0 <= q < a.productions.len() implies
                ((#[trigger] a.productions[q]).lhs == a.start <==> pb[sid as int].contains(q as usize)) by {
                assert(crate::symbols::prod_matches(names, g[q], a.productions[q]));
                assert(crate::analysis::wf_prod(g[q], ctx.n()));
                assert(pb[g[q].lhs as int].contains(q as usize));
                if pb[sid as int].contains(q as usize) {
                    let j = choose|j: int| 0 <= j < pb[sid as int].len() && pb[sid as int][j] == q as usize;
                    assert(g[pb[sid as int][j] as int].lhs == sid);
                }
                if a.productions[q].lhs == a.start && g[q].lhs != sid {
                    assert(names[g[q].lhs as int] == names[sid as int]);
                }
            }
            assert(pb[sid as int].contains(last as usize));
        }
        let row = &ctx.productions_by_nonterminal[sid];
        assert(row@ == pb[sid as int]);
        if row.len() != 1 {
            proof {
                assert(row@.len() >= 2);
                assert(pb[sid as int][0] < pb[sid as int][1]);
                assert forall|b: SpecAugmentedCfg| is_augmentation(cfg@, b) implies !single_start(b) by {
                    lemma_augmentation_unique(cfg@, a, b);
                    let q0 = pb[sid as int][0] as int;
                    let q1 = pb[sid as int][1] as int;
                    assert(pb[sid as int].contains(q0 as usize));
                    assert(pb[sid as int].contains(q1 as usize));
                    assert(g[q0].lhs == sid && g[q1].lhs == sid);
                    assert(a.productions[q0].lhs == a.start);
                    assert(a.productions[q1].lhs == a.start);
                    if single_start(a) {
                        let q = choose|q: int|
                            0 <= q < a.productions.len() && (#[trigger] a.productions[q]).lhs == a.start && forall|q2: int|
                                0 <= q2 < a.productions.len() && (#[trigger] a.productions[q2]).lhs == a.start ==> q2 == q;
                        assert(q0 == q && q1 == q);
                    }
                }
            }
            return Err(Lr1Error::StartProductions);
        }
        let sp = row[0];
        let n = ctx.symbols.len();
        let mut la = falses(n);
        la.set(eid, true);
        let start = LrItem { production_id: sp, dot: 0, lookahead: la };
        let np = ctx.grammar.len();
        proof {
            assert(np as int == g.len());
            assert(pb[sid as int].contains(sp));
            assert(g[sp as int].lhs == sid);
            assert(crate::symbols::prod_matches(names, g[sp as int], a.productions[sp as int]));
            assert forall|t: int| 0 <= t < ctx.n() implies (#[trigger] start@.la[t] <==> names[t] == a.end) by {
                if names[t] == a.end && t != eid {
                    assert(names[t] == names[eid as int]);
                }
            }
            assert(valid_item(ctx, start@));
            assert(start_item_ok(ctx, start@));
            assert(a.productions.last().rhs =~= seq![SpecSymbol::NonTerminal(cfg@.start), SpecSymbol::Terminal(a.end)]);
            assert(augmented_last(a));
            let q0 = sp as int;
            assert(a.productions[q0].lhs == a.start);
            assert forall|q2: int| 0 <= q2 < a.productions.len() && (#[trigger] a.productions[q2]).lhs == a.start implies q2 == q0 by {
                assert(pb[sid as int].contains(q2 as usize));
                assert(pb[sid as int].len() == 1);
                assert(pb[sid as int][0] == sp);
                assert(q2 < np);
                let j = choose|j: int| 0 <= j < pb[sid as int].len() && pb[sid as int][j] == q2 as usize;
                assert(j == 0);
            }
            assert(single_start(a));
        }
        let (states, transitions) = build_dfa(&ctx, &start);
        let parser = Lr1Parser { cfgctx: ctx, dfa: Dfa { states, transitions }, start };
        assert(parser.states() == states_view(states@));
        match parser.check_conflicts() {
            None => Ok(parser),
            Some(c) => Err(Lr1Error::Conflict(parser, c)),
        }
    }

    /// The first conflict of the automaton, if any: in the first conflicted state, a
    /// reduce-reduce conflict when it has one, else a shift-reduce conflict.
    pub fn check_conflicts(&self) -> (r: Option<Conflict>)
        requires
            self.wf(),
        ensures
            match r {
                None => forall|i: int| 0 <= i < self.states().len() ==> !conflicted(self.cfgctx.g(), #[trigger] self.states()[i]),
                Some(c) => conflict_ok(self.cfgctx.g(), self.cfgctx.names(), self.states(), c),
            },
    {
        let mut i: usize = 0;
        while i < self.dfa.states.len()
            invariant
                self.wf(),
                i <= self.states().len(),
                self.states().len() == self.dfa.states@.len(),
                forall|j: int| 0 <= j < i ==> !conflicted(self.cfgctx.g(), #[trigger] self.states()[j]),
            decreases self.states().len() - i,
        {
            match self.state_conflict(i) {
                Some((kind, t)) => {
                    return Some(Conflict { kind, state_id: i, lookahead: t });
                },
                None => {},
            }
            i = i + 1;
        }
        None
    }
}

} // verus!
