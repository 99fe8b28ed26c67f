use vstd::prelude::*;
use crate::bits::mem;
use crate::analysis::{Sym, SpecIProd};
use crate::context::CfgContext;
use crate::closure::{ItemView, LrItem, items_view, valid_item, is_closure, closure_set, epsilon_closure, lemma_closure_set};

verus! {

/// The symbol after the dot of an item, if the dot is not at the end.
pub open spec fn after_sym(g: Seq<SpecIProd>, it: ItemView) -> Option<Sym> {
    if it.p < g.len() && it.d < g[it.p as int].rhs.len() {
        Some(g[it.p as int].rhs[it.d as int])
    } else {
        None
    }
}

/// The item with its dot moved one symbol on.
pub open spec fn shifted(it: ItemView) -> ItemView {
    ItemView { p: it.p, d: it.d + 1, la: it.la }
}

/// The items reached from the items `state` on the symbol `x`: the closures of the items of
/// `state` whose dot stands before `x`, with the dot moved over `x`.
pub open spec fn goto_set(ctx: CfgContext, state: Set<ItemView>, x: Sym) -> Set<ItemView> {
    Set::new(
        |it: ItemView|
            exists|src: ItemView|
                #![trigger state.contains(src), closure_set(ctx, shifted(src)).contains(it)]
                state.contains(src) && after_sym(ctx.g(), src) == Some(x) && closure_set(ctx, shifted(src)).contains(it),
    )
}

/// No item occurs twice.
pub open spec fn no_dup_items(s: Seq<ItemView>) -> bool {
    forall|i: int, j: int| 0 <= i < s.len() && 0 <= j < s.len() && i != j ==> s[i] != s[j]
}

pub open spec fn state_wf(ctx: CfgContext, s: Seq<ItemView>) -> bool {
    &&& no_dup_items(s)
    &&& forall|i: int| 0 <= i < s.len() ==> valid_item(ctx, #[trigger] s[i])
}

pub open spec fn states_view(v: Seq<Vec<LrItem>>) -> Seq<Seq<ItemView>> {
    v.map_values(|s: Vec<LrItem>| items_view(s@))
}

pub open spec fn trans_view(v: Seq<Vec<(Sym, usize)>>) -> Seq<Seq<(Sym, usize)>> {
    v.map_values(|r: Vec<(Sym, usize)>| r@)
}

/// The transitions of state `i` are exactly those on the symbols after a dot in it, each to
/// the state that holds what the symbol reaches.
pub open spec fn row_ok(ctx: CfgContext, states: Seq<Seq<ItemView>>, tr: Seq<Seq<(Sym, usize)>>, i: int) -> bool {
    &&& forall|e1: int, e2: int| 0 <= e1 < tr[i].len() && 0 <= e2 < tr[i].len() && e1 != e2 ==> (#[trigger] tr[i][e1]).0 != (#[trigger] tr[i][e2]).0
    &&& forall|e: int| 0 <= e < tr[i].len() ==> (#[trigger] tr[i][e]).1 < states.len()
        && states[tr[i][e].1 as int].to_set() == goto_set(ctx, states[i].to_set(), tr[i][e].0)
    &&& forall|e: int| 0 <= e < tr[i].len() ==> has_source(ctx, states[i], (#[trigger] tr[i][e]).0)
    &&& forall|m: int| 0 <= m < states[i].len() && (#[trigger] after_sym(ctx.g(), states[i][m])).is_some() ==> has_entry(tr[i], after_sym(ctx.g(), states[i][m]).unwrap())
    &&& forall|m: int| 0 <= m < states[i].len() && (#[trigger] after_sym(ctx.g(), states[i][m])).is_some() ==> has_closure(ctx, shifted(states[i][m]))
}

/// The item has a closure.
pub open spec fn has_closure(ctx: CfgContext, it: ItemView) -> bool {
    exists|c: Seq<ItemView>| is_closure(ctx, it, c)
}

/// Some item of `s` has `x` after its dot.
pub open spec fn has_source(ctx: CfgContext, s: Seq<ItemView>, x: Sym) -> bool {
    exists|m: int| 0 <= m < s.len() && after_sym(ctx.g(), #[trigger] s[m]) == Some(x)
}

/// The row has a transition on `x`.
pub open spec fn has_entry(row: Seq<(Sym, usize)>, x: Sym) -> bool {
    exists|e: int| 0 <= e < row.len() && (#[trigger] row[e]).0 == x
}

/// Some transition of state `j` leads to state `i`.
pub open spec fn found_by(tr: Seq<Seq<(Sym, usize)>>, j: int, i: int) -> bool {
    exists|e: int| 0 <= e < tr[j].len() && #[trigger] tr[j][e].1 == i
}

/// Some transition of a state before `i` and before `bound` leads to state `i`.
pub open spec fn found_before(tr: Seq<Seq<(Sym, usize)>>, i: int, bound: int) -> bool {
    exists|j: int| 0 <= j < i && j < bound && #[trigger] found_by(tr, j, i)
}

/// Every state but the first is reached by a transition from a state before it.
pub open spec fn discovered(n: int, tr: Seq<Seq<(Sym, usize)>>) -> bool {
    forall|i: int| 1 <= i < n ==> #[trigger] found_before(tr, i, i)
}

/// The states and transitions are the LR(1) automaton of the context's grammar from the item
/// `start`: the first state is the closure of `start`, states are distinct sets of items, and
/// every state has its transitions.
pub open spec fn dfa_ok(ctx: CfgContext, start: ItemView, states: Seq<Seq<ItemView>>, tr: Seq<Seq<(Sym, usize)>>) -> bool {
    &&& states.len() > 0
    &&& tr.len() == states.len()
    &&& is_closure(ctx, start, states[0])
    &&& forall|i: int| 0 <= i < states.len() ==> state_wf(ctx, #[trigger] states[i])
    &&& forall|i: int, j: int| 0 <= i < states.len() && 0 <= j < states.len() && i != j ==> (#[trigger] states[i]).to_set() != (#[trigger] states[j]).to_set()
    &&& forall|i: int| 0 <= i < states.len() ==> #[trigger] row_ok(ctx, states, tr, i)
    &&& discovered(states.len() as int, tr)
}

/// A copy of an item.
pub fn copy_item(it: &LrItem) -> (r: LrItem)
    ensures
        r@ == it@,
{
    let la = it.lookahead.clone();
    assert(la@ =~= it.lookahead@);
    LrItem { production_id: it.production_id, dot: it.dot, lookahead: la }
}

/// Whether two items are equal.
pub fn item_eq(a: &LrItem, b: &LrItem) -> (r: bool)
    ensures
        r == (a@ == b@),
{
    if a.production_id != b.production_id || a.dot != b.dot || a.lookahead.len() != b.lookahead.len() {
        return false;
    }
    let mut i: usize = 0;
    while i < a.lookahead.len()
        invariant
            i <= a.lookahead@.len(),
            a.lookahead@.len() == b.lookahead@.len(),
            forall|j: int| 0 <= j < i ==> a.lookahead@[j] == b.lookahead@[j],
        decreases a.lookahead@.len() - i,
    {
        if a.lookahead[i] != b.lookahead[i] {
            return false;
        }
        i = i + 1;
    }
    assert(a.lookahead@ =~= b.lookahead@);
    true
}

/// Whether `v` holds the item `x`.
pub fn contains_item(v: &Vec<LrItem>, x: &LrItem) -> (r: bool)
    ensures
        r == items_view(v@).contains(x@),
{
    let mut i: usize = 0;
    while i < v.len()
        invariant
            i <= v@.len(),
            forall|j: int| 0 <= j < i ==> items_view(v@)[j] != x@,
        decreases v@.len() - i,
    {
        if item_eq(&v[i], x) {
            assert(items_view(v@)[i as int] == x@);
            return true;
        }
        i = i + 1;
    }
    false
}

/// Whether the items of `a` are included in those of `b`.
pub fn items_subset(a: &Vec<LrItem>, b: &Vec<LrItem>) -> (r: bool)
    ensures
        r == items_view(a@).to_set().subset_of(items_view(b@).to_set()),
{
    let mut i: usize = 0;
    while i < a.len()
        invariant
            i <= a@.len(),
            forall|j: int| 0 <= j < i ==> items_view(b@).contains(#[trigger] items_view(a@)[j]),
        decreases a@.len() - i,
    {
        if !contains_item(b, &a[i]) {
            assert(items_view(a@).to_set().contains(items_view(a@)[i as int]));
            return false;
        }
        i = i + 1;
    }
    assert forall|x: ItemView| items_view(a@).to_set().contains(x) implies items_view(b@).to_set().contains(x) by {
        let j = choose|j: int| 0 <= j < items_view(a@).len() && items_view(a@)[j] == x;
    }
    true
}

/// Whether `a` and `b` hold the same items.
pub fn same_items(a: &Vec<LrItem>, b: &Vec<LrItem>) -> (r: bool)
    ensures
        r == (items_view(a@).to_set() == items_view(b@).to_set()),
{
    let r = items_subset(a, b) && items_subset(b, a);
    proof {
        if r {
            assert(items_view(a@).to_set() =~= items_view(b@).to_set());
        }
    }
    r
}

/// Adds to `bucket` the items of `src` it lacks.
pub fn add_items(bucket: &mut Vec<LrItem>, src: &Vec<LrItem>)
    requires
        no_dup_items(items_view(old(bucket)@)),
    ensures
        no_dup_items(items_view(final(bucket)@)),
        items_view(final(bucket)@).to_set() == items_view(old(bucket)@).to_set().union(items_view(src@).to_set()),
{
    let ghost b0 = items_view(bucket@).to_set();
    let mut i: usize = 0;
    while i < src.len()
        invariant
            i <= src@.len(),
            no_dup_items(items_view(bucket@)),
            items_view(bucket@).to_set() == b0.union(items_view(src@).take(i as int).to_set()),
        decreases src@.len() - i,
    {
        let ghost bb = items_view(bucket@);
        if !contains_item(bucket, &src[i]) {
            bucket.push(copy_item(&src[i]));
            assert(items_view(bucket@) =~= bb.push(items_view(src@)[i as int]));
        }
        proof {
            let s = items_view(src@);
            assert(s.take(i + 1) =~= s.take(i as int).push(s[i as int]));
            s.take(i as int).lemma_push_to_set_commute(s[i as int]);
            bb.lemma_push_to_set_commute(s[i as int]);
            if bb.contains(s[i as int]) {
                assert(items_view(bucket@) == bb);
                assert(bb.to_set().contains(s[i as int]));
            }
            assert(items_view(bucket@).to_set() =~= b0.union(s.take(i + 1).to_set()));
        }
        i = i + 1;
    }
    assert(items_view(src@).take(src@.len() as int) =~= items_view(src@));
}

} // verus!

verus! {

impl LrItem {
    /// The symbol after the dot, if the dot is not at the end of the production.
    pub fn get_symbol_after_dot(&self, cfgctx: &CfgContext) -> (r: Option<Sym>)
        ensures
            r == after_sym(cfgctx.g(), self@),
    {
        if self.production_id < cfgctx.grammar.len() && self.dot < cfgctx.grammar[self.production_id].rhs.len() {
            assert(cfgctx.grammar@[self.production_id as int]@ == cfgctx.g()[self.production_id as int]);
            Some(cfgctx.grammar[self.production_id].rhs[self.dot])
        } else {
            proof {
                if self.production_id < cfgctx.grammar@.len() {
                    assert(cfgctx.grammar@[self.production_id as int]@ == cfgctx.g()[self.production_id as int]);
                }
            }
            None
        }
    }
}

/// `goto_set` over a set with one more item.
pub proof fn lemma_goto_insert(ctx: CfgContext, s: Set<ItemView>, y: ItemView, x: Sym)
    ensures
        goto_set(ctx, s.insert(y), x) == if after_sym(ctx.g(), y) == Some(x) {
            goto_set(ctx, s, x).union(closure_set(ctx, shifted(y)))
        } else {
            goto_set(ctx, s, x)
        },
{
    let a = goto_set(ctx, s.insert(y), x);
    let b = if after_sym(ctx.g(), y) == Some(x) {
        goto_set(ctx, s, x).union(closure_set(ctx, shifted(y)))
    } else {
        goto_set(ctx, s, x)
    };
    assert forall|it: ItemView| a.contains(it) implies b.contains(it) by {
        let src = choose|src: ItemView|
            #![trigger s.insert(y).contains(src), closure_set(ctx, shifted(src)).contains(it)]
            s.insert(y).contains(src) && after_sym(ctx.g(), src) == Some(x) && closure_set(ctx, shifted(src)).contains(it);
        if src != y {
            assert(s.contains(src));
        }
    }
    assert forall|it: ItemView| b.contains(it) implies a.contains(it) by {
        if goto_set(ctx, s, x).contains(it) {
            let src = choose|src: ItemView|
                #![trigger s.contains(src), closure_set(ctx, shifted(src)).contains(it)]
                s.contains(src) && after_sym(ctx.g(), src) == Some(x) && closure_set(ctx, shifted(src)).contains(it);
            assert(s.insert(y).contains(src));
        } else {
            assert(s.insert(y).contains(y));
        }
    }
    assert(a =~= b);
}

/// The items reached from the items `cur` on the symbol `x`.
pub fn goto_items(ctx: &CfgContext, cur: &Vec<LrItem>, x: Sym) -> (r: Vec<LrItem>)
    requires
        ctx.wf(),
        state_wf(*ctx, items_view(cur@)),
    ensures
        state_wf(*ctx, items_view(r@)),
        items_view(r@).to_set() == goto_set(*ctx, items_view(cur@).to_set(), x),
        forall|m: int| 0 <= m < cur@.len() && after_sym(ctx.g(), #[trigger] items_view(cur@)[m]) == Some(x) ==> has_closure(*ctx, shifted(items_view(cur@)[m])),
{
    let ghost cv = items_view(cur@);
    let mut bucket: Vec<LrItem> = Vec::new();
    let mut m: usize = 0;
    proof {
        assert(cv.take(0).to_set() =~= Set::<ItemView>::empty());
        assert(goto_set(*ctx, Set::<ItemView>::empty(), x) =~= Set::<ItemView>::empty());
        assert(items_view(bucket@).to_set() =~= Set::<ItemView>::empty());
    }
    while m < cur.len()
        invariant
            ctx.wf(),
            cv == items_view(cur@),
            state_wf(*ctx, cv),
            m <= cur@.len(),
            state_wf(*ctx, items_view(bucket@)),
            items_view(bucket@).to_set() == goto_set(*ctx, cv.take(m as int).to_set(), x),
            forall|m2: int| 0 <= m2 < m && after_sym(ctx.g(), #[trigger] cv[m2]) == Some(x) ==> has_closure(*ctx, shifted(cv[m2])),
        decreases cur@.len() - m,
    {
        let ghost b0 = items_view(bucket@);
        proof {
            assert(cv.take(m + 1) =~= cv.take(m as int).push(cv[m as int]));
            cv.take(m as int).lemma_push_to_set_commute(cv[m as int]);
            lemma_goto_insert(*ctx, cv.take(m as int).to_set(), cv[m as int], x);
        }
        let a = cur[m].get_symbol_after_dot(ctx);
        if a == Some(x) {
            let it = &cur[m];
            assert(valid_item(*ctx, cv[m as int]));
            let rl = ctx.grammar[it.production_id].rhs.len();
            assert(ctx.grammar@[it.production_id as int]@ == ctx.g()[it.production_id as int]);
            assert(it.dot < rl);
            let sh = LrItem { production_id: it.production_id, dot: it.dot + 1, lookahead: it.lookahead.clone() };
            assert(sh@ =~= shifted(cv[m as int]));
            let c = epsilon_closure(ctx, &sh);
            proof {
                lemma_closure_set(*ctx, sh@, items_view(c@));
                assert(has_closure(*ctx, shifted(cv[m as int])));
            }
            add_items(&mut bucket, &c);
            proof {
                assert forall|i: int| 0 <= i < items_view(bucket@).len() implies valid_item(*ctx, #[trigger] items_view(bucket@)[i]) by {
                    let y = items_view(bucket@)[i];
                    assert(items_view(bucket@).to_set().contains(y));
                    if b0.to_set().contains(y) {
                        let w = choose|w: int| 0 <= w < b0.len() && b0[w] == y;
                        assert(valid_item(*ctx, b0[w]));
                    } else {
                        assert(items_view(c@).to_set().contains(y));
                        let w = choose|w: int| 0 <= w < items_view(c@).len() && items_view(c@)[w] == y;
                        assert(valid_item(*ctx, items_view(c@)[w]));
                    }
                }
            }
        }
        m = m + 1;
    }
    assert(cv.take(cur@.len() as int) =~= cv);
    bucket
}

/// The index of the state that holds the items of `bucket`, if any.
pub fn find_state(states: &Vec<Vec<LrItem>>, bucket: &Vec<LrItem>) -> (r: Option<usize>)
    ensures
        match r {
            Some(j) => j < states@.len() && states_view(states@)[j as int].to_set() == items_view(bucket@).to_set(),
            None => forall|j: int| 0 <= j < states@.len() ==> #[trigger] states_view(states@)[j].to_set() != items_view(bucket@).to_set(),
        },
{
    let mut j: usize = 0;
    while j < states.len()
        invariant
            j <= states@.len(),
            forall|i: int| 0 <= i < j ==> #[trigger] states_view(states@)[i].to_set() != items_view(bucket@).to_set(),
        decreases states@.len() - j,
    {
        if same_items(&states[j], bucket) {
            return Some(j);
        }
        j = j + 1;
    }
    None
}

/// Whether the row holds a transition on `x`.
pub fn row_has(row: &Vec<(Sym, usize)>, x: Sym) -> (r: bool)
    ensures
        r == exists|e: int| 0 <= e < row@.len() && (#[trigger] row@[e]).0 == x,
{
    let mut e: usize = 0;
    while e < row.len()
        invariant
            e <= row@.len(),
            forall|f: int| 0 <= f < e ==> (#[trigger] row@[f]).0 != x,
        decreases row@.len() - e,
    {
        if row[e].0 == x {
            return true;
        }
        e = e + 1;
    }
    false
}

/// A copy of a list of items.
pub fn copy_items(v: &Vec<LrItem>) -> (r: Vec<LrItem>)
    ensures
        items_view(r@) == items_view(v@),
{
    let mut r: Vec<LrItem> = Vec::new();
    let mut i: usize = 0;
    while i < v.len()
        invariant
            i <= v@.len(),
            r@.len() == i,
            forall|j: int| 0 <= j < i ==> #[trigger] r@[j]@ == v@[j]@,
        decreases v@.len() - i,
    {
        r.push(copy_item(&v[i]));
        i = i + 1;
    }
    assert(items_view(r@) =~= items_view(v@));
    r
}

} // verus!

verus! {

/// `row_ok` survives new states appended after the existing ones.
pub proof fn lemma_row_ok_extend(
    ctx: CfgContext,
    s0: Seq<Seq<ItemView>>,
    t0: Seq<Seq<(Sym, usize)>>,
    s1: Seq<Seq<ItemView>>,
    t1: Seq<Seq<(Sym, usize)>>,
    i: int,
)
    requires
        0 <= i < s0.len(),
        i < t0.len(),
        row_ok(ctx, s0, t0, i),
        s0.len() <= s1.len(),
        forall|j: int| 0 <= j < s0.len() ==> #[trigger] s1[j] == s0[j],
        i < t1.len(),
        t1[i] == t0[i],
    ensures
        row_ok(ctx, s1, t1, i),
{
    assert(s1[i] == s0[i]);
    assert forall|e: int| 0 <= e < t1[i].len() implies (#[trigger] t1[i][e]).1 < s1.len()
        && s1[t1[i][e].1 as int].to_set() == goto_set(ctx, s1[i].to_set(), t1[i][e].0) by {
        assert(t0[i][e] == t1[i][e]);
        assert(s1[t1[i][e].1 as int] == s0[t1[i][e].1 as int]);
    }
    assert forall|e: int| 0 <= e < t1[i].len() implies has_source(ctx, s1[i], (#[trigger] t1[i][e]).0) by {
        assert(t0[i][e] == t1[i][e]);
        assert(has_source(ctx, s0[i], t0[i][e].0));
    }
    assert forall|m: int| 0 <= m < s1[i].len() && (#[trigger] after_sym(ctx.g(), s1[i][m])).is_some() implies has_entry(t1[i], after_sym(ctx.g(), s1[i][m]).unwrap()) by {
        assert(s1[i][m] == s0[i][m]);
        assert(has_entry(t0[i], after_sym(ctx.g(), s0[i][m]).unwrap()));
    }
    assert forall|e1: int, e2: int| 0 <= e1 < t1[i].len() && 0 <= e2 < t1[i].len() && e1 != e2 implies (#[trigger] t1[i][e1]).0 != (#[trigger] t1[i][e2]).0 by {
        assert(t1[i][e1] == t0[i][e1] && t1[i][e2] == t0[i][e2]);
    }
    assert forall|m: int| 0 <= m < s1[i].len() && (#[trigger] after_sym(ctx.g(), s1[i][m])).is_some() implies has_closure(ctx, shifted(s1[i][m])) by {
        assert(s1[i][m] == s0[i][m]);
    }
}

/// The LR(1) automaton from the item `start`: states are explored from the closure of `start`,
/// and each state gets a transition on every symbol after a dot in it, to the state that holds
/// what the symbol reaches, added when it is new.
pub fn build_dfa(ctx: &CfgContext, start: &LrItem) -> (r: (Vec<Vec<LrItem>>, Vec<Vec<(Sym, usize)>>))
    requires
        ctx.wf(),
        valid_item(*ctx, start@),
    ensures
        dfa_ok(*ctx, start@, states_view(r.0@), trans_view(r.1@)),
{
    let first = epsilon_closure(ctx, start);
    proof {
        lemma_closure_set(*ctx, start@, items_view(first@));
        let f = items_view(first@);
        assert forall|i: int, j: int| 0 <= i < f.len() && 0 <= j < f.len() && i != j implies f[i] != f[j] by {
            assert(f[i].p != f[j].p || f[i].d != f[j].d);
        }
    }
    let mut states: Vec<Vec<LrItem>> = Vec::new();
    states.push(first);
    let mut tr: Vec<Vec<(Sym, usize)>> = Vec::new();
    tr.push(Vec::new());
    let mut head: usize = 0;
    proof {
        assert(states_view(states@)[0] == items_view(first@));
    }
    while head < states.len()
        invariant
            ctx.wf(),
            valid_item(*ctx, start@),
            states@.len() > 0,
            tr@.len() == states@.len(),
            head <= states@.len(),
            is_closure(*ctx, start@, states_view(states@)[0]),
            forall|i: int| 0 <= i < states@.len() ==> state_wf(*ctx, #[trigger] states_view(states@)[i]),
            forall|i: int, j: int| 0 <= i < states@.len() && 0 <= j < states@.len() && i != j ==> (#[trigger] states_view(states@)[i]).to_set() != (#[trigger] states_view(states@)[j]).to_set(),
            forall|i: int| 0 <= i < head ==> #[trigger] row_ok(*ctx, states_view(states@), trans_view(tr@), i),
            forall|i: int| head <= i < tr@.len() ==> (#[trigger] tr@[i])@.len() == 0,
            forall|i: int| 1 <= i < states@.len() ==> #[trigger] found_before(trans_view(tr@), i, head as int),
        decreases usize::MAX - states@.len(), states@.len() - head,
    {
        let h = head;
        let cur = copy_items(&states[h]);
        let ghost sv0 = states_view(states@);
        let ghost tv0 = trans_view(tr@);
        let ghost cv = items_view(cur@);
        assert(cv == sv0[h as int]);
        let mut row: Vec<(Sym, usize)> = Vec::new();
        let mut k: usize = 0;
        while k < cur.len()
            invariant
                ctx.wf(),
                valid_item(*ctx, start@),
                h == head,
                h < states@.len(),
                h < sv0.len(),
                cv == items_view(cur@),
                cv == sv0[h as int],
                state_wf(*ctx, cv),
                sv0.len() <= states@.len(),
                tv0.len() == sv0.len(),
                forall|i: int| 0 <= i < sv0.len() ==> #[trigger] states_view(states@)[i] == sv0[i],
                tr@.len() == states@.len(),
                forall|i: int| 0 <= i < tv0.len() ==> #[trigger] trans_view(tr@)[i] == tv0[i],
                forall|i: int| head <= i < tr@.len() ==> (#[trigger] tr@[i])@.len() == 0,
                is_closure(*ctx, start@, states_view(states@)[0]),
                forall|i: int| 0 <= i < states@.len() ==> state_wf(*ctx, #[trigger] states_view(states@)[i]),
                forall|i: int, j: int| 0 <= i < states@.len() && 0 <= j < states@.len() && i != j ==> (#[trigger] states_view(states@)[i]).to_set() != (#[trigger] states_view(states@)[j]).to_set(),
                forall|i: int| 0 <= i < head ==> #[trigger] row_ok(*ctx, sv0, tv0, i),
                k <= cur@.len(),
                forall|e1: int, e2: int| 0 <= e1 < row@.len() && 0 <= e2 < row@.len() && e1 != e2 ==> (#[trigger] row@[e1]).0 != (#[trigger] row@[e2]).0,
                forall|e: int| 0 <= e < row@.len() ==> (#[trigger] row@[e]).1 < states@.len()
                    && states_view(states@)[row@[e].1 as int].to_set() == goto_set(*ctx, cv.to_set(), row@[e].0),
                forall|e: int| 0 <= e < row@.len() ==> has_source(*ctx, cv, (#[trigger] row@[e]).0),
                forall|m: int| 0 <= m < k && (#[trigger] after_sym(ctx.g(), cv[m])).is_some() ==> has_entry(row@, after_sym(ctx.g(), cv[m]).unwrap()),
                forall|m: int| 0 <= m < cv.len() && (#[trigger] after_sym(ctx.g(), cv[m])).is_some() && has_entry(row@, after_sym(ctx.g(), cv[m]).unwrap()) ==> has_closure(*ctx, shifted(cv[m])),
                forall|i: int| 1 <= i < sv0.len() ==> #[trigger] found_before(tv0, i, head as int),
                forall|i: int| sv0.len() <= i < states@.len() ==> h < i && #[trigger] found_by(seq![row@], 0, i),
            decreases cur@.len() - k,
        {
            let a = cur[k].get_symbol_after_dot(ctx);
            if let Some(x) = a {
                if !row_has(&row, x) {
                    let bucket = goto_items(ctx, &cur, x);
                    let found = find_state(&states, &bucket);
                    let ghost rw0 = row@;
                    let ghost svb = states_view(states@);
                    let ghost tvb = trans_view(tr@);
                    let ghost trb = tr@;
                    let j = match found {
                        Some(j) => j,
                        None => {
                            states.push(bucket);
                            tr.push(Vec::new());
                            proof {
                                assert(trans_view(tr@) =~= tvb.push(Seq::<(Sym, usize)>::empty()));
                                assert(states_view(states@) =~= svb.push(states_view(states@)[svb.len() as int]));
                            }
                            states.len() - 1
                        },
                    };
                    row.push((x, j));
                    proof {
                        let sv = states_view(states@);
                        assert forall|i: int| 0 <= i < svb.len() implies #[trigger] sv[i] == svb[i] by {}
                        assert forall|i: int| 0 <= i < tvb.len() implies #[trigger] trans_view(tr@)[i] == tvb[i] by {
                            assert(tr@[i] == trb[i]);
                        }
                        assert forall|i: int| 0 <= i < tv0.len() implies #[trigger] trans_view(tr@)[i] == tv0[i] by {
                            assert(trans_view(tr@)[i] == tvb[i]);
                        }
                        assert(sv[j as int].to_set() == goto_set(*ctx, cv.to_set(), x));
                        assert forall|e: int| 0 <= e < row@.len() implies (#[trigger] row@[e]).1 < states@.len()
                            && sv[row@[e].1 as int].to_set() == goto_set(*ctx, cv.to_set(), row@[e].0) by {
                            if e < rw0.len() {
                                assert(row@[e] == rw0[e]);
                                assert(sv[rw0[e].1 as int] == svb[rw0[e].1 as int]);
                            }
                        }
                        assert forall|e1: int, e2: int| 0 <= e1 < row@.len() && 0 <= e2 < row@.len() && e1 != e2 implies (#[trigger] row@[e1]).0 != (#[trigger] row@[e2]).0 by {
                            if e1 < rw0.len() && e2 < rw0.len() {
                                assert(row@[e1] == rw0[e1] && row@[e2] == rw0[e2]);
                            } else if e1 < rw0.len() {
                                assert(row@[e1] == rw0[e1]);
                            } else {
                                assert(row@[e2] == rw0[e2]);
                            }
                        }
                        assert forall|e: int| 0 <= e < row@.len() implies has_source(*ctx, cv, (#[trigger] row@[e]).0) by {
                            if e < rw0.len() {
                                assert(row@[e] == rw0[e]);
                            } else {
                                assert(after_sym(ctx.g(), cv[k as int]) == Some(x));
                            }
                        }
                        assert forall|m: int| 0 <= m < k + 1 && (#[trigger] after_sym(ctx.g(), cv[m])).is_some() implies has_entry(row@, after_sym(ctx.g(), cv[m]).unwrap()) by {
                            if m < k {
                                assert(has_entry(rw0, after_sym(ctx.g(), cv[m]).unwrap()));
                                let e = choose|e: int| 0 <= e < rw0.len() && (#[trigger] rw0[e]).0 == after_sym(ctx.g(), cv[m]).unwrap();
                                assert(row@[e] == rw0[e]);
                            } else {
                                assert(row@[rw0.len() as int].0 == x);
                            }
                        }
                        assert forall|m: int| 0 <= m < cv.len() && (#[trigger] after_sym(ctx.g(), cv[m])).is_some() && has_entry(row@, after_sym(ctx.g(), cv[m]).unwrap()) implies has_closure(*ctx, shifted(cv[m])) by {
                            if after_sym(ctx.g(), cv[m]).unwrap() != x {
                                let e = choose|e: int| 0 <= e < row@.len() && (#[trigger] row@[e]).0 == after_sym(ctx.g(), cv[m]).unwrap();
                                assert(e < rw0.len());
                                assert(row@[e] == rw0[e]);
                                assert(has_entry(rw0, after_sym(ctx.g(), cv[m]).unwrap()));
                            }
                        }
                        assert forall|i: int| 0 <= i < states@.len() implies state_wf(*ctx, #[trigger] sv[i]) by {
                            if i < svb.len() {
                                assert(sv[i] == svb[i]);
                            }
                        }
                        assert forall|i: int, i2: int| 0 <= i < states@.len() && 0 <= i2 < states@.len() && i != i2 implies (#[trigger] sv[i]).to_set() != (#[trigger] sv[i2]).to_set() by {
                            if i < svb.len() && i2 < svb.len() {
                                assert(sv[i] == svb[i] && sv[i2] == svb[i2]);
                            } else if i < svb.len() {
                                assert(sv[i] == svb[i]);
                            } else {
                                assert(sv[i2] == svb[i2]);
                            }
                        }
                        assert forall|i: int| head <= i < tr@.len() implies (#[trigger] tr@[i])@.len() == 0 by {
                            if i < tvb.len() {
                                assert(trans_view(tr@)[i] == tvb[i]);
                                assert(tvb[i] == tr@[i]@);
                            }
                        }
                        assert forall|i: int| sv0.len() <= i < states@.len() implies h < i && #[trigger] found_by(seq![row@], 0, i) by {
                            if i < svb.len() {
                                assert(found_by(seq![rw0], 0, i));
                                let e = choose|e: int| 0 <= e < seq![rw0][0].len() && #[trigger] seq![rw0][0][e].1 == i;
                                assert(seq![row@][0][e] == rw0[e]);
                            } else {
                                assert(seq![row@][0][rw0.len() as int].1 == i);
                            }
                        }
                    }
                } else {
                    proof {
                        assert forall|m: int| 0 <= m < k + 1 && (#[trigger] after_sym(ctx.g(), cv[m])).is_some() implies has_entry(row@, after_sym(ctx.g(), cv[m]).unwrap()) by {
                        }
                    }
                }
            }
            k = k + 1;
        }
        let ghost svf = states_view(states@);
        let ghost tvf = trans_view(tr@);
        let ghost rowv = row@;
        tr.set(h, row);
        proof {
            let sv = states_view(states@);
            let tv = trans_view(tr@);
            assert(sv == svf);
            assert(tv =~= tvf.update(h as int, rowv));
            assert(sv[h as int] == cv);
            assert(tv[h as int] == rowv);
            assert forall|e: int| 0 <= e < tv[h as int].len() implies (#[trigger] tv[h as int][e]).1 < sv.len()
                && sv[tv[h as int][e].1 as int].to_set() == goto_set(*ctx, sv[h as int].to_set(), tv[h as int][e].0) by {
                assert(tv[h as int][e] == rowv[e]);
            }
            assert forall|e: int| 0 <= e < tv[h as int].len() implies has_source(*ctx, sv[h as int], (#[trigger] tv[h as int][e]).0) by {
                assert(tv[h as int][e] == rowv[e]);
            }
            assert forall|m: int| 0 <= m < sv[h as int].len() && (#[trigger] after_sym(ctx.g(), sv[h as int][m])).is_some() implies has_entry(tv[h as int], after_sym(ctx.g(), sv[h as int][m]).unwrap()) by {
                assert(sv[h as int][m] == cv[m]);
            }
            assert forall|e1: int, e2: int| 0 <= e1 < tv[h as int].len() && 0 <= e2 < tv[h as int].len() && e1 != e2 implies (#[trigger] tv[h as int][e1]).0 != (#[trigger] tv[h as int][e2]).0 by {
                assert(tv[h as int][e1] == rowv[e1] && tv[h as int][e2] == rowv[e2]);
            }
            assert forall|m: int| 0 <= m < sv[h as int].len() && (#[trigger] after_sym(ctx.g(), sv[h as int][m])).is_some() implies has_closure(*ctx, shifted(sv[h as int][m])) by {
                assert(sv[h as int][m] == cv[m]);
                assert(has_entry(rowv, after_sym(ctx.g(), cv[m]).unwrap()));
            }
            assert(row_ok(*ctx, sv, tv, h as int));
            assert forall|i: int| 0 <= i < head + 1 implies #[trigger] row_ok(*ctx, sv, tv, i) by {
                if i < head {
                    assert(row_ok(*ctx, sv0, tv0, i));
                    assert(tv[i] == tv0[i]);
                    lemma_row_ok_extend(*ctx, sv0, tv0, sv, tv, i);
                }
            }
            assert forall|i: int| head + 1 <= i < tr@.len() implies (#[trigger] tr@[i])@.len() == 0 by {
                assert(tr@[i]@ == tvf[i]);
            }
            assert forall|i: int| 1 <= i < states@.len() implies #[trigger] found_before(tv, i, head + 1) by {
                if i < sv0.len() {
                    assert(found_before(tv0, i, head as int));
                    let j = choose|j: int| 0 <= j < i && j < head && #[trigger] found_by(tv0, j, i);
                    let e = choose|e: int| 0 <= e < tv0[j].len() && #[trigger] tv0[j][e].1 == i;
                    assert(tv[j] == tv0[j]);
                    assert(found_by(tv, j, i));
                } else {
                    assert(found_by(seq![rowv], 0, i));
                    let e = choose|e: int| 0 <= e < seq![rowv][0].len() && #[trigger] seq![rowv][0][e].1 == i;
                    assert(tv[h as int][e] == rowv[e]);
                    assert(found_by(tv, h as int, i));
                }
            }
        }
        head = head + 1;
        let sl = states.len();
        assert(sl == states@.len());
    }
    proof {
        let tv = trans_view(tr@);
        assert forall|i: int| 1 <= i < states@.len() implies #[trigger] found_before(tv, i, i) by {
            assert(found_before(tv, i, head as int));
            let j = choose|j: int| 0 <= j < i && j < head && #[trigger] found_by(tv, j, i);
        }
    }
    (states, tr)
}

} // verus!

verus! {

/// An item past the start of a state reached on `x` comes, with the dot moved over `x`,
/// from an item of the state the transition leaves.
pub proof fn lemma_dfa_kernel(
    ctx: CfgContext,
    start: ItemView,
    states: Seq<Seq<ItemView>>,
    tr: Seq<Seq<(Sym, usize)>>,
    i: int,
    e: int,
    m: int,
)
    requires
        dfa_ok(ctx, start, states, tr),
        0 <= i < states.len(),
        0 <= e < tr[i].len(),
        0 <= m < states[tr[i][e].1 as int].len(),
        states[tr[i][e].1 as int][m].d >= 1,
    ensures
        exists|m0: int|
            0 <= m0 < states[i].len() && #[trigger] states[i][m0] == (ItemView {
                p: states[tr[i][e].1 as int][m].p,
                d: (states[tr[i][e].1 as int][m].d - 1) as nat,
                la: states[tr[i][e].1 as int][m].la,
            }) && after_sym(ctx.g(), states[i][m0]) == Some(tr[i][e].0),
{
    let x = tr[i][e].0;
    let j = tr[i][e].1 as int;
    let it = states[j][m];
    assert(row_ok(ctx, states, tr, i));
    assert(states[j].to_set() == goto_set(ctx, states[i].to_set(), x));
    assert(states[j].to_set().contains(it));
    let src = choose|src: ItemView|
        #![trigger states[i].to_set().contains(src), closure_set(ctx, shifted(src)).contains(it)]
        states[i].to_set().contains(src) && after_sym(ctx.g(), src) == Some(x) && closure_set(ctx, shifted(src)).contains(it);
    let m0 = choose|m0: int| 0 <= m0 < states[i].len() && states[i][m0] == src;
    assert(after_sym(ctx.g(), states[i][m0]).is_some());
    assert(has_closure(ctx, shifted(states[i][m0])));
    let c = choose|c: Seq<ItemView>| is_closure(ctx, shifted(src), c);
    assert(closure_set(ctx, shifted(src)) == c.to_set());
    let w = choose|w: int| 0 <= w < c.len() && c[w] == it;
    assert(state_wf(ctx, states[i]));
    assert(valid_item(ctx, states[i][m0]));
    crate::closure::lemma_closure_kernel(ctx, shifted(src), c, w);
    assert(states[i][m0] == ItemView { p: it.p, d: (it.d - 1) as nat, la: it.la });
}

/// Every item of the first state has its dot at the start, when the automaton starts from
/// such an item.
pub proof fn lemma_dfa_first_state(
    ctx: CfgContext,
    start: ItemView,
    states: Seq<Seq<ItemView>>,
    tr: Seq<Seq<(Sym, usize)>>,
    m: int,
)
    requires
        dfa_ok(ctx, start, states, tr),
        start.d == 0,
        0 <= m < states[0].len(),
    ensures
        states[0][m].d == 0,
{
    crate::closure::lemma_closure_start(ctx, start, states[0], m);
}

/// An item with its dot at the start in a state that a transition reaches is expanded from an
/// item of that state.
pub proof fn lemma_dfa_expanded(
    ctx: CfgContext,
    start: ItemView,
    states: Seq<Seq<ItemView>>,
    tr: Seq<Seq<(Sym, usize)>>,
    i: int,
    e: int,
    m: int,
)
    requires
        dfa_ok(ctx, start, states, tr),
        0 <= i < states.len(),
        0 <= e < tr[i].len(),
        0 <= m < states[tr[i][e].1 as int].len(),
        states[tr[i][e].1 as int][m].d == 0,
    ensures
        exists|m1: int|
            0 <= m1 < states[tr[i][e].1 as int].len() && #[trigger] crate::closure::expands(
                ctx.g(),
                states[tr[i][e].1 as int][m1].p as int,
                states[tr[i][e].1 as int][m1].d as int,
                states[tr[i][e].1 as int][m].p as int,
            ),
{
    let x = tr[i][e].0;
    let j = tr[i][e].1 as int;
    let it = states[j][m];
    assert(row_ok(ctx, states, tr, i));
    assert(states[j].to_set() == goto_set(ctx, states[i].to_set(), x));
    assert(states[j].to_set().contains(it));
    let src = choose|src: ItemView|
        #![trigger states[i].to_set().contains(src), closure_set(ctx, shifted(src)).contains(it)]
        states[i].to_set().contains(src) && after_sym(ctx.g(), src) == Some(x) && closure_set(ctx, shifted(src)).contains(it);
    let m0 = choose|m0: int| 0 <= m0 < states[i].len() && states[i][m0] == src;
    assert(after_sym(ctx.g(), states[i][m0]).is_some());
    assert(has_closure(ctx, shifted(states[i][m0])));
    let c = choose|c: Seq<ItemView>| is_closure(ctx, shifted(src), c);
    assert(closure_set(ctx, shifted(src)) == c.to_set());
    let w = choose|w: int| 0 <= w < c.len() && c[w] == it;
    crate::closure::lemma_closure_expanded(ctx, shifted(src), c, w);
    let w1 = choose|w1: int| 0 <= w1 < c.len() && #[trigger] crate::closure::expands(ctx.g(), c[w1].p as int, c[w1].d as int, c[w].p as int);
    assert(c.to_set().contains(c[w1]));
    assert(goto_set(ctx, states[i].to_set(), x).contains(c[w1]));
    assert(states[j].to_set().contains(c[w1]));
    let m1 = choose|m1: int| 0 <= m1 < states[j].len() && states[j][m1] == c[w1];
    assert(crate::closure::expands(ctx.g(), states[j][m1].p as int, states[j][m1].d as int, states[j][m].p as int));
}

} // verus!
