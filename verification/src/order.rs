use vstd::prelude::*;
use vstd::string::*;
use crate::grammar::names_of;

verus! {

/// `a` comes before `b` in the order of strings: the first character where they differ is
/// smaller in `a`, or `a` is a proper prefix of `b`.
pub open spec fn str_lt(a: Seq<char>, b: Seq<char>) -> bool
    decreases a.len(),
{
    if a.len() == 0 {
        b.len() > 0
    } else if b.len() == 0 {
        false
    } else if (a[0] as int) < (b[0] as int) {
        true
    } else if a[0] == b[0] {
        str_lt(a.drop_first(), b.drop_first())
    } else {
        false
    }
}

/// The strings are in increasing order.
pub open spec fn sorted_strict(s: Seq<Seq<char>>) -> bool {
    forall|i: int, j: int| 0 <= i < j < s.len() ==> str_lt(#[trigger] s[i], #[trigger] s[j])
}

pub proof fn lemma_str_lt_irreflexive(a: Seq<char>)
    ensures
        !str_lt(a, a),
    decreases a.len(),
{
    if a.len() > 0 {
        lemma_str_lt_irreflexive(a.drop_first());
    }
}

/// Two different strings are ordered one way or the other.
pub proof fn lemma_str_lt_total(a: Seq<char>, b: Seq<char>)
    requires
        a != b,
    ensures
        str_lt(a, b) || str_lt(b, a),
    decreases a.len(),
{
    if a.len() > 0 && b.len() > 0 {
        if a[0] == b[0] {
            if a.drop_first() == b.drop_first() {
                assert(a =~= seq![a[0]] + a.drop_first());
                assert(b =~= seq![b[0]] + b.drop_first());
            }
            lemma_str_lt_total(a.drop_first(), b.drop_first());
        } else {
            assert((a[0] as int) != (b[0] as int));
        }
    } else if a.len() == 0 && b.len() == 0 {
        assert(a =~= b);
    }
}

pub proof fn lemma_str_lt_transitive(a: Seq<char>, b: Seq<char>, c: Seq<char>)
    requires
        str_lt(a, b),
        str_lt(b, c),
    ensures
        str_lt(a, c),
    decreases a.len(),
{
    if a.len() > 0 && b.len() > 0 && c.len() > 0 {
        if a[0] == b[0] && b[0] == c[0] {
            lemma_str_lt_transitive(a.drop_first(), b.drop_first(), c.drop_first());
        }
    }
}

/// Whether `a` comes before `b` in the order of strings.
pub fn str_less(a: &String, b: &String) -> (r: bool)
    ensures
        r == str_lt(a@, b@),
{
    let sa = a.as_str();
    let sb = b.as_str();
    let na = sa.unicode_len();
    let nb = sb.unicode_len();
    let mut i: usize = 0;
    assert(a@.skip(0) =~= a@ && b@.skip(0) =~= b@);
    while i < na && i < nb
        invariant
            sa@ == a@,
            sb@ == b@,
            na == a@.len(),
            nb == b@.len(),
            i <= na,
            i <= nb,
            str_lt(a@, b@) == str_lt(a@.skip(i as int), b@.skip(i as int)),
        decreases na - i,
    {
        let ca = sa.get_char(i);
        let cb = sb.get_char(i);
        assert(a@.skip(i as int)[0] == ca && b@.skip(i as int)[0] == cb);
        if (ca as u32) < (cb as u32) {
            return true;
        }
        if ca != cb {
            return false;
        }
        assert(a@.skip(i as int).drop_first() =~= a@.skip(i + 1));
        assert(b@.skip(i as int).drop_first() =~= b@.skip(i + 1));
        i = i + 1;
    }
    i < nb
}

/// The names of the set bits among the first `k`, in the order of their indices.
pub open spec fn bit_names(names: Seq<Seq<char>>, bits: Seq<bool>, k: int) -> Seq<Seq<char>>
    decreases k,
{
    if k <= 0 {
        Seq::empty()
    } else if bits[k - 1] {
        bit_names(names, bits, k - 1).push(names[k - 1])
    } else {
        bit_names(names, bits, k - 1)
    }
}

/// A name among the first `k` set bits has the index of a set bit below `k`.
pub proof fn lemma_bit_names(names: Seq<Seq<char>>, bits: Seq<bool>, k: int, x: Seq<char>)
    requires
        0 <= k <= bits.len(),
        k <= names.len(),
    ensures
        bit_names(names, bits, k).contains(x) <==> exists|t: int| 0 <= t < k && bits[t] && names[t] == x,
    decreases k,
{
    if k > 0 {
        lemma_bit_names(names, bits, k - 1, x);
        if bits[k - 1] {
            let b = bit_names(names, bits, k - 1);
            let bp = b.push(names[k - 1]);
            assert(bp.contains(x) <==> (b.contains(x) || names[k - 1] == x)) by {
                if bp.contains(x) {
                    let j = choose|j: int| 0 <= j < bp.len() && bp[j] == x;
                    if j < b.len() {
                        assert(b[j] == x);
                    }
                }
                if b.contains(x) {
                    let j = choose|j: int| 0 <= j < b.len() && b[j] == x;
                    assert(b.push(names[k - 1])[j] == x);
                }
                if names[k - 1] == x {
                    assert(b.push(names[k - 1])[b.len() as int] == x);
                }
            }
        }
    }
}

/// The names of the set bits of `bits`, in increasing order.
pub fn sorted_names(names: &Vec<String>, bits: &Vec<bool>) -> (r: Vec<String>)
    requires
        names_of(names@).no_duplicates(),
        bits@.len() <= names@.len(),
    ensures
        sorted_strict(names_of(r@)),
        names_of(r@).to_set() == bit_names(names_of(names@), bits@, bits@.len() as int).to_set(),
        names_of(r@).len() == bit_names(names_of(names@), bits@, bits@.len() as int).len(),
{
    let ghost ns = names_of(names@);
    let mut r: Vec<String> = Vec::new();
    let mut t: usize = 0;
    while t < bits.len()
        invariant
            ns == names_of(names@),
            ns.no_duplicates(),
            bits@.len() <= names@.len(),
            t <= bits@.len(),
            sorted_strict(names_of(r@)),
            names_of(r@).to_set() == bit_names(ns, bits@, t as int).to_set(),
            names_of(r@).len() == bit_names(ns, bits@, t as int).len(),
        decreases bits@.len() - t,
    {
        if bits[t] {
            let x = &names[t];
            let ghost rv = names_of(r@);
            assert(x@ == ns[t as int]);
            proof {
                if rv.contains(x@) {
                    assert(rv.to_set().contains(x@));
                    lemma_bit_names(ns, bits@, t as int, x@);
                    let t2 = choose|t2: int| 0 <= t2 < t && bits@[t2] && ns[t2] == x@;
                }
            }
            let mut j: usize = 0;
            while j < r.len() && !str_less(x, &r[j])
                invariant
                    rv == names_of(r@),
                    !rv.contains(x@),
                    j <= rv.len(),
                    forall|i: int| 0 <= i < j ==> str_lt(#[trigger] rv[i], x@),
                decreases rv.len() - j,
            {
                proof {
                    assert(rv[j as int] != x@);
                    lemma_str_lt_total(x@, rv[j as int]);
                }
                j = j + 1;
            }
            let ghost j0 = j as int;
            r.insert(j, x.clone());
            proof {
                let r2 = names_of(r@);
                assert(r2 =~= rv.insert(j0, x@));
                assert forall|a: int, b: int| 0 <= a < b < r2.len() implies str_lt(#[trigger] r2[a], #[trigger] r2[b]) by {
                    if b < j0 {
                        assert(r2[a] == rv[a] && r2[b] == rv[b]);
                    } else if b == j0 {
                        assert(r2[a] == rv[a]);
                    } else if a < j0 {
                        assert(r2[a] == rv[a] && r2[b] == rv[b - 1]);
                        assert(str_lt(rv[a], x@));
                        assert(str_lt(x@, rv[j0]));
                        if b - 1 > j0 {
                            assert(str_lt(rv[j0], rv[b - 1]));
                            lemma_str_lt_transitive(x@, rv[j0], rv[b - 1]);
                        }
                        lemma_str_lt_transitive(rv[a], x@, rv[b - 1]);
                    } else if a == j0 {
                        assert(r2[b] == rv[b - 1]);
                        assert(str_lt(x@, rv[j0]));
                        if b - 1 > j0 {
                            assert(str_lt(rv[j0], rv[b - 1]));
                            lemma_str_lt_transitive(x@, rv[j0], rv[b - 1]);
                        }
                    } else {
                        assert(r2[a] == rv[a - 1] && r2[b] == rv[b - 1]);
                    }
                }
                assert(bit_names(ns, bits@, t + 1) == bit_names(ns, bits@, t as int).push(x@));
                assert(r2.to_set() =~= rv.to_set().insert(x@)) by {
                    assert forall|y: Seq<char>| r2.to_set().contains(y) <==> rv.to_set().insert(x@).contains(y) by {
                        if r2.contains(y) {
                            let i = choose|i: int| 0 <= i < r2.len() && r2[i] == y;
                            if i < j0 {
                                assert(rv[i] == y);
                            } else if i > j0 {
                                assert(rv[i - 1] == y);
                            }
                        }
                        if rv.contains(y) {
                            let i = choose|i: int| 0 <= i < rv.len() && rv[i] == y;
                            if i < j0 {
                                assert(r2[i] == y);
                            } else {
                                assert(r2[i + 1] == y);
                            }
                        }
                        if y == x@ {
                            assert(r2[j0] == y);
                        }
                    }
                }
                let bn = bit_names(ns, bits@, t as int);
                assert forall|y: Seq<char>| bn.push(x@).to_set().contains(y) <==> bn.to_set().insert(x@).contains(y) by {
                    if bn.push(x@).contains(y) {
                        let i = choose|i: int| 0 <= i < bn.len() + 1 && bn.push(x@)[i] == y;
                        if i < bn.len() {
                            assert(bn[i] == y);
                        }
                    }
                    if bn.contains(y) {
                        let i = choose|i: int| 0 <= i < bn.len() && bn[i] == y;
                        assert(bn.push(x@)[i] == y);
                    }
                    if y == x@ {
                        assert(bn.push(x@)[bn.len() as int] == y);
                    }
                }
                assert(bit_names(ns, bits@, t + 1).to_set() =~= bn.to_set().insert(x@));
            }
        }
        t = t + 1;
    }
    r
}

pub proof fn lemma_str_lt_asymmetric(a: Seq<char>, b: Seq<char>)
    requires
        str_lt(a, b),
    ensures
        !str_lt(b, a),
{
    if str_lt(b, a) {
        lemma_str_lt_transitive(a, b, a);
        lemma_str_lt_irreflexive(a);
    }
}

/// Two lists in increasing order with the same elements are equal.
pub proof fn lemma_sorted_unique(s1: Seq<Seq<char>>, s2: Seq<Seq<char>>)
    requires
        sorted_strict(s1),
        sorted_strict(s2),
        s1.to_set() == s2.to_set(),
    ensures
        s1 == s2,
    decreases s1.len(),
{
    if s1.len() == 0 {
        if s2.len() > 0 {
            assert(s2.to_set().contains(s2[0]));
        }
        assert(s1 =~= s2);
    } else if s2.len() == 0 {
        assert(s1.to_set().contains(s1[0]));
    } else {
        assert(s1.to_set().contains(s1[0]));
        assert(s2.to_set().contains(s2[0]));
        let j1 = choose|j: int| 0 <= j < s2.len() && s2[j] == s1[0];
        let j2 = choose|j: int| 0 <= j < s1.len() && s1[j] == s2[0];
        if s1[0] != s2[0] {
            assert(j1 > 0 && j2 > 0);
            assert(str_lt(s2[0], s2[j1]));
            assert(str_lt(s1[0], s1[j2]));
            lemma_str_lt_asymmetric(s2[0], s1[0]);
        }
        let r1 = s1.drop_first();
        let r2 = s2.drop_first();
        assert forall|x: Seq<char>| r1.to_set().contains(x) <==> r2.to_set().contains(x) by {
            if r1.contains(x) {
                let i = choose|i: int| 0 <= i < r1.len() && r1[i] == x;
                assert(s1[i + 1] == x);
                assert(str_lt(s1[0], x));
                assert(s2.to_set().contains(x));
                let k = choose|k: int| 0 <= k < s2.len() && s2[k] == x;
                if k == 0 {
                    lemma_str_lt_irreflexive(x);
                }
                assert(r2[k - 1] == x);
            }
            if r2.contains(x) {
                let i = choose|i: int| 0 <= i < r2.len() && r2[i] == x;
                assert(s2[i + 1] == x);
                assert(str_lt(s2[0], x));
                assert(s1.to_set().contains(x));
                let k = choose|k: int| 0 <= k < s1.len() && s1[k] == x;
                if k == 0 {
                    lemma_str_lt_irreflexive(x);
                }
                assert(r1[k - 1] == x);
            }
        }
        assert(r1.to_set() =~= r2.to_set());
        lemma_sorted_unique(r1, r2);
        assert(s1 =~= seq![s1[0]] + r1);
        assert(s2 =~= seq![s2[0]] + r2);
    }
}

/// The names of the set bits of `bits`, in increasing order.
pub open spec fn sorted_bit_names(names: Seq<Seq<char>>, bits: Seq<bool>) -> Seq<Seq<char>> {
    choose|s: Seq<Seq<char>>| sorted_strict(s) && s.to_set() == bit_names(names, bits, bits.len() as int).to_set()
}

/// A list in increasing order of the names of the set bits is `sorted_bit_names`.
pub proof fn lemma_sorted_bit_names(names: Seq<Seq<char>>, bits: Seq<bool>, s: Seq<Seq<char>>)
    requires
        sorted_strict(s),
        s.to_set() == bit_names(names, bits, bits.len() as int).to_set(),
    ensures
        sorted_bit_names(names, bits) == s,
{
    let c = sorted_bit_names(names, bits);
    lemma_sorted_unique(c, s);
}

/// `a` comes before `b` in the order of lists of strings: at the first place where they
/// differ the string of `a` comes first, or `a` is a proper prefix of `b`.
pub open spec fn strs_lt(a: Seq<Seq<char>>, b: Seq<Seq<char>>) -> bool
    decreases a.len(),
{
    if a.len() == 0 {
        b.len() > 0
    } else if b.len() == 0 {
        false
    } else if str_lt(a[0], b[0]) {
        true
    } else if a[0] == b[0] {
        strs_lt(a.drop_first(), b.drop_first())
    } else {
        false
    }
}

pub proof fn lemma_strs_lt_irreflexive(a: Seq<Seq<char>>)
    ensures
        !strs_lt(a, a),
    decreases a.len(),
{
    if a.len() > 0 {
        lemma_str_lt_irreflexive(a[0]);
        lemma_strs_lt_irreflexive(a.drop_first());
    }
}

pub proof fn lemma_strs_lt_total(a: Seq<Seq<char>>, b: Seq<Seq<char>>)
    requires
        a != b,
    ensures
        strs_lt(a, b) || strs_lt(b, a),
    decreases a.len(),
{
    if a.len() > 0 && b.len() > 0 {
        if a[0] == b[0] {
            if a.drop_first() == b.drop_first() {
                assert(a =~= seq![a[0]] + a.drop_first());
                assert(b =~= seq![b[0]] + b.drop_first());
            }
            lemma_strs_lt_total(a.drop_first(), b.drop_first());
        } else {
            lemma_str_lt_total(a[0], b[0]);
        }
    } else if a.len() == 0 && b.len() == 0 {
        assert(a =~= b);
    }
}

pub proof fn lemma_strs_lt_transitive(a: Seq<Seq<char>>, b: Seq<Seq<char>>, c: Seq<Seq<char>>)
    requires
        strs_lt(a, b),
        strs_lt(b, c),
    ensures
        strs_lt(a, c),
    decreases a.len(),
{
    if a.len() > 0 && b.len() > 0 && c.len() > 0 {
        if str_lt(a[0], b[0]) {
            if str_lt(b[0], c[0]) {
                lemma_str_lt_transitive(a[0], b[0], c[0]);
            }
        } else if a[0] == b[0] {
            if b[0] == c[0] {
                lemma_strs_lt_transitive(a.drop_first(), b.drop_first(), c.drop_first());
            }
        }
    }
}

/// Whether `a` comes before `b` in the order of lists of strings.
pub fn strs_less(a: &Vec<String>, b: &Vec<String>) -> (r: bool)
    ensures
        r == strs_lt(names_of(a@), names_of(b@)),
{
    let ghost na = names_of(a@);
    let ghost nb = names_of(b@);
    let mut i: usize = 0;
    assert(na.skip(0) =~= na && nb.skip(0) =~= nb);
    while i < a.len() && i < b.len()
        invariant
            na == names_of(a@),
            nb == names_of(b@),
            i <= a@.len(),
            i <= b@.len(),
            strs_lt(na, nb) == strs_lt(na.skip(i as int), nb.skip(i as int)),
        decreases a@.len() - i,
    {
        assert(na.skip(i as int)[0] == a@[i as int]@ && nb.skip(i as int)[0] == b@[i as int]@);
        if str_less(&a[i], &b[i]) {
            return true;
        }
        if a[i] != b[i] {
            return false;
        }
        assert(na.skip(i as int).drop_first() =~= na.skip(i + 1));
        assert(nb.skip(i as int).drop_first() =~= nb.skip(i + 1));
        i = i + 1;
    }
    i < b.len()
}

} // verus!
