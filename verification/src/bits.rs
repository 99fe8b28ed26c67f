use vstd::prelude::*;

verus! {

/// Membership in a set of indices held as a bitmap.
pub open spec fn mem(s: Seq<bool>, i: int) -> bool {
    0 <= i < s.len() && s[i]
}

/// Membership in row `i` of a bitmap matrix.
pub open spec fn mem2(m: Seq<Seq<bool>>, i: int, t: int) -> bool {
    0 <= i < m.len() && mem(m[i], t)
}

/// Inclusion of bitmaps.
pub open spec fn le(a: Seq<bool>, b: Seq<bool>) -> bool {
    forall|i: int| #[trigger] mem(a, i) ==> mem(b, i)
}

/// Row-wise inclusion of bitmap matrices.
pub open spec fn le2(a: Seq<Seq<bool>>, b: Seq<Seq<bool>>) -> bool {
    forall|i: int, t: int| #[trigger] mem2(a, i, t) ==> mem2(b, i, t)
}

/// Pointwise union of two bitmaps of the same length.
pub open spec fn union(a: Seq<bool>, b: Seq<bool>) -> Seq<bool> {
    Seq::new(a.len(), |i: int| a[i] || b[i])
}

/// The views of the rows of a matrix.
pub open spec fn mat(m: Seq<Vec<bool>>) -> Seq<Seq<bool>> {
    m.map_values(|r: Vec<bool>| r@)
}

/// Every row of `m` has length `n`.
pub open spec fn square(m: Seq<Seq<bool>>, n: nat) -> bool {
    m.len() == n && forall|i: int| 0 <= i < m.len() ==> (#[trigger] m[i]).len() == n
}

/// The number of set bits.
pub open spec fn count(s: Seq<bool>) -> nat
    decreases s.len(),
{
    if s.len() == 0 {
        0
    } else {
        count(s.drop_last()) + if s.last() {
            1nat
        } else {
            0nat
        }
    }
}

/// The number of set bits of a matrix.
pub open spec fn count2(m: Seq<Seq<bool>>) -> nat
    decreases m.len(),
{
    if m.len() == 0 {
        0
    } else {
        count2(m.drop_last()) + count(m.last())
    }
}

/// The number of bits of a matrix.
pub open spec fn cap2(m: Seq<Seq<bool>>) -> nat
    decreases m.len(),
{
    if m.len() == 0 {
        0
    } else {
        cap2(m.drop_last()) + m.last().len()
    }
}

pub proof fn lemma_count_le_len(s: Seq<bool>)
    ensures
        count(s) <= s.len(),
    decreases s.len(),
{
    if s.len() > 0 {
        lemma_count_le_len(s.drop_last());
    }
}

/// Growing a bitmap does not lower its count, and growing it strictly raises it.
pub proof fn lemma_count_mono(a: Seq<bool>, b: Seq<bool>)
    requires
        a.len() == b.len(),
        le(a, b),
    ensures
        count(a) <= count(b),
        a != b ==> count(a) < count(b),
    decreases a.len(),
{
    if a.len() > 0 {
        let a1 = a.drop_last();
        let b1 = b.drop_last();
        assert forall|i: int| #[trigger] mem(a1, i) implies mem(b1, i) by {
            assert(mem(a, i));
        }
        lemma_count_mono(a1, b1);
        assert(mem(a, a.len() - 1) ==> mem(b, a.len() - 1));
        if a != b {
            if a1 == b1 && a.last() == b.last() {
                assert forall|i: int| 0 <= i < a.len() implies a[i] == b[i] by {
                    if i < a.len() - 1 {
                        assert(a1[i] == b1[i]);
                    }
                }
                assert(a =~= b);
            }
        }
    } else {
        assert(a =~= b);
    }
}

pub proof fn lemma_count2_le_cap2(m: Seq<Seq<bool>>)
    ensures
        count2(m) <= cap2(m),
    decreases m.len(),
{
    if m.len() > 0 {
        lemma_count2_le_cap2(m.drop_last());
        lemma_count_le_len(m.last());
    }
}

/// Replacing row `i` changes the count by the difference of the row counts
/// and keeps the capacity when the row keeps its length.
pub proof fn lemma_count2_update(m: Seq<Seq<bool>>, i: int, r: Seq<bool>)
    requires
        0 <= i < m.len(),
    ensures
        count2(m.update(i, r)) + count(m[i]) == count2(m) + count(r),
        r.len() == m[i].len() ==> cap2(m.update(i, r)) == cap2(m),
    decreases m.len(),
{
    let m2 = m.update(i, r);
    if i == m.len() - 1 {
        assert(m2.drop_last() =~= m.drop_last());
    } else {
        assert(m2.drop_last() =~= m.drop_last().update(i, r));
        lemma_count2_update(m.drop_last(), i, r);
    }
}

/// An all-false bitmap of length `n`.
pub fn falses(n: usize) -> (r: Vec<bool>)
    ensures
        r@.len() == n,
        forall|i: int| 0 <= i < n ==> !(#[trigger] r@[i]),
{
    let mut r: Vec<bool> = Vec::new();
    let mut i: usize = 0;
    while i < n
        invariant
            i <= n,
            r@.len() == i,
            forall|j: int| 0 <= j < i ==> !(#[trigger] r@[j]),
        decreases n - i,
    {
        r.push(false);
        i = i + 1;
    }
    r
}

/// An all-false `n` by `n` bitmap matrix.
pub fn false_matrix(n: usize) -> (r: Vec<Vec<bool>>)
    ensures
        square(mat(r@), n as nat),
        forall|i: int, t: int| !(#[trigger] mem2(mat(r@), i, t)),
{
    let mut r: Vec<Vec<bool>> = Vec::new();
    let mut i: usize = 0;
    while i < n
        invariant
            i <= n,
            r@.len() == i,
            forall|j: int| 0 <= j < i ==> (#[trigger] r@[j])@.len() == n,
            forall|j: int, t: int| 0 <= j < i ==> !(#[trigger] mem(r@[j]@, t)),
        decreases n - i,
    {
        r.push(falses(n));
        i = i + 1;
    }
    assert forall|j: int, t: int| !(#[trigger] mem2(mat(r@), j, t)) by {
        if 0 <= j < r@.len() {
            assert(mat(r@)[j] == r@[j]@);
        }
    }
    r
}

/// Adds the bits of `src` to `dst`; tells whether `dst` changed.
pub fn union_into(dst: &mut Vec<bool>, src: &Vec<bool>) -> (changed: bool)
    requires
        old(dst)@.len() == src@.len(),
    ensures
        final(dst)@ == union(old(dst)@, src@),
        changed == (final(dst)@ != old(dst)@),
{
    let ghost d0 = dst@;
    let mut changed = false;
    let mut i: usize = 0;
    while i < src.len()
        invariant
            i <= src@.len(),
            dst@.len() == src@.len(),
            d0.len() == src@.len(),
            forall|j: int| 0 <= j < i ==> #[trigger] dst@[j] == (d0[j] || src@[j]),
            forall|j: int| i <= j < dst@.len() ==> #[trigger] dst@[j] == d0[j],
            changed == exists|j: int| 0 <= j < i && #[trigger] dst@[j] != d0[j],
        decreases src@.len() - i,
    {
        if src[i] && !dst[i] {
            dst.set(i, true);
            changed = true;
            assert(dst@[i as int] != d0[i as int]);
        }
        i = i + 1;
    }
    assert(dst@ =~= union(d0, src@));
    if !changed {
        assert(dst@ =~= d0);
    }
    changed
}

/// Adds the bits of `src` to row `i` of `m`; tells whether the row changed.
pub fn union_row(m: &mut Vec<Vec<bool>>, i: usize, src: &Vec<bool>) -> (changed: bool)
    requires
        i < old(m)@.len(),
        old(m)@[i as int]@.len() == src@.len(),
    ensures
        mat(final(m)@) == mat(old(m)@).update(i as int, union(old(m)@[i as int]@, src@)),
        changed == (union(old(m)@[i as int]@, src@) != old(m)@[i as int]@),
{
    let mut row = m[i].clone();
    assert(row@ =~= m@[i as int]@);
    let changed = union_into(&mut row, src);
    m.set(i, row);
    assert(mat(m@) =~= mat(old(m)@).update(i as int, union(old(m)@[i as int]@, src@)));
    changed
}

} // verus!

verus! {

/// Growing a matrix row-wise does not lower its count, and growing it strictly raises it.
pub proof fn lemma_count2_mono(a: Seq<Seq<bool>>, b: Seq<Seq<bool>>)
    requires
        a.len() == b.len(),
        forall|i: int| 0 <= i < a.len() ==> (#[trigger] a[i]).len() == b[i].len(),
        le2(a, b),
    ensures
        count2(a) <= count2(b),
        a != b ==> count2(a) < count2(b),
    decreases a.len(),
{
    if a.len() > 0 {
        let a1 = a.drop_last();
        let b1 = b.drop_last();
        let l = a.len() - 1;
        assert forall|i: int, t: int| #[trigger] mem2(a1, i, t) implies mem2(b1, i, t) by {
            assert(mem2(a, i, t));
        }
        assert forall|i: int| 0 <= i < a1.len() implies (#[trigger] a1[i]).len() == b1[i].len() by {
            assert(a[i].len() == b[i].len());
        }
        lemma_count2_mono(a1, b1);
        assert forall|t: int| #[trigger] mem(a.last(), t) implies mem(b.last(), t) by {
            assert(mem2(a, l, t));
        }
        assert(a[l].len() == b[l].len());
        lemma_count_mono(a.last(), b.last());
        if a != b {
            if a1 == b1 && a.last() == b.last() {
                assert forall|i: int| 0 <= i < a.len() implies a[i] == b[i] by {
                    if i < l {
                        assert(a1[i] == b1[i]);
                    }
                }
                assert(a =~= b);
            }
        }
    } else {
        assert(a =~= b);
    }
}

} // verus!

verus! {

/// An all-false matrix of `m` rows of `n` bits.
pub fn false_rows(m: usize, n: usize) -> (r: Vec<Vec<bool>>)
    ensures
        mat(r@).len() == m,
        forall|i: int| 0 <= i < m ==> (#[trigger] mat(r@)[i]).len() == n,
        forall|i: int, t: int| !(#[trigger] mem2(mat(r@), i, t)),
{
    let mut r: Vec<Vec<bool>> = Vec::new();
    let mut i: usize = 0;
    while i < m
        invariant
            i <= m,
            r@.len() == i,
            forall|j: int| 0 <= j < i ==> (#[trigger] r@[j])@.len() == n,
            forall|j: int, t: int| 0 <= j < i ==> !(#[trigger] mem(r@[j]@, t)),
        decreases m - i,
    {
        r.push(falses(n));
        i = i + 1;
    }
    assert forall|j: int, t: int| !(#[trigger] mem2(mat(r@), j, t)) by {
        if 0 <= j < r@.len() {
            assert(mat(r@)[j] == r@[j]@);
        }
    }
    r
}

} // verus!
