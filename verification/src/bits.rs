//! Rows of flags, used as sets over small integer ranges.

use vstd::prelude::*;

verus! {

/// How many flags are off.
pub open spec fn missing(s: Seq<bool>) -> nat
    decreases s.len(),
{
    if s.len() == 0 {
        0
    } else {
        missing(s.drop_last()) + if s.last() {
            0nat
        } else {
            1nat
        }
    }
}

/// How many flags are off in all rows together.
pub open spec fn missing_rows(m: Seq<Vec<bool>>) -> nat
    decreases m.len(),
{
    if m.len() == 0 {
        0
    } else {
        missing_rows(m.drop_last()) + missing(m.last()@)
    }
}

/// Whether every flag that is on in `a` is on in `b`.
pub open spec fn row_le(a: Seq<bool>, b: Seq<bool>) -> bool {
    a.len() == b.len() && forall|i: int| 0 <= i < a.len() && a[i] ==> #[trigger] b[i]
}

/// Where more flags are on, fewer are missing.
pub proof fn lemma_missing_le(a: Seq<bool>, b: Seq<bool>)
    requires
        row_le(a, b),
    ensures
        missing(b) <= missing(a),
        a != b ==> missing(b) < missing(a),
    decreases a.len(),
{
    if a.len() > 0 {
        assert(a[a.len() - 1] ==> b[b.len() - 1]);
        assert forall|i: int| 0 <= i < a.drop_last().len() && a.drop_last()[i] implies
            #[trigger] b.drop_last()[i] by {
            assert(a[i] ==> b[i]);
        }
        lemma_missing_le(a.drop_last(), b.drop_last());
        if a.drop_last() == b.drop_last() && a.last() == b.last() {
            assert(a =~= a.drop_last().push(a.last()));
            assert(b =~= b.drop_last().push(b.last()));
        }
    } else {
        assert(a =~= b);
    }
}

/// Where more flags are on in the rows, fewer are missing in all.
pub proof fn lemma_missing_rows_le(a: Seq<Vec<bool>>, b: Seq<Vec<bool>>)
    requires
        a.len() == b.len(),
        forall|i: int| 0 <= i < a.len() ==> row_le(#[trigger] a[i]@, b[i]@),
    ensures
        missing_rows(b) <= missing_rows(a),
        (exists|i: int| 0 <= i < a.len() && #[trigger] a[i]@ != b[i]@) ==> missing_rows(b)
            < missing_rows(a),
    decreases a.len(),
{
    if a.len() > 0 {
        let n = a.len() - 1;
        assert(row_le(a[n]@, b[n]@));
        lemma_missing_le(a[n]@, b[n]@);
        assert forall|i: int| 0 <= i < a.drop_last().len() implies row_le(
            #[trigger] a.drop_last()[i]@,
            b.drop_last()[i]@,
        ) by {
            assert(row_le(a[i]@, b[i]@));
        }
        lemma_missing_rows_le(a.drop_last(), b.drop_last());
        if exists|i: int| 0 <= i < a.len() && #[trigger] a[i]@ != b[i]@ {
            let i = choose|i: int| 0 <= i < a.len() && #[trigger] a[i]@ != b[i]@;
            if i < n {
                assert(a.drop_last()[i]@ != b.drop_last()[i]@);
            }
        }
    }
}

/// A row of `n` flags, all off.
pub fn blank_row(n: usize) -> (r: Vec<bool>)
    ensures
        r@ == Seq::new(n as nat, |i: int| false),
{
    let mut r: Vec<bool> = Vec::new();
    let mut i: usize = 0;
    while i < n
        invariant
            i <= n,
            r@ == Seq::new(i as nat, |k: int| false),
        decreases n - i,
    {
        r.push(false);
        i = i + 1;
        proof {
            assert(r@ =~= Seq::new(i as nat, |k: int| false));
        }
    }
    r
}

/// `n` rows of `width` flags, all off.
pub fn blank_rows(n: usize, width: usize) -> (r: Vec<Vec<bool>>)
    ensures
        r@.len() == n,
        forall|i: int| 0 <= i < n ==> (#[trigger] r@[i])@ == Seq::new(width as nat, |k: int| false),
{
    let mut r: Vec<Vec<bool>> = Vec::new();
    let mut i: usize = 0;
    while i < n
        invariant
            i <= n,
            r@.len() == i,
            forall|k: int|
                0 <= k < i ==> (#[trigger] r@[k])@ == Seq::new(width as nat, |j: int| false),
        decreases n - i,
    {
        r.push(blank_row(width));
        i = i + 1;
    }
    r
}

/// Turns on in `dst` every flag that is on in `src`; tells whether one was off.
pub fn union_into(dst: &mut Vec<bool>, src: &Vec<bool>) -> (changed: bool)
    requires
        old(dst)@.len() == src@.len(),
    ensures
        final(dst)@ == Seq::new(src@.len(), |i: int| old(dst)@[i] || src@[i]),
        row_le(old(dst)@, final(dst)@),
        changed == (final(dst)@ != old(dst)@),
{
    let mut changed = false;
    let mut i: usize = 0;
    while i < src.len()
        invariant
            i <= src.len(),
            dst@.len() == src@.len(),
            old(dst)@.len() == src@.len(),
            forall|k: int| 0 <= k < i ==> #[trigger] dst@[k] == (old(dst)@[k] || src@[k]),
            forall|k: int| i <= k < src@.len() ==> #[trigger] dst@[k] == old(dst)@[k],
            changed == (exists|k: int| 0 <= k < i && #[trigger] dst@[k] != old(dst)@[k]),
        decreases src.len() - i,
    {
        let ghost before = dst@;
        if src[i] && !dst[i] {
            dst.set(i, true);
            changed = true;
            proof {
                assert(dst@[i as int] != old(dst)@[i as int]);
            }
        }
        proof {
            if exists|k: int| 0 <= k < i && #[trigger] before[k] != old(dst)@[k] {
                let k = choose|k: int| 0 <= k < i && #[trigger] before[k] != old(dst)@[k];
                assert(dst@[k] != old(dst)@[k]);
            }
            if exists|k: int| 0 <= k < i + 1 && #[trigger] dst@[k] != old(dst)@[k] {
                let k = choose|k: int| 0 <= k < i + 1 && #[trigger] dst@[k] != old(dst)@[k];
                if k < i {
                    assert(before[k] != old(dst)@[k]);
                }
            }
        }
        i = i + 1;
    }
    proof {
        assert(dst@ =~= Seq::new(src@.len(), |i: int| old(dst)@[i] || src@[i]));
        if dst@ != old(dst)@ {
            if forall|k: int| 0 <= k < src@.len() ==> #[trigger] dst@[k] == old(dst)@[k] {
                assert(dst@ =~= old(dst)@);
            }
        }
    }
    changed
}

} // verus!
