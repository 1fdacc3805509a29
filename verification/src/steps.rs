//! A measure for walks that keep a stack: what is left to do at each level of
//! the stack, the outermost level counting most.

use vstd::prelude::*;

verus! {

/// A number to a power.
pub open spec fn power(b: nat, e: nat) -> nat
    decreases e,
{
    if e == 0 {
        1
    } else {
        b * power(b, (e - 1) as nat)
    }
}

/// The measure of the levels from `j` on, of at most `depth`, each below `b`.
pub open spec fn measure(s: Seq<nat>, b: nat, depth: nat, j: nat) -> nat
    decreases depth - j,
{
    if j >= depth {
        0
    } else {
        (if j < s.len() {
            s[j as int]
        } else {
            0
        }) * power(b, (depth - 1 - j) as nat) + measure(s, b, depth, j + 1)
    }
}

/// Whether `t` has less left than `s` at level `i`, and as much at those around
/// it.
pub open spec fn is_less(t: Seq<nat>, s: Seq<nat>, i: int) -> bool {
    &&& 0 <= i < s.len()
    &&& i < t.len()
    &&& forall|j: int| 0 <= j < i ==> s[j] == #[trigger] t[j]
    &&& t[i] < s[i]
}

/// Whether each level is below `b`, and there are at most `depth`.
pub open spec fn is_bounded(s: Seq<nat>, b: nat, depth: nat) -> bool {
    s.len() <= depth && forall|j: int| 0 <= j < s.len() ==> #[trigger] s[j] < b
}

proof fn lemma_measure_below(s: Seq<nat>, b: nat, depth: nat, j: nat)
    requires
        is_bounded(s, b, depth),
        b > 0,
        j <= depth,
    ensures
        measure(s, b, depth, j) < power(b, (depth - j) as nat),
    decreases depth - j,
{
    if j < depth {
        lemma_measure_below(s, b, depth, j + 1);
        let p = power(b, (depth - 1 - j) as nat);
        let d: nat = if j < s.len() {
            s[j as int]
        } else {
            0
        };
        assert(d < b);
        assert(d * p + p <= b * p) by (nonlinear_arith)
            requires
                d + 1 <= b,
        ;
    }
}

proof fn lemma_less_from(t: Seq<nat>, s: Seq<nat>, b: nat, depth: nat, i: int, j: nat)
    requires
        is_less(t, s, i),
        is_bounded(t, b, depth),
        s.len() <= depth,
        b > 0,
        j <= i,
    ensures
        measure(t, b, depth, j) < measure(s, b, depth, j),
    decreases i - j,
{
    let p = power(b, (depth - 1 - j) as nat);
    if j < i {
        lemma_less_from(t, s, b, depth, i, j + 1);
        assert(s[j as int] == t[j as int]);
    } else {
        lemma_measure_below(t, b, depth, j + 1);
        let x = t[i];
        let y = s[i];
        assert(x * p + p <= y * p) by (nonlinear_arith)
            requires
                x + 1 <= y,
        ;
    }
}

/// Less left at a level, whatever is inside it, is less in all.
pub proof fn lemma_less(t: Seq<nat>, s: Seq<nat>, b: nat, depth: nat, i: int)
    requires
        is_less(t, s, i),
        is_bounded(t, b, depth),
        s.len() <= depth,
        b > 0,
    ensures
        measure(t, b, depth, 0) < measure(s, b, depth, 0),
{
    lemma_less_from(t, s, b, depth, i, 0);
}

} // verus!
