//! Sums over the effective lengths around a face: the alternating sum of the
//! Kawasaki-Justin condition, and the sum of absolute values that bounds
//! every length the shrink procedure computes.

use vstd::prelude::*;

verus! {

/// `l[0] - l[1] + l[2] - ...`
pub open spec fn alt_sum(l: Seq<int>) -> int
    decreases l.len(),
{
    if l.len() == 0 {
        0
    } else {
        l[0] - alt_sum(l.drop_first())
    }
}

pub open spec fn abs(x: int) -> int {
    if x < 0 {
        -x
    } else {
        x
    }
}

/// `|l[0]| + |l[1]| + ...`
pub open spec fn mass(l: Seq<int>) -> int
    decreases l.len(),
{
    if l.len() == 0 {
        0
    } else {
        abs(l[0]) + mass(l.drop_first())
    }
}

/// `k` copies of `x`.
pub open spec fn run(x: int, k: int) -> Seq<int> {
    Seq::new(k as nat, |i: int| x)
}

pub proof fn lemma_alt_concat(p: Seq<int>, q: Seq<int>)
    ensures
        alt_sum(p + q) == alt_sum(p) + (if p.len() % 2 == 0 {
            alt_sum(q)
        } else {
            -alt_sum(q)
        }),
    decreases p.len(),
{
    if p.len() == 0 {
        assert(p + q =~= q);
    } else {
        assert((p + q).drop_first() =~= p.drop_first() + q);
        lemma_alt_concat(p.drop_first(), q);
    }
}

pub proof fn lemma_alt_push(l: Seq<int>, x: int)
    ensures
        alt_sum(l.push(x)) == alt_sum(l) + (if l.len() % 2 == 0 {
            x
        } else {
            -x
        }),
{
    assert(l.push(x) =~= l + seq![x]);
    lemma_alt_concat(l, seq![x]);
    assert(seq![x].drop_first() =~= Seq::<int>::empty());
    assert(alt_sum(seq![x]) == x) by {
        reveal_with_fuel(alt_sum, 2);
    }
}

/// Reading a ring of even length from another node flips at most the sign
/// of its alternating sum.
pub proof fn lemma_alt_rotate(p: Seq<int>, q: Seq<int>)
    requires
        (p.len() + q.len()) % 2 == 0,
    ensures
        alt_sum(q + p) == 0 <==> alt_sum(p + q) == 0,
{
    lemma_alt_concat(p, q);
    lemma_alt_concat(q, p);
}

pub proof fn lemma_alt_run(x: int, k: int)
    requires
        0 <= k,
    ensures
        alt_sum(run(x, k)) == (if k % 2 == 0 {
            0
        } else {
            x
        }),
    decreases k,
{
    if k > 0 {
        assert(run(x, k).drop_first() =~= run(x, k - 1));
        lemma_alt_run(x, k - 1);
    }
}

pub proof fn lemma_mass_concat(p: Seq<int>, q: Seq<int>)
    ensures
        mass(p + q) == mass(p) + mass(q),
        mass(p) >= 0,
    decreases p.len(),
{
    if p.len() == 0 {
        assert(p + q =~= q);
    } else {
        assert((p + q).drop_first() =~= p.drop_first() + q);
        lemma_mass_concat(p.drop_first(), q);
    }
}

pub proof fn lemma_mass_nonnegative(p: Seq<int>)
    ensures
        mass(p) >= 0,
    decreases p.len(),
{
    if p.len() > 0 {
        lemma_mass_nonnegative(p.drop_first());
    }
}

pub proof fn lemma_mass_push(l: Seq<int>, x: int)
    ensures
        mass(l.push(x)) == mass(l) + abs(x),
{
    assert(l.push(x) =~= l + seq![x]);
    lemma_mass_concat(l, seq![x]);
    assert(seq![x].drop_first() =~= Seq::<int>::empty());
    assert(mass(seq![x]) == abs(x)) by {
        reveal_with_fuel(mass, 2);
    }
}

/// Every entry is bounded by the mass.
pub proof fn lemma_mass_bounds(l: Seq<int>, k: int)
    requires
        0 <= k < l.len(),
    ensures
        abs(l[k]) <= mass(l),
    decreases l.len(),
{
    lemma_mass_nonnegative(l.drop_first());
    if k > 0 {
        lemma_mass_bounds(l.drop_first(), k - 1);
    }
}

/// The mass of a sequence whose every entry is bounded by `b`.
pub proof fn lemma_mass_bounded(l: Seq<int>, b: int)
    requires
        forall|k: int| 0 <= k < l.len() ==> abs(#[trigger] l[k]) <= b,
    ensures
        mass(l) <= l.len() * b,
    decreases l.len(),
{
    if l.len() > 0 {
        assert forall|k: int| 0 <= k < l.drop_first().len() implies abs(
            #[trigger] l.drop_first()[k],
        ) <= b by {
            assert(l.drop_first()[k] == l[k + 1]);
        }
        lemma_mass_bounded(l.drop_first(), b);
        assert(abs(l[0]) <= b);
        assert(l.len() * b == (l.len() - 1) * b + b) by (nonlinear_arith);
    } else {
        assert(l.len() * b == 0) by (nonlinear_arith)
            requires
                l.len() == 0,
        ;
    }
}

pub proof fn lemma_mass_run(x: int, k: int)
    requires
        0 <= k,
    ensures
        mass(run(x, k)) >= (if k >= 1 {
            abs(x)
        } else {
            0
        }),
    decreases k,
{
    lemma_mass_nonnegative(run(x, k));
    if k >= 1 {
        lemma_mass_bounds(run(x, k), 0);
    }
}

/// An alternating sum is no more, in absolute value, than the sum of the
/// absolute values.
pub proof fn lemma_alt_bounded(l: Seq<int>)
    ensures
        abs(alt_sum(l)) <= mass(l),
    decreases l.len(),
{
    if l.len() > 0 {
        lemma_alt_bounded(l.drop_first());
    }
}

} // verus!
