//! Counting arguments on finite ranges: a list without repetition is no
//! longer than its range, and a permutation of a range returns to where it
//! started.

use vstd::prelude::*;
use vstd::set_lib::{lemma_int_range, lemma_len_subset, set_int_range};

verus! {

/// A sequence of distinct integers of `0..n` has at most `n` entries.
pub proof fn lemma_distinct_bounded(s: Seq<int>, n: int)
    requires
        0 <= n,
        forall|i: int| 0 <= i < s.len() ==> 0 <= #[trigger] s[i] < n,
        forall|i: int, j: int| 0 <= i < j < s.len() ==> s[i] != s[j],
    ensures
        s.len() <= n,
{
    if s.len() > 0 {
        assert(0 <= s[0] < n);
        assert(s.no_duplicates()) by {
            assert forall|i: int, j: int| 0 <= i < s.len() && 0 <= j < s.len() && i != j implies s[i]
                != s[j] by {
                if i < j {
                    assert(s[i] != s[j]);
                } else {
                    assert(s[j] != s[i]);
                }
            }
        }
        s.unique_seq_to_set();
        lemma_int_range(0, n);
        assert(s.to_set().subset_of(set_int_range(0, n))) by {
            assert forall|x: int| s.to_set().contains(x) implies set_int_range(0, n).contains(x) by {
                let i = choose|i: int| 0 <= i < s.len() && s[i] == x;
                assert(0 <= s[i] < n);
            }
        }
        lemma_len_subset(s.to_set(), set_int_range(0, n));
    }
}

/// `f` applied `k` times to `x`.
pub open spec fn iterate(f: spec_fn(int) -> int, k: nat, x: int) -> int
    decreases k,
{
    if k == 0 {
        x
    } else {
        f(iterate(f, (k - 1) as nat, x))
    }
}

/// `f` maps `0..n` into itself, one to one.
pub open spec fn permutes(f: spec_fn(int) -> int, n: int) -> bool {
    &&& forall|x: int| 0 <= x < n ==> 0 <= #[trigger] f(x) < n
    &&& forall|x: int, y: int| 0 <= x < n && 0 <= y < n && #[trigger] f(x) == #[trigger] f(y) ==> x == y
}

pub proof fn lemma_iterate_in_range(f: spec_fn(int) -> int, n: int, k: nat, x: int)
    requires
        permutes(f, n),
        0 <= x < n,
    ensures
        0 <= iterate(f, k, x) < n,
    decreases k,
{
    if k > 0 {
        lemma_iterate_in_range(f, n, (k - 1) as nat, x);
    }
}

pub proof fn lemma_iterate_add(f: spec_fn(int) -> int, a: nat, b: nat, x: int)
    ensures
        iterate(f, a + b, x) == iterate(f, a, iterate(f, b, x)),
    decreases a,
{
    if a > 0 {
        lemma_iterate_add(f, (a - 1) as nat, b, x);
        assert((a + b - 1) as nat == (a - 1) as nat + b);
    }
}

proof fn lemma_iterate_cancel(f: spec_fn(int) -> int, n: int, a: nat, b: nat, x: int)
    requires
        permutes(f, n),
        0 <= x < n,
        a <= b,
        iterate(f, a, x) == iterate(f, b, x),
    ensures
        iterate(f, (b - a) as nat, x) == x,
    decreases a,
{
    if a > 0 {
        lemma_iterate_in_range(f, n, (a - 1) as nat, x);
        lemma_iterate_in_range(f, n, (b - 1) as nat, x);
        lemma_iterate_cancel(f, n, (a - 1) as nat, (b - 1) as nat, x);
    }
}

/// A permutation of `0..n` brings every point back within `n` steps.
pub proof fn lemma_returns(f: spec_fn(int) -> int, n: int, x: int)
    requires
        permutes(f, n),
        0 <= x < n,
    ensures
        exists|k: nat| 1 <= k <= n && #[trigger] iterate(f, k, x) == x,
{
    let s = Seq::new((n + 1) as nat, |k: int| iterate(f, k as nat, x));
    assert forall|k: int| 0 <= k < s.len() implies 0 <= #[trigger] s[k] < n by {
        lemma_iterate_in_range(f, n, k as nat, x);
    }
    if forall|i: int, j: int| 0 <= i < j < s.len() ==> s[i] != s[j] {
        lemma_distinct_bounded(s, n);
    } else {
        let (i, j) = choose|i: int, j: int| 0 <= i < j < s.len() && s[i] == s[j];
        lemma_iterate_cancel(f, n, i as nat, j as nat, x);
        assert(iterate(f, (j - i) as nat, x) == x);
    }
}

} // verus!
