//! Orbit listings: the darts of an orbit, each with the first path that
//! reaches it, in the order of those paths.

use crate::dart::Alphas;
use crate::model::GMapView;
use crate::shortlex::{
    lemma_shortlex_asymmetric, lemma_shortlex_le_push, lemma_shortlex_total,
    lemma_shortlex_transitive, shortlex_le, shortlex_lt,
};
use vstd::prelude::*;

verus! {

/// Some listed dart is `e`, and its path comes no later than `q`.
pub open spec fn covered(paths: Seq<Seq<int>>, darts: Seq<int>, e: int, q: Seq<int>) -> bool {
    exists|k: int| 0 <= k < darts.len() && #[trigger] darts[k] == e && shortlex_le(paths[k], q)
}

/// `x` is one of `darts`.
pub open spec fn listed(darts: Seq<int>, x: int) -> bool {
    exists|k: int| 0 <= k < darts.len() && #[trigger] darts[k] == x
}

impl GMapView {
    /// `darts` lists the `a`-orbit of `d` without repetition, `paths[k]` is
    /// the earliest path over `a` from `d` to `darts[k]`, and the darts stand
    /// in the order of their paths: a breadth-first enumeration that tries
    /// the involutions in increasing order.
    pub open spec fn lists_orbit(
        self,
        a: Alphas,
        d: int,
        paths: Seq<Seq<int>>,
        darts: Seq<int>,
    ) -> bool {
        &&& paths.len() == darts.len()
        &&& forall|k: int|
            0 <= k < darts.len() ==> self.path_in(a, #[trigger] paths[k]) && self.walk(d, paths[k])
                == darts[k]
        &&& forall|k1: int, k2: int|
            0 <= k1 < k2 < darts.len() ==> #[trigger] shortlex_lt(paths[k1], paths[k2])
        &&& forall|k1: int, k2: int|
            0 <= k1 < k2 < darts.len() ==> #[trigger] darts[k1] != #[trigger] darts[k2]
        &&& forall|q: Seq<int>|
            self.path_in(a, q) ==> #[trigger] covered(paths, darts, self.walk(d, q), q)
    }

    /// A listing holds exactly the darts of the orbit.
    pub proof fn lemma_listing_darts(
        self,
        a: Alphas,
        d: int,
        paths: Seq<Seq<int>>,
        darts: Seq<int>,
        e: int,
    )
        requires
            self.lists_orbit(a, d, paths, darts),
        ensures
            self.reaches(a, d, e) <==> listed(darts, e),
    {
        if self.reaches(a, d, e) {
            let q = choose|q: Seq<int>| self.path_in(a, q) && #[trigger] self.walk(d, q) == e;
            assert(covered(paths, darts, self.walk(d, q), q));
        }
        if listed(darts, e) {
            let k = choose|k: int| 0 <= k < darts.len() && #[trigger] darts[k] == e;
            assert(self.path_in(a, paths[k]) && self.walk(d, paths[k]) == e);
        }
    }

    /// A listing starts with the dart itself, reached by the empty path.
    pub proof fn lemma_listing_first(
        self,
        a: Alphas,
        d: int,
        paths: Seq<Seq<int>>,
        darts: Seq<int>,
    )
        requires
            self.lists_orbit(a, d, paths, darts),
        ensures
            darts.len() >= 1,
            darts[0] == d,
            paths[0] == Seq::<int>::empty(),
    {
        let q = Seq::<int>::empty();
        assert(self.path_in(a, q));
        assert(covered(paths, darts, self.walk(d, q), q));
        let k = choose|k: int| 0 <= k < darts.len() && #[trigger] darts[k] == d && shortlex_le(paths[k], q);
        assert(paths[k] =~= q);
        if k > 0 {
            assert(shortlex_lt(paths[0], paths[k]));
        }
    }

    /// Every dart of a listing is a dart of the map.
    pub proof fn lemma_listing_has_dart(
        self,
        a: Alphas,
        d: int,
        paths: Seq<Seq<int>>,
        darts: Seq<int>,
        k: int,
    )
        requires
            self.shaped(),
            self.has_dart(d),
            self.lists_orbit(a, d, paths, darts),
            0 <= k < darts.len(),
        ensures
            self.has_dart(darts[k]),
            self.reaches(a, d, darts[k]),
    {
        assert(self.path_in(a, paths[k]) && self.walk(d, paths[k]) == darts[k]);
        self.lemma_walk_has_dart(a, d, paths[k]);
    }

    /// The path of a listed dart is the earliest path that reaches it.
    pub proof fn lemma_listing_earliest(
        self,
        a: Alphas,
        d: int,
        paths: Seq<Seq<int>>,
        darts: Seq<int>,
        k: int,
        q: Seq<int>,
    )
        requires
            self.lists_orbit(a, d, paths, darts),
            0 <= k < darts.len(),
            self.path_in(a, q),
            self.walk(d, q) == darts[k],
        ensures
            shortlex_le(paths[k], q),
    {
        assert(covered(paths, darts, self.walk(d, q), q));
        let m = choose|m: int| 0 <= m < darts.len() && #[trigger] darts[m] == darts[k] && shortlex_le(paths[m], q);
        if m < k {
            assert(darts[m] != darts[k]);
        }
        if k < m {
            assert(darts[k] != darts[m]);
        }
    }

    /// The orbit of a dart has one listing only: enumeration is deterministic.
    pub proof fn lemma_listing_unique(
        self,
        a: Alphas,
        d: int,
        paths1: Seq<Seq<int>>,
        darts1: Seq<int>,
        paths2: Seq<Seq<int>>,
        darts2: Seq<int>,
    )
        requires
            self.lists_orbit(a, d, paths1, darts1),
            self.lists_orbit(a, d, paths2, darts2),
        ensures
            paths1 == paths2,
            darts1 == darts2,
    {
        self.lemma_listing_prefix(a, d, paths1, darts1, paths2, darts2, darts1.len() as int);
        self.lemma_listing_prefix(a, d, paths2, darts2, paths1, darts1, darts2.len() as int);
        assert(darts1.len() == darts2.len());
        assert(paths1 =~= paths2);
        assert(darts1 =~= darts2);
    }

    proof fn lemma_listing_prefix(
        self,
        a: Alphas,
        d: int,
        paths1: Seq<Seq<int>>,
        darts1: Seq<int>,
        paths2: Seq<Seq<int>>,
        darts2: Seq<int>,
        n: int,
    )
        requires
            self.lists_orbit(a, d, paths1, darts1),
            self.lists_orbit(a, d, paths2, darts2),
            0 <= n <= darts1.len(),
        ensures
            n <= darts2.len(),
            forall|k: int| 0 <= k < n ==> paths1[k] == paths2[k] && darts1[k] == darts2[k],
        decreases n,
    {
        if n > 0 {
            self.lemma_listing_prefix(a, d, paths1, darts1, paths2, darts2, n - 1);
            let k = n - 1;
            let p = paths1[k];
            assert(self.path_in(a, p) && self.walk(d, p) == darts1[k]);
            // the dart is listed in the second listing too, at some index m
            assert(covered(paths2, darts2, self.walk(d, p), p));
            let m = choose|m: int|
                0 <= m < darts2.len() && #[trigger] darts2[m] == darts1[k] && shortlex_le(
                    paths2[m],
                    p,
                );
            assert(self.path_in(a, paths2[m]) && self.walk(d, paths2[m]) == darts2[m]);
            self.lemma_listing_earliest(a, d, paths1, darts1, k, paths2[m]);
            if paths2[m] != p {
                lemma_shortlex_asymmetric(paths2[m], p);
            }
            assert(paths2[m] == p);
            if m < k {
                assert(paths1[m] == paths2[m]);
                assert(shortlex_lt(paths1[m], paths1[k]));
                lemma_shortlex_asymmetric(paths1[m], paths1[k]);
            }
            if m > k {
                // the second listing holds a dart at index k whose path is earlier
                let p2 = paths2[k];
                assert(shortlex_lt(paths2[k], paths2[m]));
                assert(self.path_in(a, p2) && self.walk(d, p2) == darts2[k]);
                assert(covered(paths1, darts1, self.walk(d, p2), p2));
                let m1 = choose|m1: int|
                    0 <= m1 < darts1.len() && #[trigger] darts1[m1] == darts2[k] && shortlex_le(
                        paths1[m1],
                        p2,
                    );
                lemma_shortlex_transitive(paths1[m1], p2, p);
                if m1 < k {
                    assert(darts1[m1] == darts2[m1]);
                    assert(darts2[m1] != darts2[k]);
                } else if m1 > k {
                    assert(shortlex_lt(paths1[k], paths1[m1]));
                    lemma_shortlex_asymmetric(paths1[k], paths1[m1]);
                } else {
                    lemma_shortlex_asymmetric(paths1[k], p);
                }
            }
        }
    }

    /// A list that holds the start and is closed under the involutions of the
    /// mask, each time by a path no later than the extended one, covers every
    /// path.
    pub proof fn lemma_closed_covers(
        self,
        a: Alphas,
        d: int,
        paths: Seq<Seq<int>>,
        darts: Seq<int>,
        q: Seq<int>,
    )
        requires
            paths.len() == darts.len(),
            darts.len() >= 1,
            darts[0] == d,
            paths[0] == Seq::<int>::empty(),
            forall|m: int, j: int|
                0 <= m < darts.len() && self.has_index(j) && a.contains(j) ==> covered(
                    paths,
                    darts,
                    #[trigger] self.al(darts[m], j),
                    paths[m].push(j),
                ),
            self.path_in(a, q),
        ensures
            covered(paths, darts, self.walk(d, q), q),
        decreases q.len(),
    {
        if q.len() == 0 {
            assert(darts[0] == self.walk(d, q) && shortlex_le(paths[0], q)) by {
                assert(q =~= Seq::<int>::empty());
            }
        } else {
            let q0 = q.drop_last();
            let j = q.last();
            self.lemma_path_in_drop_last(a, q);
            self.lemma_closed_covers(a, d, paths, darts, q0);
            let k = choose|k: int|
                0 <= k < darts.len() && #[trigger] darts[k] == self.walk(d, q0) && shortlex_le(
                    paths[k],
                    q0,
                );
            assert(covered(paths, darts, self.al(darts[k], j), paths[k].push(j)));
            let k2 = choose|k2: int|
                0 <= k2 < darts.len() && #[trigger] darts[k2] == self.al(darts[k], j) && shortlex_le(
                    paths[k2],
                    paths[k].push(j),
                );
            lemma_shortlex_le_push(paths[k], q0, j);
            assert(q0.push(j) =~= q);
            lemma_shortlex_transitive(paths[k2], paths[k].push(j), q);
            assert(darts[k2] == self.walk(d, q) && shortlex_le(paths[k2], q));
        }
    }
}

} // verus!
